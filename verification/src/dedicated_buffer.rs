//! The buffer of a field whose owner has a buffer to itself: kept while its size fits,
//! replaced when it does not.

use vstd::prelude::*;
use crate::assignments::RenderResourceAssignments;
use crate::render_resource::{
    BufferInfo, BufferUsage, ByteRange, RenderResourceAssignment, RenderResourceHints,
    RenderResourceId, ResourceInfo, BUFFER, COPY_DST, STORAGE, UNIFORM,
};
use crate::renderer::{RenderResourceContext, RenderResourceTable};

verus! {

/// The usage of a dedicated buffer: a copy target, bound as storage where the hints ask for
/// it and as uniform otherwise.
pub open spec fn dedicated_usage(hints: Option<RenderResourceHints>) -> BufferUsage {
    if hints is Some && hints.unwrap().spec_contains(BUFFER) {
        BufferUsage { bits: COPY_DST | STORAGE }
    } else {
        BufferUsage { bits: COPY_DST | UNIFORM }
    }
}

/// The binding of a field to the whole of its dedicated buffer.
pub open spec fn dedicated_assignment(
    resource: RenderResourceId,
    size: usize,
) -> RenderResourceAssignment {
    RenderResourceAssignment::Buffer {
        resource,
        range: ByteRange { start: 0, end: size as u64 },
        dynamic_index: None,
    }
}

/// The buffer size that the backend reports for the resource bound under `name`, where
/// something is bound there and the backend knows it as a buffer of known size.
pub open spec fn bound_buffer_size(
    table: RenderResourceTable,
    assignments: Map<Seq<char>, RenderResourceAssignment>,
    name: Seq<char>,
) -> Option<usize> {
    if assignments.contains_key(name) {
        match table.resource_info(assignments[name].resource()) {
            Some(ResourceInfo::Buffer(Some(info))) => Some(info.size),
            _ => None,
        }
    } else {
        None
    }
}

/// `target` is the dedicated buffer for `size` bytes under `name`, and `table_after` and
/// `assignments_after` are the backend and the owner's table once it is in place.
///
/// A bound buffer of exactly `size` bytes is kept, and nothing changes. A bound buffer of
/// another size is freed. Unless a buffer was kept, a buffer of `size` bytes that was not live
/// is created and bound under `name`.
pub open spec fn dedicated_buffer_bound(
    table: RenderResourceTable,
    assignments: Map<Seq<char>, RenderResourceAssignment>,
    name: Seq<char>,
    size: usize,
    usage: BufferUsage,
    target: RenderResourceId,
    table_after: RenderResourceTable,
    assignments_after: Map<Seq<char>, RenderResourceAssignment>,
) -> bool {
    let bound = bound_buffer_size(table, assignments, name);
    if bound == Some(size) {
        &&& target == assignments[name].resource()
        &&& table_after == table
        &&& assignments_after == assignments
    } else {
        let freed = if bound is Some {
            table.without_buffer(assignments[name].resource())
        } else {
            table
        };
        &&& !freed.resources.contains_key(target)
        &&& table_after == freed.with_buffer(target, BufferInfo { size, buffer_usage: usage })
        &&& assignments_after == assignments.insert(name, dedicated_assignment(target, size))
    }
}

/// Finds or makes the dedicated buffer for `size` bytes of the field `name`.
pub fn setup_dedicated_buffer<C: RenderResourceContext>(
    render_resources: &mut C,
    render_resource_assignments: &mut RenderResourceAssignments,
    render_resource_name: &str,
    size: usize,
    hints: Option<RenderResourceHints>,
) -> (resource: RenderResourceId)
    requires
        old(render_resource_assignments).wf(),
    ensures
        final(render_resource_assignments).wf(),
        final(render_resource_assignments).id == old(render_resource_assignments).id,
        dedicated_buffer_bound(
            old(render_resources).table(),
            old(render_resource_assignments)@,
            render_resource_name@,
            size,
            dedicated_usage(hints),
            resource,
            final(render_resources).table(),
            final(render_resource_assignments)@,
        ),
{
    let mut matching_buffer: Option<RenderResourceId> = None;
    let mut buffer_to_remove: Option<RenderResourceId> = None;
    if let Some(assignment) = render_resource_assignments.get(render_resource_name) {
        let resource = assignment.get_resource();
        if let Some(ResourceInfo::Buffer(Some(info))) = render_resources.get_resource_info(
            resource,
        ) {
            if size == info.size {
                matching_buffer = Some(resource);
            } else {
                buffer_to_remove = Some(resource);
            }
        }
    }
    if let Some(buffer) = buffer_to_remove {
        render_resources.remove_buffer(buffer);
    }
    if let Some(matching_buffer) = matching_buffer {
        matching_buffer
    } else {
        let mut usage = UNIFORM;
        if let Some(render_resource_hints) = hints {
            if render_resource_hints.contains(BUFFER) {
                usage = STORAGE;
            }
        }
        let resource = render_resources.create_buffer(
            BufferInfo { size, buffer_usage: BufferUsage { bits: COPY_DST | usage } },
        );
        render_resource_assignments.set(
            render_resource_name,
            RenderResourceAssignment::Buffer {
                resource,
                range: ByteRange { start: 0, end: size as u64 },
                dynamic_index: None,
            },
        );
        resource
    }
}

/// A field that is bound to a live buffer of exactly its byte length keeps that buffer:
/// nothing is allocated or freed, and the table stays as it is.
pub proof fn lemma_dedicated_buffer_kept(
    table: RenderResourceTable,
    assignments: Map<Seq<char>, RenderResourceAssignment>,
    name: Seq<char>,
    size: usize,
    usage: BufferUsage,
    target: RenderResourceId,
    table_after: RenderResourceTable,
    assignments_after: Map<Seq<char>, RenderResourceAssignment>,
)
    requires
        assignments.contains_key(name),
        table.resource_info(assignments[name].resource()) matches Some(
            ResourceInfo::Buffer(Some(info)),
        ) && info.size == size,
        dedicated_buffer_bound(
            table,
            assignments,
            name,
            size,
            usage,
            target,
            table_after,
            assignments_after,
        ),
    ensures
        target == assignments[name].resource(),
        table_after == table,
        assignments_after == assignments,
{
}

/// A field that is bound to a live buffer of another byte length gets a new buffer: the old
/// one is freed, and one of the field's byte length, whose handle was not live, is created and
/// bound in its place.
pub proof fn lemma_dedicated_buffer_exchanged(
    table: RenderResourceTable,
    assignments: Map<Seq<char>, RenderResourceAssignment>,
    name: Seq<char>,
    size: usize,
    usage: BufferUsage,
    target: RenderResourceId,
    table_after: RenderResourceTable,
    assignments_after: Map<Seq<char>, RenderResourceAssignment>,
)
    requires
        assignments.contains_key(name),
        table.resource_info(assignments[name].resource()) matches Some(
            ResourceInfo::Buffer(Some(info)),
        ) && info.size != size,
        dedicated_buffer_bound(
            table,
            assignments,
            name,
            size,
            usage,
            target,
            table_after,
            assignments_after,
        ),
    ensures
        !table.without_buffer(assignments[name].resource()).resources.contains_key(target),
        table_after == table.without_buffer(assignments[name].resource()).with_buffer(
            target,
            BufferInfo { size, buffer_usage: usage },
        ),
        target != assignments[name].resource() ==> table_after.resource_info(
            assignments[name].resource(),
        ) is None,
        table_after.resource_info(target) == Some(
            ResourceInfo::Buffer(Some(BufferInfo { size, buffer_usage: usage })),
        ),
        assignments_after == assignments.insert(name, dedicated_assignment(target, size)),
{
}

/// A buffer made for a field is found again, and kept, when the field is set up again with
/// the same byte length: the handle, the backend and the table stay as they are.
pub proof fn lemma_dedicated_buffer_reused(
    table: RenderResourceTable,
    assignments: Map<Seq<char>, RenderResourceAssignment>,
    name: Seq<char>,
    size: usize,
    usage: BufferUsage,
    first: RenderResourceId,
    table_between: RenderResourceTable,
    assignments_between: Map<Seq<char>, RenderResourceAssignment>,
    later_usage: BufferUsage,
    second: RenderResourceId,
    table_after: RenderResourceTable,
    assignments_after: Map<Seq<char>, RenderResourceAssignment>,
)
    requires
        dedicated_buffer_bound(
            table,
            assignments,
            name,
            size,
            usage,
            first,
            table_between,
            assignments_between,
        ),
        dedicated_buffer_bound(
            table_between,
            assignments_between,
            name,
            size,
            later_usage,
            second,
            table_after,
            assignments_after,
        ),
    ensures
        second == first,
        table_after == table_between,
        assignments_after == assignments_between,
{
}

/// A buffer made for a field is freed, and a new one of the new size is made and bound, when
/// the field is set up again with another byte length.
pub proof fn lemma_dedicated_buffer_replaced(
    table: RenderResourceTable,
    assignments: Map<Seq<char>, RenderResourceAssignment>,
    name: Seq<char>,
    size: usize,
    usage: BufferUsage,
    first: RenderResourceId,
    table_between: RenderResourceTable,
    assignments_between: Map<Seq<char>, RenderResourceAssignment>,
    later_size: usize,
    later_usage: BufferUsage,
    second: RenderResourceId,
    table_after: RenderResourceTable,
    assignments_after: Map<Seq<char>, RenderResourceAssignment>,
)
    requires
        later_size != size,
        dedicated_buffer_bound(
            table,
            assignments,
            name,
            size,
            usage,
            first,
            table_between,
            assignments_between,
        ),
        dedicated_buffer_bound(
            table_between,
            assignments_between,
            name,
            later_size,
            later_usage,
            second,
            table_after,
            assignments_after,
        ),
    ensures
        table_between.resource_info(first) is Some,
        table_after.resource_info(second) == Some(
            ResourceInfo::Buffer(Some(BufferInfo { size: later_size, buffer_usage: later_usage })),
        ),
        second != first ==> table_after.resource_info(first) is None,
        table_after == table_between.without_buffer(first).with_buffer(
            second,
            BufferInfo { size: later_size, buffer_usage: later_usage },
        ),
        assignments_after[name] == dedicated_assignment(second, later_size),
{
}

} // verus!
