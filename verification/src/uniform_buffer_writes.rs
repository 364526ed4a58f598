//! The write pass: each buffer-backed field of a value is bound to its buffer, serialised into
//! the staging buffer, and noted as a copy that is still to be queued.

use vstd::prelude::*;
use crate::assignments::RenderResourceAssignments;
use crate::dedicated_buffer::{dedicated_buffer_bound, dedicated_usage, setup_dedicated_buffer};
use crate::render_resource::{
    lemma_aligned_size, ByteRange, RenderResourceAssignment, RenderResourceAssignmentsId,
    RenderResourceId, ResourceInfo,
};
use crate::renderer::{RenderResourceContext, RenderResourceTable};
use crate::command_queue::{Command, CommandQueue};
use crate::uniform_buffer_arrays::{
    is_buffer_at, BufferArrayStatus, QueuedBufferWrite, UniformArray, UniformBufferArrays,
};
use crate::uniforms::{RenderResourceField, RenderResources};

verus! {

/// The backend and the binding table of the owner whose value is being written.
pub struct BindingState {
    pub table: RenderResourceTable,
    pub assignments: Map<Seq<char>, RenderResourceAssignment>,
}

/// The binding of a field to its slot in a shared, dynamically indexed buffer.
pub open spec fn dynamic_assignment(
    resource: RenderResourceId,
    offset: usize,
    size: usize,
) -> RenderResourceAssignment {
    RenderResourceAssignment::Buffer {
        resource,
        range: ByteRange { start: 0, end: size as u64 },
        dynamic_index: Some(offset as u64),
    }
}

/// `after` is the binding state once `field` was bound to the buffer that `write` targets.
pub open spec fn field_bound(
    state: BindingState,
    field: RenderResourceField,
    dynamic_uniforms: bool,
    write: QueuedBufferWrite,
    after: BindingState,
) -> bool {
    if !field.is_buffer() {
        after == state
    } else if dynamic_uniforms {
        after == (BindingState {
            assignments: state.assignments.insert(
                field.name,
                dynamic_assignment(write.buffer, write.target_offset, write.size),
            ),
            ..state
        })
    } else {
        dedicated_buffer_bound(
            state.table,
            state.assignments,
            field.name,
            write.size,
            dedicated_usage(field.hints),
            write.buffer,
            after.table,
            after.assignments,
        )
    }
}

/// `bytes` with `data` written over it from position `start` on.
pub open spec fn splice(bytes: Seq<u8>, start: int, data: Seq<u8>) -> Seq<u8> {
    bytes.subrange(0, start) + data + bytes.subrange(start + data.len(), bytes.len() as int)
}

/// The staging buffer once the first `k` of `fields` were staged, each buffer-backed one at the
/// place where its entry in `arrays` says the next write starts.
pub open spec fn staged(
    staging: Seq<u8>,
    arrays: Seq<UniformArray>,
    fields: Seq<RenderResourceField>,
    k: int,
) -> Seq<u8>
    decreases k,
{
    if k <= 0 {
        staging
    } else {
        let previous = staged(staging, arrays, fields, k - 1);
        if is_buffer_at(fields, k - 1) {
            splice(previous, arrays[k - 1].unwrap().1.staging_start(), fields[k - 1].bytes)
        } else {
            previous
        }
    }
}

/// The place in the staging buffer where the next write of entry `j` starts.
pub open spec fn region_start(arrays: Seq<UniformArray>, j: int) -> int {
    arrays[j].unwrap().1.staging_start()
}

/// The bytes of each of the first `k` fields have room in a staging buffer of `staging_len`
/// bytes, at the place where the field's entry puts them.
pub open spec fn regions_fit(
    arrays: Seq<UniformArray>,
    fields: Seq<RenderResourceField>,
    k: int,
    staging_len: nat,
) -> bool {
    forall|j: int|
        #![trigger fields[j]]
        0 <= j < k && is_buffer_at(fields, j) ==> region_start(arrays, j) + fields[j].bytes.len()
            <= staging_len
}

/// Among the first `k` fields, the bytes of an earlier field end before those of a later
/// field start.
pub open spec fn regions_ordered(
    arrays: Seq<UniformArray>,
    fields: Seq<RenderResourceField>,
    k: int,
) -> bool {
    forall|a: int, b: int|
        #![trigger fields[a], fields[b]]
        0 <= a < b < k && is_buffer_at(fields, a) && is_buffer_at(fields, b) ==> region_start(
            arrays,
            a,
        ) + fields[a].bytes.len() <= region_start(arrays, b)
}

/// Staging keeps the length of the staging buffer, and changes no byte that lies outside
/// the place of every staged field.
pub proof fn lemma_staged_outside(
    staging: Seq<u8>,
    arrays: Seq<UniformArray>,
    fields: Seq<RenderResourceField>,
    k: int,
    p: int,
)
    requires
        regions_fit(arrays, fields, k, staging.len()),
        0 <= p < staging.len(),
        forall|j: int|
            #![trigger fields[j]]
            0 <= j < k && is_buffer_at(fields, j) ==> p < region_start(arrays, j) || p
                >= region_start(arrays, j) + fields[j].bytes.len(),
    ensures
        staged(staging, arrays, fields, k).len() == staging.len(),
        staged(staging, arrays, fields, k)[p] == staging[p],
    decreases k,
{
    if k > 0 {
        lemma_staged_outside(staging, arrays, fields, k - 1, p);
        if is_buffer_at(fields, k - 1) {
            let field = fields[k - 1];
            assert(region_start(arrays, k - 1) + field.bytes.len() <= staging.len());
        }
    }
}

/// Staging keeps the length of the staging buffer.
pub proof fn lemma_staged_len(
    staging: Seq<u8>,
    arrays: Seq<UniformArray>,
    fields: Seq<RenderResourceField>,
    k: int,
)
    requires
        regions_fit(arrays, fields, k, staging.len()),
    ensures
        staged(staging, arrays, fields, k).len() == staging.len(),
    decreases k,
{
    if k > 0 {
        lemma_staged_len(staging, arrays, fields, k - 1);
        if is_buffer_at(fields, k - 1) {
            let field = fields[k - 1];
            assert(region_start(arrays, k - 1) + field.bytes.len() <= staging.len());
        }
    }
}

/// After staging, the place of each staged field holds the bytes of that field.
pub proof fn lemma_staged_inside(
    staging: Seq<u8>,
    arrays: Seq<UniformArray>,
    fields: Seq<RenderResourceField>,
    k: int,
    j: int,
)
    requires
        regions_fit(arrays, fields, k, staging.len()),
        regions_ordered(arrays, fields, k),
        0 <= j < k,
        is_buffer_at(fields, j),
    ensures
        staged(staging, arrays, fields, k).subrange(
            region_start(arrays, j),
            region_start(arrays, j) + fields[j].bytes.len(),
        ) == fields[j].bytes,
    decreases k,
{
    let start = region_start(arrays, j);
    let field = fields[j];
    assert(start + field.bytes.len() <= staging.len());
    lemma_staged_len(staging, arrays, fields, k - 1);
    let previous = staged(staging, arrays, fields, k - 1);
    if j == k - 1 {
        assert(staged(staging, arrays, fields, k).subrange(start, start + field.bytes.len())
            =~= field.bytes);
    } else {
        lemma_staged_inside(staging, arrays, fields, k - 1, j);
        if is_buffer_at(fields, k - 1) {
            let last = fields[k - 1];
            assert(region_start(arrays, k - 1) + last.bytes.len() <= staging.len());
            assert(start + field.bytes.len() <= region_start(arrays, k - 1));
            assert(staged(staging, arrays, fields, k).subrange(start, start + field.bytes.len())
                =~= previous.subrange(start, start + field.bytes.len()));
        }
    }
}

/// `after` is the entry of field `i` once a value with `fields` was written for `owner`.
pub open spec fn written_entry(
    before: UniformArray,
    fields: Seq<RenderResourceField>,
    i: int,
    dynamic_uniforms: bool,
    owner: RenderResourceAssignmentsId,
    after: UniformArray,
) -> bool {
    if is_buffer_at(fields, i) {
        &&& before is Some
        &&& after is Some
        &&& after.unwrap().0 == before.unwrap().0
        &&& before.unwrap().1.written(
            fields[i].bytes.len() as usize,
            dynamic_uniforms,
            owner,
            &after.unwrap().1,
        )
    } else {
        after == before
    }
}

/// The write that entry `i` queued last.
pub open spec fn last_write(arrays: Seq<UniformArray>, i: int) -> QueuedBufferWrite {
    if 0 <= i < arrays.len() && arrays[i] is Some
        && arrays[i].unwrap().1.queued_buffer_writes@.len() > 0 {
        arrays[i].unwrap().1.queued_buffer_writes@.last()
    } else {
        QueuedBufferWrite {
            buffer: RenderResourceId(0),
            target_offset: 0,
            source_offset: 0,
            size: 0,
        }
    }
}

/// The write that each entry queued last, by position.
pub open spec fn last_writes(arrays: Seq<UniformArray>) -> Seq<QueuedBufferWrite> {
    Seq::new(arrays.len(), |i: int| last_write(arrays, i))
}

/// `after` is the binding state once the first `k` of `fields` were bound, one after the
/// other, each buffer-backed one to the buffer that the write at its position in `writes`
/// targets.
pub open spec fn fields_bound(
    state: BindingState,
    fields: Seq<RenderResourceField>,
    dynamic_uniforms: bool,
    writes: Seq<QueuedBufferWrite>,
    k: int,
    after: BindingState,
) -> bool
    decreases k,
{
    if k <= 0 {
        after == state
    } else {
        let field = fields[k - 1];
        let write = writes[k - 1];
        let earlier = k - 1;
        exists|between: BindingState|
            fields_bound(state, fields, dynamic_uniforms, writes, earlier, between)
                && #[trigger] field_bound(between, field, dynamic_uniforms, write, after)
    }
}

/// Binding depends on the writes of the buffer-backed fields alone.
pub proof fn lemma_fields_bound_same(
    state: BindingState,
    fields: Seq<RenderResourceField>,
    dynamic_uniforms: bool,
    a: Seq<QueuedBufferWrite>,
    b: Seq<QueuedBufferWrite>,
    k: int,
    after: BindingState,
)
    requires
        k <= fields.len(),
        forall|i: int|
            #![trigger fields[i]]
            0 <= i < k && is_buffer_at(fields, i) ==> a[i] == b[i],
        fields_bound(state, fields, dynamic_uniforms, a, k, after),
    ensures
        fields_bound(state, fields, dynamic_uniforms, b, k, after),
    decreases k,
{
    if k > 0 {
        let field = fields[k - 1];
        let write = a[k - 1];
        let earlier = k - 1;
        let between = choose|between: BindingState|
            fields_bound(state, fields, dynamic_uniforms, a, earlier, between)
                && #[trigger] field_bound(between, field, dynamic_uniforms, write, after);
        lemma_fields_bound_same(state, fields, dynamic_uniforms, a, b, k - 1, between);
        assert(field_bound(between, field, dynamic_uniforms, b[k - 1], after));
    }
}

/// No buffer-backed field between `i` and `k` has the name of field `i`.
pub open spec fn bound_last(fields: Seq<RenderResourceField>, k: int, i: int) -> bool {
    forall|later: int|
        #![trigger fields[later]]
        i < later < k && is_buffer_at(fields, later) ==> fields[later].name != fields[i].name
}

/// No buffer-backed field among the first `k` has the name `name`.
pub open spec fn unbound_name(fields: Seq<RenderResourceField>, k: int, name: Seq<char>) -> bool {
    forall|i: int| #![trigger fields[i]] 0 <= i < k && is_buffer_at(fields, i)
        ==> fields[i].name != name
}

/// In dynamic mode binding leaves the backend as it is. Each buffer-backed field is bound, under
/// its name, to its slot: to the buffer, the offset and the size of its write; where several
/// fields share a name, the last one is bound. Names of no buffer-backed field keep their
/// binding.
pub proof fn lemma_dynamic_fields_bound(
    state: BindingState,
    fields: Seq<RenderResourceField>,
    writes: Seq<QueuedBufferWrite>,
    k: int,
    after: BindingState,
)
    requires
        0 <= k <= fields.len(),
        fields_bound(state, fields, true, writes, k, after),
    ensures
        after.table == state.table,
        forall|i: int|
            #![trigger fields[i]]
            0 <= i < k && is_buffer_at(fields, i) && bound_last(fields, k, i)
                ==> after.assignments.contains_key(fields[i].name)
                && after.assignments[fields[i].name] == dynamic_assignment(
                writes[i].buffer,
                writes[i].target_offset,
                writes[i].size,
            ),
        forall|name: Seq<char>|
            unbound_name(fields, k, name) ==> (#[trigger] after.assignments.contains_key(name)
                <==> state.assignments.contains_key(name)) && after.assignments[name]
                == state.assignments[name],
    decreases k,
{
    if k > 0 {
        let field = fields[k - 1];
        let write = writes[k - 1];
        let earlier = k - 1;
        let between = choose|between: BindingState|
            fields_bound(state, fields, true, writes, earlier, between) && #[trigger] field_bound(
                between,
                field,
                true,
                write,
                after,
            );
        lemma_dynamic_fields_bound(state, fields, writes, k - 1, between);
        assert forall|i: int|
            #![trigger fields[i]]
            0 <= i < k && is_buffer_at(fields, i) && bound_last(fields, k, i)
            implies after.assignments.contains_key(fields[i].name)
            && after.assignments[fields[i].name] == dynamic_assignment(
            writes[i].buffer,
            writes[i].target_offset,
            writes[i].size,
        ) by {
            if i < k - 1 {
                assert(bound_last(fields, k - 1, i));
                if is_buffer_at(fields, k - 1) {
                    assert(fields[k - 1].name != fields[i].name);
                }
            }
        }
        assert forall|name: Seq<char>| unbound_name(fields, k, name) implies (
        #[trigger] after.assignments.contains_key(name) <==> state.assignments.contains_key(name))
            && after.assignments[name] == state.assignments[name] by {
            assert(unbound_name(fields, k - 1, name));
            if is_buffer_at(fields, k - 1) {
                assert(fields[k - 1].name != name);
            }
        }
    }
}

/// In either mode, each buffer-backed field is bound, under its name, to the buffer that its
/// write targets; where several fields share a name, this holds of the last.
pub proof fn lemma_fields_bound_to_targets(
    state: BindingState,
    fields: Seq<RenderResourceField>,
    dynamic_uniforms: bool,
    writes: Seq<QueuedBufferWrite>,
    k: int,
    after: BindingState,
)
    requires
        0 <= k <= fields.len(),
        fields_bound(state, fields, dynamic_uniforms, writes, k, after),
    ensures
        forall|i: int|
            #![trigger fields[i]]
            0 <= i < k && is_buffer_at(fields, i) && bound_last(fields, k, i)
                ==> after.assignments.contains_key(fields[i].name)
                && after.assignments[fields[i].name].resource() == writes[i].buffer,
    decreases k,
{
    if k > 0 {
        let field = fields[k - 1];
        let write = writes[k - 1];
        let earlier = k - 1;
        let between = choose|between: BindingState|
            fields_bound(state, fields, dynamic_uniforms, writes, earlier, between)
                && #[trigger] field_bound(between, field, dynamic_uniforms, write, after);
        lemma_fields_bound_to_targets(state, fields, dynamic_uniforms, writes, k - 1, between);
        assert forall|i: int|
            #![trigger fields[i]]
            0 <= i < k && is_buffer_at(fields, i) && bound_last(fields, k, i)
            implies after.assignments.contains_key(fields[i].name)
            && after.assignments[fields[i].name].resource() == writes[i].buffer by {
            if i < k - 1 {
                assert(bound_last(fields, k - 1, i));
                if is_buffer_at(fields, k - 1) {
                    assert(fields[k - 1].name != fields[i].name);
                }
            }
        }
    }
}

/// The command that copies what `write` staged, `start` bytes into the staging buffer, to its
/// place in its target buffer.
pub open spec fn copy_command(
    staging_buffer: RenderResourceId,
    start: usize,
    write: QueuedBufferWrite,
) -> Command {
    Command::CopyBufferToBuffer {
        source_buffer: staging_buffer,
        source_offset: (start + write.source_offset) as u64,
        destination_buffer: write.buffer,
        destination_offset: write.target_offset as u64,
        size: write.size as u64,
    }
}

/// The copy commands for the first `k` writes that `status` has noted, in their order.
pub open spec fn status_copies(
    status: BufferArrayStatus,
    staging_buffer: RenderResourceId,
    k: int,
) -> Seq<Command> {
    Seq::new(
        k as nat,
        |j: int|
            copy_command(
                staging_buffer,
                status.staging_buffer_offset,
                status.queued_buffer_writes@[j],
            ),
    )
}

/// The copy commands for all the writes that an entry has noted.
pub open spec fn entry_copies(entry: UniformArray, staging_buffer: RenderResourceId) -> Seq<
    Command,
> {
    match entry {
        Some((_, status)) => status_copies(
            status,
            staging_buffer,
            status.queued_buffer_writes@.len() as int,
        ),
        None => Seq::empty(),
    }
}

/// The copy commands for all the writes of the first `k` entries, entry by entry.
pub open spec fn copies(
    arrays: Seq<UniformArray>,
    staging_buffer: RenderResourceId,
    k: int,
) -> Seq<Command>
    decreases k,
{
    if k <= 0 {
        Seq::empty()
    } else {
        copies(arrays, staging_buffer, k - 1) + entry_copies(arrays[k - 1], staging_buffer)
    }
}

/// `after` is the entry once its noted writes were handed on: the list is empty, the rest is
/// as before.
pub open spec fn flushed_entry(before: UniformArray, after: UniformArray) -> bool {
    match before {
        Some((name, status)) => {
            &&& after is Some
            &&& after.unwrap().0 == name
            &&& status.flushed(&after.unwrap().1)
        },
        None => after is None,
    }
}

impl BufferArrayStatus {
    /// Every noted write starts at a place in the staging buffer that the machine can address.
    pub open spec fn writes_addressable(&self) -> bool {
        forall|j: int|
            0 <= j < self.queued_buffer_writes@.len() ==> self.staging_buffer_offset + (
            #[trigger] self.queued_buffer_writes@[j]).source_offset <= usize::MAX
    }

    /// `after` is the status once its noted writes were handed on.
    pub open spec fn flushed(&self, after: &Self) -> bool {
        &&& after.queued_buffer_writes@ == Seq::<QueuedBufferWrite>::empty()
        &&& *self == (BufferArrayStatus {
            queued_buffer_writes: self.queued_buffer_writes,
            ..*after
        })
    }

    /// Queues one copy command for each noted write and empties the list.
    pub fn queue_copies(&mut self, command_queue: &mut CommandQueue,
        staging_buffer: RenderResourceId)
        requires
            old(self).writes_addressable(),
        ensures
            old(self).flushed(final(self)),
            old(self).slots_kept(final(self)),
            final(command_queue)@ == old(command_queue)@ + status_copies(
                *old(self),
                staging_buffer,
                old(self).queued_buffer_writes@.len() as int,
            ),
    {
        let start = self.staging_buffer_offset;
        let mut j: usize = 0;
        assert(command_queue@ =~= old(command_queue)@ + status_copies(*self, staging_buffer, 0));
        while j < self.queued_buffer_writes.len()
            invariant
                j <= self.queued_buffer_writes@.len(),
                *self == *old(self),
                start == self.staging_buffer_offset,
                self.writes_addressable(),
                command_queue@ == old(command_queue)@ + status_copies(
                    *self,
                    staging_buffer,
                    j as int,
                ),
            decreases self.queued_buffer_writes@.len() - j,
        {
            let queued_buffer_write = self.queued_buffer_writes[j];
            command_queue.copy_buffer_to_buffer(
                staging_buffer,
                (start + queued_buffer_write.source_offset) as u64,
                queued_buffer_write.buffer,
                queued_buffer_write.target_offset as u64,
                queued_buffer_write.size as u64,
            );
            assert(command_queue@ =~= old(command_queue)@ + status_copies(
                *self,
                staging_buffer,
                j + 1,
            ));
            j += 1;
        }
        self.queued_buffer_writes.clear();
    }

    /// There is room to write `len` more bytes for `owner`: in a staging buffer of
    /// `staging_len` bytes and, in dynamic mode, in a slot of the field's item size.
    pub open spec fn can_write(
        &self,
        len: nat,
        dynamic_uniforms: bool,
        owner: RenderResourceAssignmentsId,
        staging_len: nat,
    ) -> bool {
        &&& self.staging_start() + len <= staging_len
        &&& dynamic_uniforms ==> self.has_slot_for(owner) && len == self.item_size
    }

    /// Where the next write of this field starts in the staging buffer.
    pub open spec fn staging_start(&self) -> int {
        self.staging_buffer_offset + self.current_offset
    }

    /// The byte offset in the target buffer at which `owner`'s item goes.
    pub open spec fn target_offset(
        &self,
        dynamic_uniforms: bool,
        owner: RenderResourceAssignmentsId,
    ) -> int {
        if dynamic_uniforms {
            self.slot_for(owner) * self.aligned_size
        } else {
            0
        }
    }

    /// `after` is the status once `len` bytes for `owner` were staged: the write is noted at
    /// the end of the list, the running offset moved on by `len`, and in dynamic mode the
    /// owner has its slot.
    pub open spec fn written(
        &self,
        len: usize,
        dynamic_uniforms: bool,
        owner: RenderResourceAssignmentsId,
        after: &Self,
    ) -> bool {
        &&& after.queued_buffer_writes@.len() == self.queued_buffer_writes@.len() + 1
        &&& after.queued_buffer_writes@.drop_last() == self.queued_buffer_writes@
        &&& after.queued_buffer_writes@.last().source_offset == self.current_offset
        &&& after.queued_buffer_writes@.last().size == len
        &&& after.queued_buffer_writes@.last().target_offset == self.target_offset(
            dynamic_uniforms,
            owner,
        )
        &&& after.current_offset == self.current_offset + len
        &&& if dynamic_uniforms {
            &&& self.buffer == Some(after.queued_buffer_writes@.last().buffer)
            &&& self.slot_assigned(
                owner,
                &BufferArrayStatus {
                    queued_buffer_writes: self.queued_buffer_writes,
                    current_offset: self.current_offset,
                    ..*after
                },
            )
        } else {
            *self == (BufferArrayStatus {
                queued_buffer_writes: self.queued_buffer_writes,
                current_offset: self.current_offset,
                ..*after
            })
        }
    }

    /// In dynamic mode the offset at which an owner's item goes is a whole number of alignment
    /// units, and the slot that starts there holds the item and lies within the buffer.
    pub proof fn lemma_target_offset_aligned(&self, owner: RenderResourceAssignmentsId)
        requires
            self.wf(),
            self.has_slot_for(owner),
        ensures
            self.aligned_size % 256 == 0,
            self.item_size <= self.aligned_size,
            self.target_offset(true, owner) % 256 == 0,
            self.target_offset(true, owner) + self.aligned_size <= self.current_item_capacity
                * self.aligned_size,
    {
        lemma_aligned_size(self.item_size as int, self.slot_for(owner) as int);
        assert((self.slot_for(owner) + 1) * self.aligned_size <= self.current_item_capacity
            * self.aligned_size) by (nonlinear_arith)
            requires
                self.slot_for(owner) < self.current_item_capacity,
                0 <= self.aligned_size,
        ;
        assert((self.slot_for(owner) + 1) * self.aligned_size == self.slot_for(owner)
            * self.aligned_size + self.aligned_size) by (nonlinear_arith);
    }

    /// Binds the buffer-backed field `index` of `uniforms`, stages its bytes and notes the
    /// copy into its buffer.
    pub fn write_uniform<T: RenderResources, C: RenderResourceContext>(
        &mut self,
        uniforms: &T,
        index: usize,
        dynamic_uniforms: bool,
        render_resources: &mut C,
        render_resource_assignments: &mut RenderResourceAssignments,
        staging_buffer: &mut [u8],
    )
        requires
            old(self).wf(),
            old(render_resource_assignments).wf(),
            is_buffer_at(uniforms.fields(), index as int),
            old(self).can_write(
                uniforms.fields()[index as int].bytes.len(),
                dynamic_uniforms,
                old(render_resource_assignments).id,
                old(staging_buffer)@.len(),
            ),
        ensures
            final(self).wf(),
            final(render_resource_assignments).wf(),
            final(render_resource_assignments).id == old(render_resource_assignments).id,
            old(self).written(
                uniforms.fields()[index as int].bytes.len() as usize,
                dynamic_uniforms,
                old(render_resource_assignments).id,
                final(self),
            ),
            old(self).slots_kept(final(self)),
            field_bound(
                BindingState {
                    table: old(render_resources).table(),
                    assignments: old(render_resource_assignments)@,
                },
                uniforms.fields()[index as int],
                dynamic_uniforms,
                final(self).queued_buffer_writes@.last(),
                BindingState {
                    table: final(render_resources).table(),
                    assignments: final(render_resource_assignments)@,
                },
            ),
            final(staging_buffer)@ == splice(
                old(staging_buffer)@,
                old(self).staging_start(),
                uniforms.fields()[index as int].bytes,
            ),
    {
        let size = uniforms.buffer_byte_len(index).unwrap();
        let render_resource_name = uniforms.get_render_resource_name(index).unwrap();
        let (target_buffer, target_offset) = if dynamic_uniforms {
            let index_in_buffer = self.get_or_assign_index(render_resource_assignments.id);
            let buffer = self.buffer.unwrap();
            proof {
                assert(index_in_buffer * self.aligned_size <= self.current_item_capacity
                    * self.aligned_size) by (nonlinear_arith)
                    requires
                        index_in_buffer < self.current_item_capacity,
                ;
            }
            let offset = index_in_buffer * self.aligned_size;
            render_resource_assignments.set(
                render_resource_name,
                RenderResourceAssignment::Buffer {
                    resource: buffer,
                    dynamic_index: Some(offset as u64),
                    range: ByteRange { start: 0, end: size as u64 },
                },
            );
            (buffer, offset)
        } else {
            let hints = uniforms.get_render_resource_hints(index);
            let resource = setup_dedicated_buffer(
                render_resources,
                render_resource_assignments,
                render_resource_name,
                size,
                hints,
            );
            (resource, 0)
        };
        assert(self.staging_start() == old(self).staging_start());
        assert(staging_buffer@.len() == staging_buffer.len());
        let staging_buffer_start = self.staging_buffer_offset + self.current_offset;
        let (_head, rest) = staging_buffer.split_at_mut(staging_buffer_start);
        let (target, _tail) = rest.split_at_mut(size);
        uniforms.write_buffer_bytes(index, target);
        self.queued_buffer_writes.push(
            QueuedBufferWrite {
                buffer: target_buffer,
                target_offset,
                source_offset: self.current_offset,
                size,
            },
        );
        self.current_offset += size;
        proof {
            assert(self.queued_buffer_writes@.drop_last() =~= old(self).queued_buffer_writes@);
        }
    }
}

impl<T: RenderResources> UniformBufferArrays<T> {
    /// Every buffer-backed field of `fields` has a slot table with room for one more write.
    pub open spec fn can_write(
        &self,
        fields: Seq<RenderResourceField>,
        dynamic_uniforms: bool,
        owner: RenderResourceAssignmentsId,
        staging_len: nat,
    ) -> bool {
        forall|i: int|
            #![trigger fields[i]]
            is_buffer_at(fields, i) ==> self.entry(i) is Some && self.entry(i).unwrap().1.can_write(
                fields[i].bytes.len(),
                dynamic_uniforms,
                owner,
                staging_len,
            )
    }

    /// Writes one value: every buffer-backed field is bound in the owner's table, staged, and
    /// noted for copying. Texture, sampler and absent fields are passed over.
    pub fn setup_uniform_buffer_resources<C: RenderResourceContext>(
        &mut self,
        uniforms: &T,
        dynamic_uniforms: bool,
        render_resources: &mut C,
        render_resource_assignments: &mut RenderResourceAssignments,
        staging_buffer: &mut [u8],
    )
        requires
            old(self).wf(),
            old(render_resource_assignments).wf(),
            old(self).can_write(
                uniforms.fields(),
                dynamic_uniforms,
                old(render_resource_assignments).id,
                old(staging_buffer)@.len(),
            ),
        ensures
            final(self).wf(),
            final(render_resource_assignments).wf(),
            final(render_resource_assignments).id == old(render_resource_assignments).id,
            final(self).uniform_arrays@.len() == old(self).uniform_arrays@.len(),
            forall|i: int|
                0 <= i < old(self).uniform_arrays@.len() ==> written_entry(
                    old(self).uniform_arrays@[i],
                    uniforms.fields(),
                    i,
                    dynamic_uniforms,
                    old(render_resource_assignments).id,
                    #[trigger] final(self).uniform_arrays@[i],
                ),
            old(self).slots_kept(final(self)),
            final(staging_buffer)@ == staged(
                old(staging_buffer)@,
                old(self).uniform_arrays@,
                uniforms.fields(),
                uniforms.fields().len() as int,
            ),
            fields_bound(
                BindingState {
                    table: old(render_resources).table(),
                    assignments: old(render_resource_assignments)@,
                },
                uniforms.fields(),
                dynamic_uniforms,
                last_writes(final(self).uniform_arrays@),
                uniforms.fields().len() as int,
                BindingState {
                    table: final(render_resources).table(),
                    assignments: final(render_resource_assignments)@,
                },
            ),
    {
        let ghost before = self.uniform_arrays@;
        let ghost fields = uniforms.fields();
        let ghost owner = render_resource_assignments.id;
        let ghost state = BindingState {
            table: render_resources.table(),
            assignments: render_resource_assignments@,
        };
        let len = uniforms.render_resources_len();
        let mut i: usize = 0;
        while i < len
            invariant
                i <= len,
                len == fields.len(),
                fields == uniforms.fields(),
                before == old(self).uniform_arrays@,
                owner == old(render_resource_assignments).id,
                state == (BindingState {
                    table: old(render_resources).table(),
                    assignments: old(render_resource_assignments)@,
                }),
                old(self).wf(),
                old(self).can_write(
                    fields,
                    dynamic_uniforms,
                    owner,
                    old(staging_buffer)@.len(),
                ),
                render_resource_assignments.wf(),
                render_resource_assignments.id == owner,
                self.uniform_arrays@.len() == before.len(),
                staging_buffer@.len() == old(staging_buffer)@.len(),
                forall|j: int|
                    0 <= j < i && j < before.len() ==> written_entry(
                        before[j],
                        fields,
                        j,
                        dynamic_uniforms,
                        owner,
                        #[trigger] self.uniform_arrays@[j],
                    ),
                forall|j: int|
                    0 <= j < i && j < before.len() && (#[trigger] self.uniform_arrays@[j]) is Some
                        ==> before[j] is Some && self.uniform_arrays@[j].unwrap().1.wf()
                        && before[j].unwrap().1.slots_kept(&self.uniform_arrays@[j].unwrap().1),
                forall|j: int|
                    i <= j < before.len() ==> #[trigger] self.uniform_arrays@[j] == before[j],
                staging_buffer@ == staged(old(staging_buffer)@, before, fields, i as int),
                fields_bound(
                    state,
                    fields,
                    dynamic_uniforms,
                    last_writes(self.uniform_arrays@),
                    i as int,
                    BindingState {
                        table: render_resources.table(),
                        assignments: render_resource_assignments@,
                    },
                ),
            decreases len - i,
        {
            let ghost entries = self.uniform_arrays@;
            let ghost here = BindingState {
                table: render_resources.table(),
                assignments: render_resource_assignments@,
            };
            let ghost field = fields[i as int];
            let is_buffer = match uniforms.resource_info(i) {
                Some(ResourceInfo::Buffer(_)) => true,
                _ => false,
            };
            if is_buffer {
                assert(is_buffer_at(fields, i as int));
                assert(old(self).entry(i as int) is Some);
                assert(before[i as int].unwrap().1.wf());
                match &mut self.uniform_arrays[i] {
                    Some((_name, uniform_buffer_status)) => {
                        uniform_buffer_status.write_uniform(
                            uniforms,
                            i,
                            dynamic_uniforms,
                            render_resources,
                            render_resource_assignments,
                            staging_buffer,
                        );
                    },
                    None => {},
                }
            }
            proof {
                let now = self.uniform_arrays@;
                let there = BindingState {
                    table: render_resources.table(),
                    assignments: render_resource_assignments@,
                };
                lemma_fields_bound_same(
                    state,
                    fields,
                    dynamic_uniforms,
                    last_writes(entries),
                    last_writes(now),
                    i as int,
                    here,
                );
                assert(field_bound(
                    here,
                    field,
                    dynamic_uniforms,
                    last_writes(now)[i as int],
                    there,
                ));
            }
            i += 1;
        }
    }

    /// Every noted write of every slot table starts at an addressable place in the staging
    /// buffer.
    pub open spec fn writes_addressable(&self) -> bool {
        forall|i: int|
            0 <= i < self.uniform_arrays@.len() && (#[trigger] self.uniform_arrays@[i]) is Some
                ==> self.uniform_arrays@[i].unwrap().1.writes_addressable()
    }

    /// Queues one copy out of `staging_buffer` for every noted write, slot table by slot table
    /// and write by write, and empties the lists.
    pub fn copy_staging_buffer_to_final_buffers(
        &mut self,
        command_queue: &mut CommandQueue,
        staging_buffer: RenderResourceId,
    )
        requires
            old(self).writes_addressable(),
        ensures
            final(self).uniform_arrays@.len() == old(self).uniform_arrays@.len(),
            forall|i: int|
                0 <= i < old(self).uniform_arrays@.len() ==> flushed_entry(
                    old(self).uniform_arrays@[i],
                    #[trigger] final(self).uniform_arrays@[i],
                ),
            final(command_queue)@ == old(command_queue)@ + copies(
                old(self).uniform_arrays@,
                staging_buffer,
                old(self).uniform_arrays@.len() as int,
            ),
            old(self).wf() ==> final(self).wf(),
            old(self).slots_kept(final(self)),
    {
        let ghost before = self.uniform_arrays@;
        let mut i: usize = 0;
        assert(command_queue@ =~= old(command_queue)@ + copies(before, staging_buffer, 0));
        while i < self.uniform_arrays.len()
            invariant
                i <= self.uniform_arrays@.len(),
                before == old(self).uniform_arrays@,
                self.uniform_arrays@.len() == before.len(),
                old(self).writes_addressable(),
                forall|j: int|
                    0 <= j < i ==> flushed_entry(before[j], #[trigger] self.uniform_arrays@[j]),
                forall|j: int|
                    i <= j < before.len() ==> #[trigger] self.uniform_arrays@[j] == before[j],
                command_queue@ == old(command_queue)@ + copies(before, staging_buffer, i as int),
            decreases self.uniform_arrays@.len() - i,
        {
            let ghost queued = command_queue@;
            match &mut self.uniform_arrays[i] {
                Some((_name, buffer_array_status)) => {
                    buffer_array_status.queue_copies(command_queue, staging_buffer);
                },
                None => {},
            }
            assert(command_queue@ =~= old(command_queue)@ + copies(
                before,
                staging_buffer,
                i + 1,
            )) by {
                assert(command_queue@ == queued + entry_copies(before[i as int], staging_buffer));
            }
            i += 1;
        }
        proof {
            if old(self).wf() {
                assert forall|j: int|
                    0 <= j < self.uniform_arrays@.len() && (#[trigger] self.uniform_arrays@[j])
                        is Some implies self.uniform_arrays@[j].unwrap().1.wf() by {
                    assert(flushed_entry(before[j], self.uniform_arrays@[j]));
                    let status = before[j].unwrap().1;
                    let after = self.uniform_arrays@[j].unwrap().1;
                    assert(status.wf());
                    assert(status == (BufferArrayStatus {
                        queued_buffer_writes: status.queued_buffer_writes,
                        ..after
                    }));
                    assert(after.indices == status.indices);
                }
            }
        }
    }
}

} // verus!
