//! A whole frame of packing, from the reset of the counters to the queued copies, and the
//! condition under which a frame can be packed.

use vstd::prelude::*;
use crate::assignments::RenderResourceAssignments;
use crate::command_queue::{Command, CommandQueue};
use crate::packing::{
    bind_textures, bytes_at, can_count_through, count_at, count_uniforms, counted_through,
    entry_ready, fields_len, first_field, item_write, item_writes, items_of,
    lemma_counts_monotonic, lemma_slots_through_kept, lemma_untracked_beyond, owners_of,
    ready_to_write, slots_suffice, slots_through, staged_through, values_bound, write_uniforms,
    written_through,
};
use crate::render_resource::{
    aligned_dynamic_uniform_size, BufferInfo, BufferUsage, RenderResourceAssignmentsId,
    RenderResourceId, ResourceInfo, COPY_SRC,
};
use crate::renderer::{RenderResourceContext, RenderResourceTable};
use crate::texture::textures_bound;
use crate::uniform_buffer_arrays::{
    entry_at, entry_changed_size, is_buffer_at, planned_entry, prepared_entry,
    reset_entry, staging_size, table_after_setup, BufferArrayStatus, QueuedBufferWrite,
    UniformArray, UniformBufferArrays,
};
use crate::uniform_buffer_writes::{
    bound_last, copies, copy_command, dynamic_assignment, entry_copies, flushed_entry,
    lemma_dynamic_fields_bound, lemma_fields_bound_to_targets, region_start, BindingState,
};
use crate::uniforms::{RenderResourceField, RenderResources};

verus! {

/// The bytes that the first `l` fields of the first `k` values take together.
pub open spec fn total_bytes(items: Seq<Seq<RenderResourceField>>, k: int, l: int) -> int
    decreases l,
{
    if l <= 0 {
        0
    } else {
        total_bytes(items, k, l - 1) + bytes_at(items, l - 1, k)
    }
}

/// The item size of field `i`: the one of its slot table, or that of the first value that
/// has the field buffer-backed.
pub open spec fn item_size_of(
    entry: UniformArray,
    items: Seq<Seq<RenderResourceField>>,
    i: int,
    k: int,
) -> int {
    match entry {
        Some((_, status)) => status.item_size as int,
        None => first_field(items, i, k).bytes.len() as int,
    }
}

/// The capacity of an entry's buffer; none while the field has no slot table.
pub open spec fn capacity_of(entry: UniformArray) -> int {
    match entry {
        Some((_, status)) => status.current_item_capacity as int,
        None => 0,
    }
}

/// The slot of each owner in an entry; none while the field has no slot table.
pub open spec fn indices_of(entry: UniformArray) -> Map<u64, usize> {
    match entry {
        Some((_, status)) => status.indices@,
        None => Map::empty(),
    }
}

/// The next free slot of an entry.
pub open spec fn next_slot_of(entry: UniformArray) -> int {
    match entry {
        Some((_, status)) => status.current_index as int,
        None => 0,
    }
}

/// The capacity of field `i` after the frame: one and a half times the counted values where
/// those exceed the capacity in dynamic mode, else the capacity as it was.
pub open spec fn capacity_after(
    entry: UniformArray,
    items: Seq<Seq<RenderResourceField>>,
    i: int,
    dynamic_uniforms: bool,
    k: int,
) -> int {
    let counted = count_at(items, i, k);
    if dynamic_uniforms && capacity_of(entry) < counted {
        counted + counted / 2
    } else {
        capacity_of(entry)
    }
}

/// What field `i` needs for the first `k` values can be addressed: the aligned size of a
/// field that is new, and in dynamic mode the size of a buffer that has to grow.
pub open spec fn entry_sizes_fit(
    entry: UniformArray,
    items: Seq<Seq<RenderResourceField>>,
    i: int,
    dynamic_uniforms: bool,
    k: int,
) -> bool {
    let counted = count_at(items, i, k);
    let aligned = aligned_dynamic_uniform_size(item_size_of(entry, items, i, k));
    &&& entry is None && counted > 0 ==> aligned <= usize::MAX
    &&& dynamic_uniforms && capacity_of(entry) < counted ==> counted + counted / 2 <= usize::MAX
        && (counted + counted / 2) * aligned <= usize::MAX
}

/// Each of the first `k` values that has field `i` buffer-backed has it in the field's item
/// size.
pub open spec fn entry_sizes_uniform(
    entry: UniformArray,
    items: Seq<Seq<RenderResourceField>>,
    i: int,
    k: int,
) -> bool {
    forall|j: int|
        #![trigger items[j]]
        0 <= j < k && is_buffer_at(items[j], i) ==> items[j][i].bytes.len() == item_size_of(
            entry,
            items,
            i,
            k,
        )
}

/// Every owner among the first `k` values finds a slot in the buffer of field `i` as it is
/// after growth.
pub open spec fn entry_slots_suffice(
    entry: UniformArray,
    items: Seq<Seq<RenderResourceField>>,
    owners: Seq<RenderResourceAssignmentsId>,
    i: int,
    dynamic_uniforms: bool,
    k: int,
) -> bool {
    slots_suffice(
        indices_of(entry),
        next_slot_of(entry),
        capacity_after(entry, items, i, dynamic_uniforms, k),
        items,
        owners,
        i,
        k,
    )
}

/// The first `k` values can be packed as far as field `i` goes: sizes can be addressed, and
/// in dynamic mode every value has the field's item size and every owner finds a slot.
pub open spec fn entry_can_pack(
    entry: UniformArray,
    items: Seq<Seq<RenderResourceField>>,
    owners: Seq<RenderResourceAssignmentsId>,
    i: int,
    dynamic_uniforms: bool,
    k: int,
) -> bool {
    &&& entry_sizes_fit(entry, items, i, dynamic_uniforms, k)
    &&& dynamic_uniforms ==> entry_sizes_uniform(entry, items, i, k)
    &&& dynamic_uniforms ==> entry_slots_suffice(entry, items, owners, i, dynamic_uniforms, k)
}

/// The first `k` values can be packed: the staging buffer has an addressable size, and so has
/// what each field needs.
pub open spec fn can_pack(
    arrays: Seq<UniformArray>,
    items: Seq<Seq<RenderResourceField>>,
    owners: Seq<RenderResourceAssignmentsId>,
    dynamic_uniforms: bool,
    k: int,
) -> bool {
    &&& total_bytes(items, k, fields_len(arrays.len() as int, items, k)) <= usize::MAX
    &&& forall|i: int|
        0 <= i < fields_len(arrays.len() as int, items, k) ==> #[trigger] entry_can_pack(
            entry_at(arrays, i),
            items,
            owners,
            i,
            dynamic_uniforms,
            k,
        )
}

/// The bytes of a field are part of the bytes of all fields.
pub proof fn lemma_total_bytes_monotonic(
    items: Seq<Seq<RenderResourceField>>,
    k: int,
    i: int,
    l: int,
)
    requires
        0 <= k,
        0 <= i < l,
    ensures
        0 <= total_bytes(items, k, i),
        total_bytes(items, k, i) + bytes_at(items, i, k) <= total_bytes(items, k, l),
    decreases l,
{
    lemma_total_bytes_nonnegative(items, k, i);
    lemma_counts_monotonic(items, l - 1, 0, k);
    if i < l - 1 {
        lemma_total_bytes_monotonic(items, k, i, l - 1);
    }
}

proof fn lemma_total_bytes_nonnegative(items: Seq<Seq<RenderResourceField>>, k: int, l: int)
    requires
        0 <= k,
    ensures
        0 <= total_bytes(items, k, l),
    decreases l,
{
    if l > 0 {
        lemma_total_bytes_nonnegative(items, k, l - 1);
        lemma_counts_monotonic(items, l - 1, 0, k);
    }
}

/// What the entry of field `i` is once the first `k` values were counted in a fresh frame,
/// its buffer grown and its range of the staging buffer set to start at `offset`.
pub open spec fn planned_from(
    before: UniformArray,
    items: Seq<Seq<RenderResourceField>>,
    i: int,
    dynamic_uniforms: bool,
    k: int,
    offset: int,
    planned: UniformArray,
) -> bool {
    if before is None && count_at(items, i, k) == 0 {
        planned is None
    } else {
        &&& planned is Some
        &&& before is Some ==> planned.unwrap().0 == before.unwrap().0
        &&& before is None ==> planned.unwrap().0@ == first_field(items, i, k).name
        &&& {
            let status = planned.unwrap().1;
            &&& status.changed_item_count == count_at(items, i, k)
            &&& status.changed_size == bytes_at(items, i, k)
            &&& status.current_offset == 0
            &&& status.staging_buffer_offset == offset
            &&& status.item_size == item_size_of(before, items, i, k)
            &&& status.current_item_capacity == capacity_after(
                before,
                items,
                i,
                dynamic_uniforms,
                k,
            )
            &&& status.indices@ == indices_of(before)
            &&& status.current_index == next_slot_of(before)
            &&& status.queued_buffer_writes@ == Seq::<QueuedBufferWrite>::empty()
            &&& before is Some ==> status.current_item_count
                == before.unwrap().1.current_item_count
            &&& before is None ==> status.current_item_count == 0
            &&& capacity_of(before) == status.current_item_capacity ==> status.buffer == (
            match before {
                Some((_, earlier)) => earlier.buffer,
                None => None,
            })
        }
    }
}

proof fn lemma_planned_from(
    before: UniformArray,
    cleared: UniformArray,
    counted: UniformArray,
    prepared: UniformArray,
    planned: UniformArray,
    table: RenderResourceTable,
    table_after: RenderResourceTable,
    items: Seq<Seq<RenderResourceField>>,
    i: int,
    dynamic_uniforms: bool,
    k: int,
    offset: usize,
)
    requires
        0 <= k,
        cleared == reset_entry(before),
        can_count_through(cleared, items, i, k),
        counted_through(cleared, items, i, k, counted),
        dynamic_uniforms && counted is Some ==> counted.unwrap().1.can_grow(),
        prepared_entry(counted, dynamic_uniforms, table, prepared, table_after),
        planned == planned_entry(prepared, offset),
    ensures
        planned_from(before, items, i, dynamic_uniforms, k, offset as int, planned),
        entry_changed_size(counted) == bytes_at(items, i, k),
        entry_changed_size(prepared) == bytes_at(items, i, k),
{
    lemma_counts_monotonic(items, i, 0, k);
    if counted is Some {
        let grown = BufferArrayStatus {
            queued_buffer_writes: counted.unwrap().1.queued_buffer_writes,
            ..prepared.unwrap().1
        };
        assert(grown.changed_size == counted.unwrap().1.changed_size);
        assert(grown.indices == counted.unwrap().1.indices);
    }
}

/// The staging needs of slot tables whose changed bytes are those of the counted values.
proof fn lemma_staging_total(
    arrays: Seq<UniformArray>,
    items: Seq<Seq<RenderResourceField>>,
    k: int,
    l: int,
)
    requires
        l <= arrays.len(),
        forall|i: int|
            0 <= i < l ==> entry_changed_size(#[trigger] arrays[i]) == bytes_at(items, i, k),
    ensures
        staging_size(arrays, l) == total_bytes(items, k, l),
    decreases l,
{
    if l > 0 {
        lemma_staging_total(arrays, items, k, l - 1);
        assert(entry_changed_size(arrays[l - 1]) == bytes_at(items, l - 1, k));
    }
}

/// The greatest number of fields is no smaller than the number that was there before.
proof fn lemma_fields_len(len: int, items: Seq<Seq<RenderResourceField>>, k: int)
    ensures
        len <= fields_len(len, items, k),
    decreases k,
{
    if k > 0 {
        lemma_fields_len(len, items, k - 1);
    }
}

/// Each position below the count of a field belongs to one value that has the field
/// buffer-backed: the one before which that many were counted.
proof fn lemma_count_index(items: Seq<Seq<RenderResourceField>>, i: int, k: int, p: int) -> (j:
    int)
    requires
        0 <= p < count_at(items, i, k),
    ensures
        0 <= j < k,
        is_buffer_at(items[j], i),
        count_at(items, i, j) == p,
    decreases k,
{
    if k <= 0 {
        0
    } else if is_buffer_at(items[k - 1], i) && count_at(items, i, k - 1) == p {
        k - 1
    } else {
        lemma_count_index(items, i, k - 1, p)
    }
}

/// The slot tables were cleared, the first `k` values counted, and the buffers grown, each
/// pass within what the machine can address.
spec fn frame_chain(
    before: Seq<UniformArray>,
    cleared: Seq<UniformArray>,
    counted: Seq<UniformArray>,
    prepared: Seq<UniformArray>,
    table: RenderResourceTable,
    items: Seq<Seq<RenderResourceField>>,
    dynamic_uniforms: bool,
    k: int,
) -> bool {
    let len = fields_len(before.len() as int, items, k);
    &&& cleared.len() == before.len()
    &&& counted.len() == len
    &&& prepared.len() == len
    &&& forall|i: int| 0 <= i < before.len() ==> #[trigger] cleared[i] == reset_entry(before[i])
    &&& forall|i: int|
        0 <= i ==> #[trigger] can_count_through(entry_at(cleared, i), items, i, k)
    &&& forall|i: int|
        0 <= i < len ==> counted_through(entry_at(cleared, i), items, i, k, #[trigger] counted[i])
    &&& dynamic_uniforms ==> forall|i: int|
        0 <= i < len && (#[trigger] counted[i]) is Some ==> counted[i].unwrap().1.can_grow()
    &&& forall|i: int|
        0 <= i < len ==> prepared_entry(
            counted[i],
            dynamic_uniforms,
            table_after_setup(table, counted, prepared, dynamic_uniforms, i),
            #[trigger] prepared[i],
            table_after_setup(table, counted, prepared, dynamic_uniforms, i + 1),
        )
}

proof fn lemma_frame_entry(
    before: Seq<UniformArray>,
    cleared: Seq<UniformArray>,
    counted: Seq<UniformArray>,
    prepared: Seq<UniformArray>,
    table: RenderResourceTable,
    items: Seq<Seq<RenderResourceField>>,
    i: int,
    dynamic_uniforms: bool,
    k: int,
    offset: usize,
)
    requires
        0 <= k,
        0 <= i < fields_len(before.len() as int, items, k),
        frame_chain(before, cleared, counted, prepared, table, items, dynamic_uniforms, k),
    ensures
        planned_from(
            entry_at(before, i),
            items,
            i,
            dynamic_uniforms,
            k,
            offset as int,
            planned_entry(prepared[i], offset),
        ),
        entry_changed_size(prepared[i]) == bytes_at(items, i, k),
{
    assert(can_count_through(entry_at(cleared, i), items, i, k));
    assert(counted_through(entry_at(cleared, i), items, i, k, counted[i]));
    assert(prepared_entry(
        counted[i],
        dynamic_uniforms,
        table_after_setup(table, counted, prepared, dynamic_uniforms, i),
        prepared[i],
        table_after_setup(table, counted, prepared, dynamic_uniforms, i + 1),
    ));
    if i < before.len() {
        assert(cleared[i] == reset_entry(before[i]));
    }
    lemma_planned_from(
        entry_at(before, i),
        entry_at(cleared, i),
        counted[i],
        prepared[i],
        planned_entry(prepared[i], offset),
        table_after_setup(table, counted, prepared, dynamic_uniforms, i),
        table_after_setup(table, counted, prepared, dynamic_uniforms, i + 1),
        items,
        i,
        dynamic_uniforms,
        k,
        offset,
    );
}

proof fn lemma_writes_addressable(
    before: UniformArray,
    planned: UniformArray,
    written: UniformArray,
    items: Seq<Seq<RenderResourceField>>,
    owners: Seq<RenderResourceAssignmentsId>,
    i: int,
    dynamic_uniforms: bool,
    k: int,
    offset: int,
)
    requires
        0 <= k,
        planned_from(before, items, i, dynamic_uniforms, k, offset, planned),
        written_through(planned, items, owners, i, dynamic_uniforms, k, written),
        offset + bytes_at(items, i, k) <= usize::MAX,
    ensures
        written is Some ==> written.unwrap().1.writes_addressable(),
{
    if written is Some {
        let status = written.unwrap().1;
        assert forall|p: int| 0 <= p < status.queued_buffer_writes@.len() implies
            status.staging_buffer_offset + (#[trigger] status.queued_buffer_writes@[p]).source_offset
            <= usize::MAX by {
            let j = lemma_count_index(items, i, k, p);
            lemma_counts_monotonic(items, i, j, k);
            assert(item_write(
                planned.unwrap().1,
                items,
                owners,
                i,
                dynamic_uniforms,
                j,
                status.queued_buffer_writes@[p],
            ));
        }
    }
}

/// The states that a frame passes through between its passes.
pub struct PackPasses {
    /// The slot tables with the counters cleared.
    pub cleared: Seq<UniformArray>,
    /// The slot tables after the values were counted.
    pub counted: Seq<UniformArray>,
    /// The slot tables after the buffers were grown.
    pub prepared: Seq<UniformArray>,
    /// The slot tables after the staging buffer was laid out.
    pub planned: Seq<UniformArray>,
    /// The slot tables after the values were written.
    pub written: Seq<UniformArray>,
    /// The owners' tables after the textures were bound.
    pub textured: Seq<RenderResourceAssignments>,
    /// The backend before the first value was written, between the values, and after the last.
    pub tables: Seq<RenderResourceTable>,
    /// The bytes of the staging buffer.
    pub staging: Seq<u8>,
    /// The staging buffer, where the frame needs one.
    pub staging_buffer: RenderResourceId,
}

/// The slot tables, the backend, the command queue and the owners' tables are, after the
/// frame, what the passes over the first `k` values make of them.
///
/// The counters are cleared and the values counted. In dynamic mode every buffer with fewer
/// slots than counted values grows. Each field gets its range of the staging buffer, whose
/// size is the sum of the counted bytes. Textures are bound, then every buffer-backed field
/// is bound, staged and noted. Unless the staging size is 0, a staging buffer with the staged
/// bytes is created, one copy per noted write is queued, and then the release of the staging
/// buffer. With a staging size of 0 nothing is created or queued.
pub open spec fn packed(
    arrays: Seq<UniformArray>,
    table: RenderResourceTable,
    queue: Seq<Command>,
    assignments: Seq<RenderResourceAssignments>,
    items: Seq<Seq<RenderResourceField>>,
    dynamic_uniforms: bool,
    k: int,
    passes: PackPasses,
    arrays_after: Seq<UniformArray>,
    table_after: RenderResourceTable,
    queue_after: Seq<Command>,
    assignments_after: Seq<RenderResourceAssignments>,
) -> bool {
    let len = fields_len(arrays.len() as int, items, k);
    let owners = owners_of(assignments);
    let size = total_bytes(items, k, len);
    let grown = table_after_setup(table, passes.counted, passes.prepared, dynamic_uniforms, len);
    &&& passes.cleared.len() == arrays.len()
    &&& passes.counted.len() == len
    &&& passes.prepared.len() == len
    &&& passes.planned.len() == len
    &&& passes.written.len() == len
    &&& arrays_after.len() == len
    &&& passes.textured.len() == assignments.len()
    &&& assignments_after.len() == assignments.len()
    &&& passes.staging.len() == size
    &&& forall|i: int|
        0 <= i < arrays.len() ==> #[trigger] passes.cleared[i] == reset_entry(arrays[i])
    &&& forall|i: int|
        0 <= i < len ==> counted_through(
            entry_at(passes.cleared, i),
            items,
            i,
            k,
            #[trigger] passes.counted[i],
        )
    &&& forall|i: int|
        0 <= i < len ==> prepared_entry(
            passes.counted[i],
            dynamic_uniforms,
            table_after_setup(table, passes.counted, passes.prepared, dynamic_uniforms, i),
            #[trigger] passes.prepared[i],
            table_after_setup(table, passes.counted, passes.prepared, dynamic_uniforms, i + 1),
        )
    &&& forall|i: int|
        0 <= i < len ==> #[trigger] passes.planned[i] == planned_entry(
            passes.prepared[i],
            total_bytes(items, k, i) as usize,
        )
    &&& forall|j: int|
        0 <= j < k ==> (#[trigger] passes.textured[j])@ == textures_bound(
            grown,
            items[j],
            assignments[j]@,
            items[j].len() as int,
        )
    &&& forall|i: int|
        0 <= i < len ==> written_through(
            passes.planned[i],
            items,
            owners,
            i,
            dynamic_uniforms,
            k,
            #[trigger] passes.written[i],
        )
    &&& staged_through(passes.staging, passes.planned, items, k)
    &&& values_bound(
        passes.tables,
        passes.textured,
        items,
        dynamic_uniforms,
        passes.planned,
        passes.written,
        k,
        assignments_after,
    )
    &&& passes.tables[0] == grown
    &&& forall|j: int|
        k <= j < assignments.len() ==> #[trigger] assignments_after[j] == assignments[j]
    &&& if size == 0 {
        &&& arrays_after == passes.written
        &&& table_after == passes.tables[k]
        &&& queue_after == queue
    } else {
        &&& forall|i: int|
            0 <= i < len ==> flushed_entry(passes.written[i], #[trigger] arrays_after[i])
        &&& !passes.tables[k].resources.contains_key(passes.staging_buffer)
        &&& table_after == passes.tables[k].with_mapped_buffer(
            passes.staging_buffer,
            BufferInfo { size: size as usize, buffer_usage: BufferUsage { bits: COPY_SRC } },
            passes.staging,
        )
        &&& queue_after == (queue + copies(passes.written, passes.staging_buffer, len)).push(
            Command::FreeBuffer(passes.staging_buffer),
        )
    }
}

proof fn lemma_can_count(
    before: Seq<UniformArray>,
    cleared: Seq<UniformArray>,
    items: Seq<Seq<RenderResourceField>>,
    owners: Seq<RenderResourceAssignmentsId>,
    dynamic_uniforms: bool,
    k: int,
)
    requires
        0 <= k <= usize::MAX,
        can_pack(before, items, owners, dynamic_uniforms, k),
        cleared.len() == before.len(),
        forall|i: int| 0 <= i < before.len() ==> #[trigger] cleared[i] == reset_entry(before[i]),
    ensures
        forall|i: int|
            0 <= i ==> #[trigger] can_count_through(entry_at(cleared, i), items, i, k),
{
    let len = fields_len(before.len() as int, items, k);
    lemma_fields_len(before.len() as int, items, k);
    assert forall|i: int| 0 <= i implies #[trigger] can_count_through(
        entry_at(cleared, i),
        items,
        i,
        k,
    ) by {
        lemma_counts_monotonic(items, i, 0, k);
        if i < len {
            lemma_total_bytes_monotonic(items, k, i, len);
            assert(entry_can_pack(entry_at(before, i), items, owners, i, dynamic_uniforms, k));
            if i < before.len() {
                assert(cleared[i] == reset_entry(before[i]));
            }
        } else {
            lemma_untracked_beyond(before.len() as int, items, i, k);
        }
    }
}

proof fn lemma_can_grow(
    before: Seq<UniformArray>,
    cleared: Seq<UniformArray>,
    counted: Seq<UniformArray>,
    items: Seq<Seq<RenderResourceField>>,
    owners: Seq<RenderResourceAssignmentsId>,
    dynamic_uniforms: bool,
    k: int,
)
    requires
        0 <= k <= usize::MAX,
        can_pack(before, items, owners, dynamic_uniforms, k),
        cleared.len() == before.len(),
        counted.len() == fields_len(before.len() as int, items, k),
        forall|i: int| 0 <= i < before.len() ==> #[trigger] cleared[i] == reset_entry(before[i]),
        forall|i: int|
            0 <= i < before.len() && (#[trigger] before[i]) is Some ==> before[i].unwrap().1.wf(),
        forall|i: int|
            0 <= i < counted.len() ==> counted_through(
                entry_at(cleared, i),
                items,
                i,
                k,
                #[trigger] counted[i],
            ),
    ensures
        dynamic_uniforms ==> forall|i: int|
            0 <= i < counted.len() && (#[trigger] counted[i]) is Some
                ==> counted[i].unwrap().1.can_grow(),
{
    if dynamic_uniforms {
        assert forall|i: int| 0 <= i < counted.len() && (#[trigger] counted[i]) is Some
            implies counted[i].unwrap().1.can_grow() by {
            lemma_counts_monotonic(items, i, 0, k);
            assert(counted_through(entry_at(cleared, i), items, i, k, counted[i]));
            assert(entry_can_pack(entry_at(before, i), items, owners, i, dynamic_uniforms, k));
            if i < before.len() {
                assert(cleared[i] == reset_entry(before[i]));
                if before[i] is Some {
                    assert(before[i].unwrap().1.wf());
                }
            }
        }
    }
}

/// The slot tables are laid out for the staging buffer: each range starts where the bytes of
/// the fields before end.
spec fn frame_planned(
    prepared: Seq<UniformArray>,
    planned: Seq<UniformArray>,
) -> bool {
    &&& planned.len() == prepared.len()
    &&& forall|i: int|
        0 <= i < prepared.len() ==> #[trigger] planned[i] == planned_entry(
            prepared[i],
            staging_size(prepared, i) as usize,
        )
}

proof fn lemma_ready(
    before: Seq<UniformArray>,
    cleared: Seq<UniformArray>,
    counted: Seq<UniformArray>,
    prepared: Seq<UniformArray>,
    planned: Seq<UniformArray>,
    table: RenderResourceTable,
    items: Seq<Seq<RenderResourceField>>,
    owners: Seq<RenderResourceAssignmentsId>,
    dynamic_uniforms: bool,
    k: int,
)
    requires
        0 <= k <= usize::MAX,
        can_pack(before, items, owners, dynamic_uniforms, k),
        frame_chain(before, cleared, counted, prepared, table, items, dynamic_uniforms, k),
        frame_planned(prepared, planned),
    ensures
        forall|i: int|
            0 <= i <= prepared.len() ==> #[trigger] staging_size(prepared, i) == total_bytes(
                items,
                k,
                i,
            ),
        forall|i: int|
            0 <= i < prepared.len() ==> planned_from(
                entry_at(before, i),
                items,
                i,
                dynamic_uniforms,
                k,
                total_bytes(items, k, i),
                #[trigger] planned[i],
            ),
        ready_to_write(
            planned,
            items,
            owners,
            dynamic_uniforms,
            k,
            total_bytes(items, k, prepared.len() as int) as nat,
        ),
{
    let len = fields_len(before.len() as int, items, k);
    assert forall|i: int| 0 <= i < len implies entry_changed_size(#[trigger] prepared[i])
        == bytes_at(items, i, k) by {
        lemma_frame_entry(before, cleared, counted, prepared, table, items, i, dynamic_uniforms, k,
            0);
    }
    assert forall|i: int| 0 <= i <= len implies #[trigger] staging_size(prepared, i)
        == total_bytes(items, k, i) by {
        lemma_staging_total(prepared, items, k, i);
    }
    lemma_total_bytes_nonnegative(items, k, len);
    assert forall|i: int| 0 <= i < len implies planned_from(
        entry_at(before, i),
        items,
        i,
        dynamic_uniforms,
        k,
        total_bytes(items, k, i),
        #[trigger] planned[i],
    ) by {
        lemma_total_bytes_monotonic(items, k, i, len);
        lemma_counts_monotonic(items, i, 0, k);
        assert(staging_size(prepared, i) == total_bytes(items, k, i));
        lemma_frame_entry(
            before,
            cleared,
            counted,
            prepared,
            table,
            items,
            i,
            dynamic_uniforms,
            k,
            staging_size(prepared, i) as usize,
        );
    }
    assert forall|i: int| 0 <= i implies #[trigger] entry_ready(
        entry_at(planned, i),
        items,
        owners,
        i,
        dynamic_uniforms,
        k,
        total_bytes(items, k, len) as nat,
    ) by {
        lemma_counts_monotonic(items, i, 0, k);
        if i < len {
            lemma_total_bytes_monotonic(items, k, i, len);
            assert(planned_from(
                entry_at(before, i),
                items,
                i,
                dynamic_uniforms,
                k,
                total_bytes(items, k, i),
                planned[i],
            ));
            assert(entry_can_pack(entry_at(before, i), items, owners, i, dynamic_uniforms, k));
        } else {
            lemma_untracked_beyond(before.len() as int, items, i, k);
        }
    }
    assert forall|a: int, b: int|
        #![trigger planned[a], planned[b]]
        0 <= a < b < len && count_at(items, a, k) > 0 && count_at(items, b, k) > 0
        implies region_start(planned, a) + bytes_at(items, a, k) <= region_start(planned, b) by {
        lemma_total_bytes_monotonic(items, k, a, b);
        assert(planned_from(
            entry_at(before, a),
            items,
            a,
            dynamic_uniforms,
            k,
            total_bytes(items, k, a),
            planned[a],
        ));
        assert(planned_from(
            entry_at(before, b),
            items,
            b,
            dynamic_uniforms,
            k,
            total_bytes(items, k, b),
            planned[b],
        ));
    }
}

proof fn lemma_all_addressable(
    before: Seq<UniformArray>,
    planned: Seq<UniformArray>,
    written: Seq<UniformArray>,
    items: Seq<Seq<RenderResourceField>>,
    owners: Seq<RenderResourceAssignmentsId>,
    dynamic_uniforms: bool,
    k: int,
)
    requires
        0 <= k,
        written.len() == planned.len(),
        total_bytes(items, k, planned.len() as int) <= usize::MAX,
        forall|i: int|
            0 <= i < planned.len() ==> planned_from(
                entry_at(before, i),
                items,
                i,
                dynamic_uniforms,
                k,
                total_bytes(items, k, i),
                #[trigger] planned[i],
            ),
        forall|i: int|
            0 <= i < planned.len() ==> written_through(
                planned[i],
                items,
                owners,
                i,
                dynamic_uniforms,
                k,
                #[trigger] written[i],
            ),
    ensures
        forall|i: int|
            0 <= i < written.len() && (#[trigger] written[i]) is Some
                ==> written[i].unwrap().1.writes_addressable(),
{
    assert forall|i: int| 0 <= i < written.len() && (#[trigger] written[i]) is Some
        implies written[i].unwrap().1.writes_addressable() by {
        lemma_total_bytes_monotonic(items, k, i, planned.len() as int);
        assert(planned_from(
            entry_at(before, i),
            items,
            i,
            dynamic_uniforms,
            k,
            total_bytes(items, k, i),
            planned[i],
        ));
        lemma_writes_addressable(
            entry_at(before, i),
            planned[i],
            written[i],
            items,
            owners,
            i,
            dynamic_uniforms,
            k,
            total_bytes(items, k, i),
        );
    }
}

/// Packs the first `count` values of `uniforms`, each for the owner of the binding table at
/// its position in `assignments`.
pub fn pack_uniforms<T: RenderResources, C: RenderResourceContext>(
    uniform_buffer_arrays: &mut UniformBufferArrays<T>,
    command_queue: &mut CommandQueue,
    dynamic_uniforms: bool,
    render_resources: &mut C,
    uniforms: &Vec<&T>,
    assignments: &mut Vec<RenderResourceAssignments>,
    count: usize,
)
    requires
        old(uniform_buffer_arrays).wf(),
        count <= uniforms@.len(),
        uniforms@.len() == old(assignments)@.len(),
        forall|k: int| 0 <= k < count ==> (#[trigger] old(assignments)@[k]).wf(),
        can_pack(
            old(uniform_buffer_arrays).uniform_arrays@,
            items_of(uniforms@),
            owners_of(old(assignments)@),
            dynamic_uniforms,
            count as int,
        ),
    ensures
        final(uniform_buffer_arrays).wf(),
        old(uniform_buffer_arrays).slots_kept(final(uniform_buffer_arrays)),
        forall|k: int|
            0 <= k < count ==> (#[trigger] final(assignments)@[k]).wf() && final(assignments)@[k].id
                == old(assignments)@[k].id,
        exists|passes: PackPasses| #[trigger]
            packed(
                old(uniform_buffer_arrays).uniform_arrays@,
                old(render_resources).table(),
                old(command_queue)@,
                old(assignments)@,
                items_of(uniforms@),
                dynamic_uniforms,
                count as int,
                passes,
                final(uniform_buffer_arrays).uniform_arrays@,
                final(render_resources).table(),
                final(command_queue)@,
                final(assignments)@,
            ),
{
    let ghost items = items_of(uniforms@);
    let ghost owners = owners_of(assignments@);
    let ghost before = *uniform_buffer_arrays;
    let ghost len = fields_len(before.uniform_arrays@.len() as int, items, count as int);
    let ghost table = render_resources.table();

    uniform_buffer_arrays.reset_changed_item_counts();
    let ghost cleared = *uniform_buffer_arrays;
    proof {
        lemma_can_count(
            before.uniform_arrays@,
            cleared.uniform_arrays@,
            items,
            owners,
            dynamic_uniforms,
            count as int,
        );
    }
    count_uniforms(uniform_buffer_arrays, uniforms, count);
    let ghost counted = *uniform_buffer_arrays;
    proof {
        lemma_can_grow(
            before.uniform_arrays@,
            cleared.uniform_arrays@,
            counted.uniform_arrays@,
            items,
            owners,
            dynamic_uniforms,
            count as int,
        );
    }
    uniform_buffer_arrays.setup_buffer_arrays(render_resources, dynamic_uniforms);
    let ghost prepared = *uniform_buffer_arrays;
    let ghost grown = render_resources.table();
    proof {
        assert(frame_chain(
            before.uniform_arrays@,
            cleared.uniform_arrays@,
            counted.uniform_arrays@,
            prepared.uniform_arrays@,
            table,
            items,
            dynamic_uniforms,
            count as int,
        ));
        lemma_staging_fits(
            before.uniform_arrays@,
            cleared.uniform_arrays@,
            counted.uniform_arrays@,
            prepared.uniform_arrays@,
            table,
            items,
            owners,
            dynamic_uniforms,
            count as int,
        );
    }
    let staging_buffer_size = uniform_buffer_arrays.update_staging_buffer_offsets();
    let ghost planned = *uniform_buffer_arrays;
    proof {
        assert(frame_planned(prepared.uniform_arrays@, planned.uniform_arrays@));
        lemma_ready(
            before.uniform_arrays@,
            cleared.uniform_arrays@,
            counted.uniform_arrays@,
            prepared.uniform_arrays@,
            planned.uniform_arrays@,
            table,
            items,
            owners,
            dynamic_uniforms,
            count as int,
        );
        assert(staging_size(prepared.uniform_arrays@, len) == total_bytes(items, count as int,
            len));
    }
    bind_textures(uniforms, &*render_resources, assignments, count);
    let ghost textured = assignments@;
    assert(owners_of(textured) =~= owners);
    let mut staging: Vec<u8> = vec![0u8; staging_buffer_size];
    write_uniforms(
        uniform_buffer_arrays,
        uniforms,
        dynamic_uniforms,
        render_resources,
        assignments,
        staging.as_mut_slice(),
        count,
    );
    let ghost written = *uniform_buffer_arrays;
    let ghost tables = choose|tables: Seq<RenderResourceTable>|
        {
            &&& #[trigger] values_bound(
                tables,
                textured,
                items,
                dynamic_uniforms,
                planned.uniform_arrays@,
                written.uniform_arrays@,
                count as int,
                assignments@,
            )
            &&& tables[0] == grown
            &&& tables[count as int] == render_resources.table()
        };
    let ghost mut staging_id = RenderResourceId(0);
    if staging_buffer_size != 0 {
        let staging_buffer = render_resources.create_buffer_mapped(
            BufferInfo { size: staging_buffer_size, buffer_usage: BufferUsage { bits: COPY_SRC } },
            staging.as_slice(),
        );
        proof {
            staging_id = staging_buffer;
            lemma_all_addressable(
                before.uniform_arrays@,
                planned.uniform_arrays@,
                written.uniform_arrays@,
                items,
                owners,
                dynamic_uniforms,
                count as int,
            );
        }
        uniform_buffer_arrays.copy_staging_buffer_to_final_buffers(command_queue, staging_buffer);
        command_queue.free_buffer(staging_buffer);
    }
    proof {
        let passes = PackPasses {
            cleared: cleared.uniform_arrays@,
            counted: counted.uniform_arrays@,
            prepared: prepared.uniform_arrays@,
            planned: planned.uniform_arrays@,
            written: written.uniform_arrays@,
            textured,
            tables,
            staging: staging@,
            staging_buffer: staging_id,
        };
        before.lemma_slots_kept_transitive(&cleared, &counted);
        before.lemma_slots_kept_transitive(&counted, &prepared);
        before.lemma_slots_kept_transitive(&prepared, &planned);
        before.lemma_slots_kept_transitive(&planned, &written);
        before.lemma_slots_kept_transitive(&written, uniform_buffer_arrays);
        assert(packed(
            before.uniform_arrays@,
            table,
            old(command_queue)@,
            old(assignments)@,
            items,
            dynamic_uniforms,
            count as int,
            passes,
            uniform_buffer_arrays.uniform_arrays@,
            render_resources.table(),
            command_queue@,
            assignments@,
        ));
    }
}

proof fn lemma_staging_fits(
    before: Seq<UniformArray>,
    cleared: Seq<UniformArray>,
    counted: Seq<UniformArray>,
    prepared: Seq<UniformArray>,
    table: RenderResourceTable,
    items: Seq<Seq<RenderResourceField>>,
    owners: Seq<RenderResourceAssignmentsId>,
    dynamic_uniforms: bool,
    k: int,
)
    requires
        0 <= k <= usize::MAX,
        can_pack(before, items, owners, dynamic_uniforms, k),
        frame_chain(before, cleared, counted, prepared, table, items, dynamic_uniforms, k),
    ensures
        staging_size(prepared, prepared.len() as int) <= usize::MAX,
{
    let len = fields_len(before.len() as int, items, k);
    assert forall|i: int| 0 <= i < len implies entry_changed_size(#[trigger] prepared[i])
        == bytes_at(items, i, k) by {
        lemma_frame_entry(before, cleared, counted, prepared, table, items, i, dynamic_uniforms, k,
            0);
    }
    lemma_staging_total(prepared, items, k, len);
}

/// How many buffer-backed fields the first `k` values have among their first `l` fields.
pub open spec fn total_count(items: Seq<Seq<RenderResourceField>>, k: int, l: int) -> int
    decreases l,
{
    if l <= 0 {
        0
    } else {
        total_count(items, k, l - 1) + count_at(items, l - 1, k)
    }
}

proof fn lemma_copies_len(
    planned: Seq<UniformArray>,
    written: Seq<UniformArray>,
    items: Seq<Seq<RenderResourceField>>,
    owners: Seq<RenderResourceAssignmentsId>,
    dynamic_uniforms: bool,
    k: int,
    staging_buffer: RenderResourceId,
    l: int,
)
    requires
        0 <= k,
        0 <= l <= planned.len(),
        written.len() == planned.len(),
        forall|i: int|
            0 <= i < planned.len() && (#[trigger] planned[i]) is Some
                ==> planned[i].unwrap().1.queued_buffer_writes@.len() == 0,
        forall|i: int|
            0 <= i < planned.len() && (#[trigger] planned[i]) is None ==> count_at(items, i, k)
                == 0,
        forall|i: int|
            0 <= i < planned.len() ==> written_through(
                planned[i],
                items,
                owners,
                i,
                dynamic_uniforms,
                k,
                #[trigger] written[i],
            ),
    ensures
        copies(written, staging_buffer, l).len() == total_count(items, k, l),
    decreases l,
{
    if l > 0 {
        lemma_copies_len(planned, written, items, owners, dynamic_uniforms, k, staging_buffer,
            l - 1);
        assert(written_through(
            planned[l - 1],
            items,
            owners,
            l - 1,
            dynamic_uniforms,
            k,
            written[l - 1],
        ));
        lemma_counts_monotonic(items, l - 1, 0, k);
    }
}

/// What a packed frame comes to, in terms of the values alone.
///
/// The staging buffer has the size of the changed bytes that the counting pass summed up,
/// which is the byte length of all buffer-backed fields of the values. With a size of 0 no
/// staging buffer is created and nothing is queued. Otherwise the backend holds the staging
/// buffer with the staged bytes, and the queue has grown by one copy for each buffer-backed
/// field of each value, however many objects refer to it, and by the release of the staging
/// buffer. Before the writes, each slot table is as the counted values determine it.
pub proof fn lemma_packed_summary(
    arrays: Seq<UniformArray>,
    table: RenderResourceTable,
    queue: Seq<Command>,
    assignments: Seq<RenderResourceAssignments>,
    items: Seq<Seq<RenderResourceField>>,
    dynamic_uniforms: bool,
    k: int,
    passes: PackPasses,
    arrays_after: Seq<UniformArray>,
    table_after: RenderResourceTable,
    queue_after: Seq<Command>,
    assignments_after: Seq<RenderResourceAssignments>,
)
    requires
        0 <= k <= usize::MAX,
        forall|i: int|
            0 <= i < arrays.len() && (#[trigger] arrays[i]) is Some ==> arrays[i].unwrap().1.wf(),
        can_pack(arrays, items, owners_of(assignments), dynamic_uniforms, k),
        packed(
            arrays,
            table,
            queue,
            assignments,
            items,
            dynamic_uniforms,
            k,
            passes,
            arrays_after,
            table_after,
            queue_after,
            assignments_after,
        ),
    ensures
        ({
            let len = fields_len(arrays.len() as int, items, k);
            let size = total_bytes(items, k, len);
            &&& staging_size(passes.counted, len) == size
            &&& passes.staging.len() == size
            &&& size == 0 ==> queue_after == queue && table_after == passes.tables[k]
            &&& size != 0 ==> {
                &&& table_after.resource_info(passes.staging_buffer) == Some(
                    ResourceInfo::Buffer(
                        Some(
                            BufferInfo {
                                size: size as usize,
                                buffer_usage: BufferUsage { bits: COPY_SRC },
                            },
                        ),
                    ),
                )
                &&& table_after.buffer_data[passes.staging_buffer] == passes.staging
                &&& queue_after.len() == queue.len() + total_count(items, k, len) + 1
                &&& queue_after.last() == Command::FreeBuffer(passes.staging_buffer)
            }
            &&& forall|i: int|
                0 <= i < len ==> planned_from(
                    entry_at(arrays, i),
                    items,
                    i,
                    dynamic_uniforms,
                    k,
                    total_bytes(items, k, i),
                    #[trigger] passes.planned[i],
                )
        }),
{
    let len = fields_len(arrays.len() as int, items, k);
    let owners = owners_of(assignments);
    lemma_can_count(arrays, passes.cleared, items, owners, dynamic_uniforms, k);
    lemma_can_grow(arrays, passes.cleared, passes.counted, items, owners, dynamic_uniforms, k);
    assert(frame_chain(
        arrays,
        passes.cleared,
        passes.counted,
        passes.prepared,
        table,
        items,
        dynamic_uniforms,
        k,
    ));
    lemma_staging_fits(
        arrays,
        passes.cleared,
        passes.counted,
        passes.prepared,
        table,
        items,
        owners,
        dynamic_uniforms,
        k,
    );
    assert forall|i: int| 0 <= i < len implies entry_changed_size(#[trigger] passes.counted[i])
        == bytes_at(items, i, k) by {
        lemma_frame_entry(
            arrays,
            passes.cleared,
            passes.counted,
            passes.prepared,
            table,
            items,
            i,
            dynamic_uniforms,
            k,
            0,
        );
    }
    lemma_staging_total(passes.counted, items, k, len);
    assert forall|i: int| 0 <= i < len implies entry_changed_size(#[trigger] passes.prepared[i])
        == bytes_at(items, i, k) by {
        lemma_frame_entry(
            arrays,
            passes.cleared,
            passes.counted,
            passes.prepared,
            table,
            items,
            i,
            dynamic_uniforms,
            k,
            0,
        );
    }
    assert(frame_planned(passes.prepared, passes.planned)) by {
        assert forall|i: int| 0 <= i < len implies #[trigger] passes.planned[i] == planned_entry(
            passes.prepared[i],
            staging_size(passes.prepared, i) as usize,
        ) by {
            lemma_staging_total(passes.prepared, items, k, i);
        }
    }
    lemma_ready(
        arrays,
        passes.cleared,
        passes.counted,
        passes.prepared,
        passes.planned,
        table,
        items,
        owners,
        dynamic_uniforms,
        k,
    );
    assert forall|i: int| 0 <= i < len && (#[trigger] passes.planned[i]) is None implies count_at(
        items,
        i,
        k,
    ) == 0 by {
        assert(planned_from(
            entry_at(arrays, i),
            items,
            i,
            dynamic_uniforms,
            k,
            total_bytes(items, k, i),
            passes.planned[i],
        ));
    }
    assert forall|i: int| 0 <= i < len && (#[trigger] passes.planned[i]) is Some
        implies passes.planned[i].unwrap().1.queued_buffer_writes@.len() == 0 by {
        assert(planned_from(
            entry_at(arrays, i),
            items,
            i,
            dynamic_uniforms,
            k,
            total_bytes(items, k, i),
            passes.planned[i],
        ));
    }
    lemma_copies_len(
        passes.planned,
        passes.written,
        items,
        owners,
        dynamic_uniforms,
        k,
        passes.staging_buffer,
        len,
    );
}

/// What the slot table of field `i` is after a frame that packed the first `k` values, for
/// a field that at least one value has buffer-backed.
pub open spec fn packed_status(
    before: UniformArray,
    items: Seq<Seq<RenderResourceField>>,
    owners: Seq<RenderResourceAssignmentsId>,
    i: int,
    dynamic_uniforms: bool,
    k: int,
    offset: int,
    status: BufferArrayStatus,
) -> bool {
    let slots = slots_through(indices_of(before), next_slot_of(before), items, owners, i, k);
    &&& status.changed_item_count == count_at(items, i, k)
    &&& status.changed_size == bytes_at(items, i, k)
    &&& status.current_offset == bytes_at(items, i, k)
    &&& status.staging_buffer_offset == offset
    &&& status.item_size == item_size_of(before, items, i, k)
    &&& status.aligned_size == aligned_dynamic_uniform_size(item_size_of(before, items, i, k))
    &&& status.current_item_capacity == capacity_after(before, items, i, dynamic_uniforms, k)
    &&& if dynamic_uniforms {
        status.indices@ == slots.0 && status.current_index == slots.1
    } else {
        status.indices@ == indices_of(before) && status.current_index == next_slot_of(before)
    }
}

/// After a packed frame, the slot table of every field that a value has buffer-backed is as
/// the values determine it, and the staging buffer holds the bytes of the fields, field by
/// field and within a field value by value.
pub proof fn lemma_packed_slot_tables(
    arrays: Seq<UniformArray>,
    table: RenderResourceTable,
    queue: Seq<Command>,
    assignments: Seq<RenderResourceAssignments>,
    items: Seq<Seq<RenderResourceField>>,
    dynamic_uniforms: bool,
    k: int,
    passes: PackPasses,
    arrays_after: Seq<UniformArray>,
    table_after: RenderResourceTable,
    queue_after: Seq<Command>,
    assignments_after: Seq<RenderResourceAssignments>,
)
    requires
        0 <= k <= usize::MAX,
        forall|i: int|
            0 <= i < arrays.len() && (#[trigger] arrays[i]) is Some ==> arrays[i].unwrap().1.wf(),
        can_pack(arrays, items, owners_of(assignments), dynamic_uniforms, k),
        packed(
            arrays,
            table,
            queue,
            assignments,
            items,
            dynamic_uniforms,
            k,
            passes,
            arrays_after,
            table_after,
            queue_after,
            assignments_after,
        ),
    ensures
        forall|i: int|
            0 <= i < arrays_after.len() && count_at(items, i, k) > 0 ==> (
            #[trigger] arrays_after[i]) is Some && packed_status(
                entry_at(arrays, i),
                items,
                owners_of(assignments),
                i,
                dynamic_uniforms,
                k,
                total_bytes(items, k, i),
                arrays_after[i].unwrap().1,
            ),
        forall|j: int, i: int|
            #![trigger items[j][i]]
            0 <= j < k && is_buffer_at(items[j], i) ==> passes.staging.subrange(
                total_bytes(items, k, i) + bytes_at(items, i, j),
                total_bytes(items, k, i) + bytes_at(items, i, j) + items[j][i].bytes.len(),
            ) == items[j][i].bytes,
{
    let len = fields_len(arrays.len() as int, items, k);
    let owners = owners_of(assignments);
    lemma_packed_summary(
        arrays,
        table,
        queue,
        assignments,
        items,
        dynamic_uniforms,
        k,
        passes,
        arrays_after,
        table_after,
        queue_after,
        assignments_after,
    );
    lemma_can_count(arrays, passes.cleared, items, owners, dynamic_uniforms, k);
    lemma_can_grow(arrays, passes.cleared, passes.counted, items, owners, dynamic_uniforms, k);
    assert(frame_chain(
        arrays,
        passes.cleared,
        passes.counted,
        passes.prepared,
        table,
        items,
        dynamic_uniforms,
        k,
    ));
    assert forall|i: int| 0 <= i < arrays_after.len() && count_at(items, i, k) > 0 implies (
    #[trigger] arrays_after[i]) is Some && packed_status(
        entry_at(arrays, i),
        items,
        owners,
        i,
        dynamic_uniforms,
        k,
        total_bytes(items, k, i),
        arrays_after[i].unwrap().1,
    ) by {
        lemma_counts_monotonic(items, i, 0, k);
        assert(planned_from(
            entry_at(arrays, i),
            items,
            i,
            dynamic_uniforms,
            k,
            total_bytes(items, k, i),
            passes.planned[i],
        ));
        assert(written_through(
            passes.planned[i],
            items,
            owners,
            i,
            dynamic_uniforms,
            k,
            passes.written[i],
        ));
        if total_bytes(items, k, len) != 0 {
            assert(flushed_entry(passes.written[i], arrays_after[i]));
        }
        assert(entry_can_pack(entry_at(arrays, i), items, owners, i, dynamic_uniforms, k));
        if entry_at(arrays, i) is Some {
            assert(arrays[i].unwrap().1.wf());
        }
        lemma_planned_aligned(
            arrays,
            passes,
            table,
            items,
            owners,
            i,
            dynamic_uniforms,
            k,
        );
    }
    assert forall|j: int, i: int|
        #![trigger items[j][i]]
        0 <= j < k && is_buffer_at(items[j], i) implies passes.staging.subrange(
        total_bytes(items, k, i) + bytes_at(items, i, j),
        total_bytes(items, k, i) + bytes_at(items, i, j) + items[j][i].bytes.len(),
    ) == items[j][i].bytes by {
        lemma_counts_monotonic(items, i, j + 1, k);
        lemma_counts_monotonic(items, i, 0, j);
        if i >= len {
            lemma_untracked_beyond(arrays.len() as int, items, i, k);
        }
        assert(planned_from(
            entry_at(arrays, i),
            items,
            i,
            dynamic_uniforms,
            k,
            total_bytes(items, k, i),
            passes.planned[i],
        ));
    }
}

/// The aligned size of a planned slot table is the aligned item size.
proof fn lemma_planned_aligned(
    arrays: Seq<UniformArray>,
    passes: PackPasses,
    table: RenderResourceTable,
    items: Seq<Seq<RenderResourceField>>,
    owners: Seq<RenderResourceAssignmentsId>,
    i: int,
    dynamic_uniforms: bool,
    k: int,
)
    requires
        0 <= k,
        0 <= i < fields_len(arrays.len() as int, items, k),
        forall|f: int|
            0 <= f < arrays.len() && (#[trigger] arrays[f]) is Some ==> arrays[f].unwrap().1.wf(),
        frame_chain(
            arrays,
            passes.cleared,
            passes.counted,
            passes.prepared,
            table,
            items,
            dynamic_uniforms,
            k,
        ),
        passes.planned.len() == fields_len(arrays.len() as int, items, k),
        passes.planned[i] == planned_entry(passes.prepared[i], total_bytes(items, k, i) as usize),
    ensures
        passes.planned[i] is Some ==> passes.planned[i].unwrap().1.aligned_size
            == aligned_dynamic_uniform_size(item_size_of(entry_at(arrays, i), items, i, k)),
{
    lemma_counts_monotonic(items, i, 0, k);
    assert(can_count_through(entry_at(passes.cleared, i), items, i, k));
    assert(counted_through(entry_at(passes.cleared, i), items, i, k, passes.counted[i]));
    assert(prepared_entry(
        passes.counted[i],
        dynamic_uniforms,
        table_after_setup(table, passes.counted, passes.prepared, dynamic_uniforms, i),
        passes.prepared[i],
        table_after_setup(table, passes.counted, passes.prepared, dynamic_uniforms, i + 1),
    ));
    if i < arrays.len() {
        assert(passes.cleared[i] == reset_entry(arrays[i]));
        if arrays[i] is Some {
            assert(arrays[i].unwrap().1.wf());
        }
    }
    if passes.counted[i] is Some {
        let grown = BufferArrayStatus {
            queued_buffer_writes: passes.counted[i].unwrap().1.queued_buffer_writes,
            ..passes.prepared[i].unwrap().1
        };
        assert(grown.aligned_size == passes.counted[i].unwrap().1.aligned_size);
    }
}

/// After a frame packed in dynamic mode, a buffer-backed field of a value is bound, in the
/// table of the value's owner, to the owner's slot in the buffer of the field: at the byte
/// offset that is the slot times the aligned item size, over the byte length of the field.
/// Where several buffer-backed fields of the value share a name, this holds of the last.
pub proof fn lemma_packed_dynamic_binding(
    arrays: Seq<UniformArray>,
    table: RenderResourceTable,
    queue: Seq<Command>,
    assignments: Seq<RenderResourceAssignments>,
    items: Seq<Seq<RenderResourceField>>,
    k: int,
    passes: PackPasses,
    arrays_after: Seq<UniformArray>,
    table_after: RenderResourceTable,
    queue_after: Seq<Command>,
    assignments_after: Seq<RenderResourceAssignments>,
    j: int,
    i: int,
)
    requires
        0 <= k <= usize::MAX,
        forall|f: int|
            0 <= f < arrays.len() && (#[trigger] arrays[f]) is Some ==> arrays[f].unwrap().1.wf(),
        can_pack(arrays, items, owners_of(assignments), true, k),
        packed(
            arrays,
            table,
            queue,
            assignments,
            items,
            true,
            k,
            passes,
            arrays_after,
            table_after,
            queue_after,
            assignments_after,
        ),
        0 <= j < k,
        j < assignments.len(),
        is_buffer_at(items[j], i),
        bound_last(items[j], items[j].len() as int, i),
    ensures
        0 <= i < arrays_after.len(),
        arrays_after[i] is Some,
        arrays_after[i].unwrap().1.buffer is Some,
        arrays_after[i].unwrap().1.indices@.contains_key(assignments[j].id.0),
        assignments_after[j]@.contains_key(items[j][i].name),
        assignments_after[j]@[items[j][i].name] == dynamic_assignment(
            arrays_after[i].unwrap().1.buffer.unwrap(),
            (arrays_after[i].unwrap().1.indices@[assignments[j].id.0]
                * arrays_after[i].unwrap().1.aligned_size) as usize,
            items[j][i].bytes.len() as usize,
        ),
{
    let len = fields_len(arrays.len() as int, items, k);
    let owners = owners_of(assignments);
    lemma_counts_monotonic(items, i, j + 1, k);
    lemma_counts_monotonic(items, i, 0, j);
    if i >= len {
        lemma_untracked_beyond(arrays.len() as int, items, i, k);
    }
    lemma_packed_summary(
        arrays,
        table,
        queue,
        assignments,
        items,
        true,
        k,
        passes,
        arrays_after,
        table_after,
        queue_after,
        assignments_after,
    );
    let planned = passes.planned[i];
    let written = passes.written[i];
    assert(planned_from(
        entry_at(arrays, i),
        items,
        i,
        true,
        k,
        total_bytes(items, k, i),
        planned,
    ));
    assert(written_through(planned, items, owners, i, true, k, written));
    if total_bytes(items, k, len) != 0 {
        assert(flushed_entry(written, arrays_after[i]));
    }
    let fields = items[j];
    let writes = item_writes(passes.planned, passes.written, items, j);
    lemma_dynamic_fields_bound(
        BindingState { table: passes.tables[j], assignments: passes.textured[j]@ },
        fields,
        writes,
        fields.len() as int,
        BindingState { table: passes.tables[j + 1], assignments: assignments_after[j]@ },
    );
    let status = planned.unwrap().1;
    lemma_slots_through_kept(
        status.indices@,
        status.current_index as int,
        items,
        owners,
        i,
        j + 1,
        k,
        owners[j].0,
    );
}

/// The copies of entry `i` stand, in their order, behind the copies of the entries before.
proof fn lemma_copies_index(
    written: Seq<UniformArray>,
    staging_buffer: RenderResourceId,
    l: int,
    i: int,
    p: int,
)
    requires
        0 <= i < l,
        0 <= p < entry_copies(written[i], staging_buffer).len(),
    ensures
        0 <= copies(written, staging_buffer, i).len() + p < copies(written, staging_buffer, l).len(),
        copies(written, staging_buffer, l)[copies(written, staging_buffer, i).len() + p]
            == entry_copies(written[i], staging_buffer)[p],
    decreases l,
{
    if i < l - 1 {
        lemma_copies_index(written, staging_buffer, l - 1, i, p);
    }
}

/// After a packed frame that needed a staging buffer, the queue holds one copy for each
/// buffer-backed field of each value: behind the copies of the fields before and, within the
/// field, of the values before. The copy takes the bytes of the field from where they were
/// staged. In dynamic mode it puts them into the owner's slot of the field's buffer; else at
/// the start of a buffer. Either way that buffer is the one that the owner's table binds
/// under the field's name, for the last field of that name.
pub proof fn lemma_packed_copy(
    arrays: Seq<UniformArray>,
    table: RenderResourceTable,
    queue: Seq<Command>,
    assignments: Seq<RenderResourceAssignments>,
    items: Seq<Seq<RenderResourceField>>,
    dynamic_uniforms: bool,
    k: int,
    passes: PackPasses,
    arrays_after: Seq<UniformArray>,
    table_after: RenderResourceTable,
    queue_after: Seq<Command>,
    assignments_after: Seq<RenderResourceAssignments>,
    j: int,
    i: int,
)
    requires
        0 <= k <= usize::MAX,
        forall|f: int|
            0 <= f < arrays.len() && (#[trigger] arrays[f]) is Some ==> arrays[f].unwrap().1.wf(),
        can_pack(arrays, items, owners_of(assignments), dynamic_uniforms, k),
        packed(
            arrays,
            table,
            queue,
            assignments,
            items,
            dynamic_uniforms,
            k,
            passes,
            arrays_after,
            table_after,
            queue_after,
            assignments_after,
        ),
        total_bytes(items, k, fields_len(arrays.len() as int, items, k)) != 0,
        0 <= j < k,
        j < assignments.len(),
        is_buffer_at(items[j], i),
    ensures
        ({
            let at = queue.len() + total_count(items, k, i) + count_at(items, i, j);
            let write = item_writes(passes.planned, passes.written, items, j)[i];
            &&& queue.len() <= at < queue_after.len() - 1
            &&& queue_after[at] == Command::CopyBufferToBuffer {
                source_buffer: passes.staging_buffer,
                source_offset: (total_bytes(items, k, i) + bytes_at(items, i, j)) as u64,
                destination_buffer: write.buffer,
                destination_offset: write.target_offset as u64,
                size: items[j][i].bytes.len() as u64,
            }
            &&& 0 <= i < arrays_after.len() && arrays_after[i] is Some
            &&& if dynamic_uniforms {
                &&& arrays_after[i].unwrap().1.buffer == Some(write.buffer)
                &&& arrays_after[i].unwrap().1.indices@.contains_key(assignments[j].id.0)
                &&& write.target_offset == arrays_after[i].unwrap().1.indices@[assignments[j].id.0]
                    * arrays_after[i].unwrap().1.aligned_size
            } else {
                write.target_offset == 0
            }
            &&& bound_last(items[j], items[j].len() as int, i) ==> assignments_after[j]@.contains_key(
                items[j][i].name,
            ) && assignments_after[j]@[items[j][i].name].resource() == write.buffer
        }),
{
    let len = fields_len(arrays.len() as int, items, k);
    let owners = owners_of(assignments);
    lemma_counts_monotonic(items, i, j + 1, k);
    lemma_counts_monotonic(items, i, 0, j);
    if i >= len {
        lemma_untracked_beyond(arrays.len() as int, items, i, k);
    }
    lemma_packed_summary(
        arrays,
        table,
        queue,
        assignments,
        items,
        dynamic_uniforms,
        k,
        passes,
        arrays_after,
        table_after,
        queue_after,
        assignments_after,
    );
    let planned = passes.planned[i];
    let written = passes.written[i];
    assert(planned_from(
        entry_at(arrays, i),
        items,
        i,
        dynamic_uniforms,
        k,
        total_bytes(items, k, i),
        planned,
    ));
    assert(written_through(planned, items, owners, i, dynamic_uniforms, k, written));
    assert(flushed_entry(written, arrays_after[i]));
    let p = count_at(items, i, j);
    let staging_buffer = passes.staging_buffer;
    assert(entry_copies(written, staging_buffer).len() == count_at(items, i, k));
    lemma_copies_index(passes.written, staging_buffer, len, i, p);
    assert forall|f: int| 0 <= f < len && (#[trigger] passes.planned[f]) is None implies count_at(
        items,
        f,
        k,
    ) == 0 by {
        assert(planned_from(
            entry_at(arrays, f),
            items,
            f,
            dynamic_uniforms,
            k,
            total_bytes(items, k, f),
            passes.planned[f],
        ));
    }
    assert forall|f: int| 0 <= f < len && (#[trigger] passes.planned[f]) is Some
        implies passes.planned[f].unwrap().1.queued_buffer_writes@.len() == 0 by {
        assert(planned_from(
            entry_at(arrays, f),
            items,
            f,
            dynamic_uniforms,
            k,
            total_bytes(items, k, f),
            passes.planned[f],
        ));
    }
    lemma_copies_len(
        passes.planned,
        passes.written,
        items,
        owners,
        dynamic_uniforms,
        k,
        staging_buffer,
        i,
    );
    lemma_copies_len(
        passes.planned,
        passes.written,
        items,
        owners,
        dynamic_uniforms,
        k,
        staging_buffer,
        len,
    );
    lemma_total_bytes_monotonic(items, k, i, len);
    let fields = items[j];
    let writes = item_writes(passes.planned, passes.written, items, j);
    lemma_fields_bound_to_targets(
        BindingState { table: passes.tables[j], assignments: passes.textured[j]@ },
        fields,
        dynamic_uniforms,
        writes,
        fields.len() as int,
        BindingState { table: passes.tables[j + 1], assignments: assignments_after[j]@ },
    );
    if dynamic_uniforms {
        let status = planned.unwrap().1;
        lemma_slots_through_kept(
            status.indices@,
            status.current_index as int,
            items,
            owners,
            i,
            j + 1,
            k,
            owners[j].0,
        );
    }
}

} // verus!
