//! One frame of packing for a list of values and their owners' binding tables: count, grow,
//! plan the staging buffer, bind textures, write, and queue the copies.

use vstd::prelude::*;
use crate::assignments::RenderResourceAssignments;
use crate::render_resource::{aligned_dynamic_uniform_size, RenderResourceAssignmentsId};
use crate::renderer::{RenderResourceContext, RenderResourceTable};
use crate::texture::{setup_uniform_texture_resources, textures_bound};
use crate::uniform_buffer_arrays::{
    buffer_len_at, can_count, counted_entry, entry_at, is_buffer_at, is_first_status,
    BufferArrayStatus, QueuedBufferWrite, UniformArray, UniformBufferArrays,
};
use crate::uniform_buffer_writes::{
    fields_bound, last_writes, lemma_fields_bound_same, lemma_staged_inside, lemma_staged_len,
    lemma_staged_outside, region_start, regions_fit, regions_ordered, staged, written_entry,
    BindingState,
};
use crate::uniforms::{RenderResourceField, RenderResources};

verus! {

/// The fields of each value of a list.
pub open spec fn items_of<T: RenderResources>(uniforms: Seq<&T>) -> Seq<Seq<RenderResourceField>> {
    Seq::new(uniforms.len(), |k: int| uniforms[k].fields())
}

/// How many of the first `k` values have field `i` buffer-backed.
pub open spec fn count_at(items: Seq<Seq<RenderResourceField>>, i: int, k: int) -> int
    decreases k,
{
    if k <= 0 {
        0
    } else {
        count_at(items, i, k - 1) + (if is_buffer_at(items[k - 1], i) {
            1int
        } else {
            0int
        })
    }
}

/// The bytes that field `i` of the first `k` values takes together.
pub open spec fn bytes_at(items: Seq<Seq<RenderResourceField>>, i: int, k: int) -> int
    decreases k,
{
    if k <= 0 {
        0
    } else {
        bytes_at(items, i, k - 1) + buffer_len_at(items[k - 1], i)
    }
}

/// Field `i` as the first of the first `k` values that has it buffer-backed holds it.
pub open spec fn first_field(
    items: Seq<Seq<RenderResourceField>>,
    i: int,
    k: int,
) -> RenderResourceField
    decreases k,
{
    if k <= 0 {
        items[0][i]
    } else if count_at(items, i, k - 1) > 0 {
        first_field(items, i, k - 1)
    } else {
        items[k - 1][i]
    }
}

/// Once a value has the field buffer-backed, later values do not change which one was first.
pub proof fn lemma_first_field_stable(
    items: Seq<Seq<RenderResourceField>>,
    i: int,
    j: int,
    k: int,
)
    requires
        0 <= j <= k,
        count_at(items, i, j) > 0,
    ensures
        first_field(items, i, k) == first_field(items, i, j),
    decreases k,
{
    if j < k {
        lemma_counts_monotonic(items, i, j, k - 1);
        lemma_first_field_stable(items, i, j, k - 1);
    }
}

/// The greatest number of fields that one of the first `k` values has, or `len` if that is
/// more.
pub open spec fn fields_len(len: int, items: Seq<Seq<RenderResourceField>>, k: int) -> int
    decreases k,
{
    if k <= 0 {
        len
    } else {
        let earlier = fields_len(len, items, k - 1);
        if earlier < items[k - 1].len() {
            items[k - 1].len() as int
        } else {
            earlier
        }
    }
}

/// Counts and bytes only grow along the list, and a count never exceeds the number of values.
pub proof fn lemma_counts_monotonic(items: Seq<Seq<RenderResourceField>>, i: int, j: int, k: int)
    requires
        0 <= j <= k,
    ensures
        0 <= count_at(items, i, j) <= count_at(items, i, k) <= k,
        0 <= bytes_at(items, i, j) <= bytes_at(items, i, k),
        count_at(items, i, k) - count_at(items, i, j) <= k - j,
        count_at(items, i, k) == 0 ==> bytes_at(items, i, k) == 0,
    decreases k,
{
    if j < k {
        lemma_counts_monotonic(items, i, j, k - 1);
    } else if k > 0 {
        lemma_counts_monotonic(items, i, j - 1, k - 1);
    }
}

/// `after` is the entry of field `i` once the first `k` values were counted.
pub open spec fn counted_through(
    before: UniformArray,
    items: Seq<Seq<RenderResourceField>>,
    i: int,
    k: int,
    after: UniformArray,
) -> bool {
    if count_at(items, i, k) == 0 {
        after == before
    } else {
        match before {
            Some((name, status)) => after == Some(
                (
                    name,
                    BufferArrayStatus {
                        changed_item_count: (status.changed_item_count + count_at(items, i,
                            k)) as usize,
                        changed_size: (status.changed_size + bytes_at(items, i, k)) as usize,
                        ..status
                    },
                ),
            ),
            None => {
                &&& after is Some
                &&& after.unwrap().0@ == first_field(items, i, k).name
                &&& after.unwrap().1.changed_item_count == count_at(items, i, k)
                &&& after.unwrap().1.changed_size == bytes_at(items, i, k)
                &&& is_first_status(
                    BufferArrayStatus {
                        changed_item_count: 1,
                        changed_size: first_field(items, i, k).bytes.len() as usize,
                        ..after.unwrap().1
                    },
                    first_field(items, i, k).bytes.len() as usize,
                )
            },
        }
    }
}

/// Counting the first `k` values overflows no counter of the entry of field `i`, and the
/// aligned size of a field that is seen for the first time can be addressed.
pub open spec fn can_count_through(
    before: UniformArray,
    items: Seq<Seq<RenderResourceField>>,
    i: int,
    k: int,
) -> bool {
    match before {
        Some((_, status)) => status.changed_item_count + count_at(items, i, k) <= usize::MAX
            && status.changed_size + bytes_at(items, i, k) <= usize::MAX,
        None => bytes_at(items, i, k) <= usize::MAX && (count_at(items, i, k) > 0
            ==> aligned_dynamic_uniform_size(first_field(items, i, k).bytes.len() as int)
            <= usize::MAX),
    }
}

/// Counts the first `count` values of `uniforms`.
pub fn count_uniforms<T: RenderResources>(
    uniform_buffer_arrays: &mut UniformBufferArrays<T>,
    uniforms: &Vec<&T>,
    count: usize,
)
    requires
        old(uniform_buffer_arrays).wf(),
        count <= uniforms@.len(),
        forall|i: int|
            0 <= i ==> #[trigger] can_count_through(
                entry_at(old(uniform_buffer_arrays).uniform_arrays@, i),
                items_of(uniforms@),
                i,
                count as int,
            ),
    ensures
        final(uniform_buffer_arrays).wf(),
        final(uniform_buffer_arrays).uniform_arrays@.len() == fields_len(
            old(uniform_buffer_arrays).uniform_arrays@.len() as int,
            items_of(uniforms@),
            count as int,
        ),
        forall|i: int|
            0 <= i < final(uniform_buffer_arrays).uniform_arrays@.len() ==> counted_through(
                entry_at(old(uniform_buffer_arrays).uniform_arrays@, i),
                items_of(uniforms@),
                i,
                count as int,
                #[trigger] final(uniform_buffer_arrays).uniform_arrays@[i],
            ),
        old(uniform_buffer_arrays).slots_kept(final(uniform_buffer_arrays)),
{
    let ghost items = items_of(uniforms@);
    let ghost before = *uniform_buffer_arrays;
    let mut k: usize = 0;
    while k < count
        invariant
            k <= count,
            count <= uniforms@.len(),
            items == items_of(uniforms@),
            before == *old(uniform_buffer_arrays),
            before.wf(),
            uniform_buffer_arrays.wf(),
            forall|i: int|
                0 <= i ==> #[trigger] can_count_through(before.entry(i), items, i, count as int),
            uniform_buffer_arrays.uniform_arrays@.len() == fields_len(
                before.uniform_arrays@.len() as int,
                items,
                k as int,
            ),
            before.uniform_arrays@.len() <= uniform_buffer_arrays.uniform_arrays@.len(),
            forall|i: int|
                0 <= i < uniform_buffer_arrays.uniform_arrays@.len() ==> counted_through(
                    before.entry(i),
                    items,
                    i,
                    k as int,
                    #[trigger] uniform_buffer_arrays.uniform_arrays@[i],
                ),
            before.slots_kept(uniform_buffer_arrays),
        decreases count - k,
    {
        let ghost here = *uniform_buffer_arrays;
        let ghost fields = uniforms@[k as int].fields();
        assert(items[k as int] == fields);
        proof {
            assert forall|i: int| 0 <= i < fields.len() implies can_count(
                here.entry(i),
                #[trigger] fields[i],
            ) by {
                lemma_counts_monotonic(items, i, k as int, count as int);
                lemma_counts_monotonic(items, i, k + 1, count as int);
                if count_at(items, i, k + 1) > 0 {
                    lemma_first_field_stable(items, i, k + 1, count as int);
                }
                if count_at(items, i, k as int) > 0 {
                    lemma_first_field_stable(items, i, k as int, k + 1);
                }
                assert(can_count_through(before.entry(i), items, i, count as int));
                if i < here.uniform_arrays@.len() {
                    assert(counted_through(
                        before.entry(i),
                        items,
                        i,
                        k as int,
                        here.uniform_arrays@[i],
                    ));
                } else {
                    lemma_untracked_beyond(before.uniform_arrays@.len() as int, items, i, k as int);
                }
            }
        }
        uniform_buffer_arrays.increment_changed_item_counts(uniforms[k]);
        proof {
            assert forall|i: int|
                0 <= i < uniform_buffer_arrays.uniform_arrays@.len() implies counted_through(
                before.entry(i),
                items,
                i,
                k + 1,
                #[trigger] uniform_buffer_arrays.uniform_arrays@[i],
            ) by {
                lemma_counts_monotonic(items, i, k as int, count as int);
                lemma_counts_monotonic(items, i, k + 1, count as int);
                lemma_counts_monotonic(items, i, 0, k as int);
                if count_at(items, i, k as int) > 0 {
                    lemma_first_field_stable(items, i, k as int, k + 1);
                }
                assert(can_count_through(before.entry(i), items, i, count as int));
                if i < here.uniform_arrays@.len() {
                    assert(counted_through(
                        before.entry(i),
                        items,
                        i,
                        k as int,
                        here.uniform_arrays@[i],
                    ));
                } else {
                    lemma_untracked_beyond(before.uniform_arrays@.len() as int, items, i, k as int);
                }
                if i < fields.len() {
                    assert(counted_entry(
                        here.entry(i),
                        fields[i],
                        uniform_buffer_arrays.uniform_arrays@[i],
                    ));
                }
            }
            assert(before.slots_kept(uniform_buffer_arrays)) by {
                assert(here.slots_kept(uniform_buffer_arrays));
                assert forall|i: int|
                    0 <= i < before.uniform_arrays@.len() && (#[trigger] before.uniform_arrays@[i])
                        is Some implies uniform_buffer_arrays.uniform_arrays@[i] is Some
                    && before.uniform_arrays@[i].unwrap().1.slots_kept(
                    &uniform_buffer_arrays.uniform_arrays@[i].unwrap().1,
                ) by {
                    assert(here.uniform_arrays@[i] is Some);
                }
            }
        }
        k += 1;
    }
}

/// A field beyond the fields of every counted value was not counted.
pub proof fn lemma_untracked_beyond(len: int, items: Seq<Seq<RenderResourceField>>, i: int, k: int)
    requires
        fields_len(len, items, k) <= i,
    ensures
        count_at(items, i, k) == 0,
        len <= i,
    decreases k,
{
    if k > 0 {
        lemma_untracked_beyond(len, items, i, k - 1);
    }
}

/// Binds the textures of the first `count` values, each in the table of its owner.
pub fn bind_textures<T: RenderResources, C: RenderResourceContext>(
    uniforms: &Vec<&T>,
    render_resource_context: &C,
    assignments: &mut Vec<RenderResourceAssignments>,
    count: usize,
)
    requires
        count <= uniforms@.len(),
        count <= old(assignments)@.len(),
        forall|k: int| 0 <= k < count ==> (#[trigger] old(assignments)@[k]).wf(),
    ensures
        final(assignments)@.len() == old(assignments)@.len(),
        forall|k: int|
            0 <= k < count ==> {
                &&& (#[trigger] final(assignments)@[k]).wf()
                &&& final(assignments)@[k].id == old(assignments)@[k].id
                &&& final(assignments)@[k]@ == textures_bound(
                    render_resource_context.table(),
                    uniforms@[k].fields(),
                    old(assignments)@[k]@,
                    uniforms@[k].fields().len() as int,
                )
            },
        forall|k: int|
            count <= k < old(assignments)@.len() ==> #[trigger] final(assignments)@[k] == old(
                assignments,
            )@[k],
{
    let mut k: usize = 0;
    while k < count
        invariant
            k <= count,
            count <= uniforms@.len(),
            count <= assignments@.len(),
            assignments@.len() == old(assignments)@.len(),
            forall|j: int| 0 <= j < count ==> (#[trigger] old(assignments)@[j]).wf(),
            forall|j: int|
                0 <= j < k ==> {
                    &&& (#[trigger] assignments@[j]).wf()
                    &&& assignments@[j].id == old(assignments)@[j].id
                    &&& assignments@[j]@ == textures_bound(
                        render_resource_context.table(),
                        uniforms@[j].fields(),
                        old(assignments)@[j]@,
                        uniforms@[j].fields().len() as int,
                    )
                },
            forall|j: int|
                k <= j < assignments@.len() ==> #[trigger] assignments@[j] == old(assignments)@[j],
        decreases count - k,
    {
        setup_uniform_texture_resources(uniforms[k], render_resource_context, &mut assignments[k]);
        k += 1;
    }
}

/// The owner of each binding table of a list.
pub open spec fn owners_of(assignments: Seq<RenderResourceAssignments>) -> Seq<
    RenderResourceAssignmentsId,
> {
    Seq::new(assignments.len(), |k: int| assignments[k].id)
}

/// The slot table of field `i` and its next free slot once the first `k` values were
/// written: each owner whose value has the field buffer-backed, and that had no slot, got the
/// next free one.
pub open spec fn slots_through(
    indices: Map<u64, usize>,
    next: int,
    items: Seq<Seq<RenderResourceField>>,
    owners: Seq<RenderResourceAssignmentsId>,
    i: int,
    k: int,
) -> (Map<u64, usize>, int)
    decreases k,
{
    if k <= 0 {
        (indices, next)
    } else {
        let earlier = slots_through(indices, next, items, owners, i, k - 1);
        if is_buffer_at(items[k - 1], i) && !earlier.0.contains_key(owners[k - 1].0) {
            (earlier.0.insert(owners[k - 1].0, earlier.1 as usize), earlier.1 + 1)
        } else {
            earlier
        }
    }
}

/// An owner that has a slot keeps it while more values are written.
pub proof fn lemma_slots_through_kept(
    indices: Map<u64, usize>,
    next: int,
    items: Seq<Seq<RenderResourceField>>,
    owners: Seq<RenderResourceAssignmentsId>,
    i: int,
    j: int,
    k: int,
    owner: u64,
)
    requires
        0 <= j <= k,
        slots_through(indices, next, items, owners, i, j).0.contains_key(owner),
    ensures
        slots_through(indices, next, items, owners, i, k).0.contains_key(owner),
        slots_through(indices, next, items, owners, i, k).0[owner] == slots_through(
            indices,
            next,
            items,
            owners,
            i,
            j,
        ).0[owner],
    decreases k,
{
    if j < k {
        lemma_slots_through_kept(indices, next, items, owners, i, j, k - 1, owner);
    }
}

/// Every one of the first `k` values that has field `i` buffer-backed finds a slot for its
/// owner in a slot table of `capacity` slots: the owner has one by then, or a free one is left.
pub open spec fn slots_suffice(
    indices: Map<u64, usize>,
    next: int,
    capacity: int,
    items: Seq<Seq<RenderResourceField>>,
    owners: Seq<RenderResourceAssignmentsId>,
    i: int,
    k: int,
) -> bool {
    forall|j: int|
        #![trigger items[j]]
        0 <= j < k && is_buffer_at(items[j], i) ==> {
            let earlier = slots_through(indices, next, items, owners, i, j);
            earlier.0.contains_key(owners[j].0) || earlier.1 < capacity
        }
}

/// The slot that the owner of value `j` has in field `i` once value `j` was written.
pub open spec fn slot_of(
    status: BufferArrayStatus,
    items: Seq<Seq<RenderResourceField>>,
    owners: Seq<RenderResourceAssignmentsId>,
    i: int,
    j: int,
) -> usize {
    slots_through(status.indices@, status.current_index as int, items, owners, i,
        j + 1).0[owners[j].0]
}

/// `write` is what field `i` of value `j` noted: where its bytes lie in the field's range of
/// the staging buffer, how many they are, and where in the target buffer they go.
pub open spec fn item_write(
    before: BufferArrayStatus,
    items: Seq<Seq<RenderResourceField>>,
    owners: Seq<RenderResourceAssignmentsId>,
    i: int,
    dynamic_uniforms: bool,
    j: int,
    write: QueuedBufferWrite,
) -> bool {
    &&& write.source_offset == before.current_offset + bytes_at(items, i, j)
    &&& write.size == items[j][i].bytes.len()
    &&& write.target_offset == (if dynamic_uniforms {
        slot_of(before, items, owners, i, j) * before.aligned_size
    } else {
        0
    })
    &&& dynamic_uniforms ==> before.buffer == Some(write.buffer)
}

/// `after` is the entry of field `i` once the first `k` values were written.
pub open spec fn written_through(
    before: UniformArray,
    items: Seq<Seq<RenderResourceField>>,
    owners: Seq<RenderResourceAssignmentsId>,
    i: int,
    dynamic_uniforms: bool,
    k: int,
    after: UniformArray,
) -> bool {
    if count_at(items, i, k) == 0 {
        after == before
    } else {
        &&& before is Some
        &&& after is Some
        &&& after.unwrap().0 == before.unwrap().0
        &&& {
            let b = before.unwrap().1;
            let a = after.unwrap().1;
            let noted = b.queued_buffer_writes@.len() as int;
            let slots = slots_through(b.indices@, b.current_index as int, items, owners, i, k);
            &&& a.current_offset == b.current_offset + bytes_at(items, i, k)
            &&& a.queued_buffer_writes@.len() == noted + count_at(items, i, k)
            &&& a.queued_buffer_writes@.take(noted) == b.queued_buffer_writes@
            &&& forall|j: int|
                #![trigger items[j]]
                0 <= j < k && is_buffer_at(items[j], i) ==> item_write(
                    b,
                    items,
                    owners,
                    i,
                    dynamic_uniforms,
                    j,
                    a.queued_buffer_writes@[noted + count_at(items, i, j)],
                )
            &&& if dynamic_uniforms {
                a.indices@ == slots.0 && a.current_index == slots.1
            } else {
                a.indices == b.indices && a.current_index == b.current_index
            }
            &&& b == (BufferArrayStatus {
                queued_buffer_writes: b.queued_buffer_writes,
                current_offset: b.current_offset,
                indices: b.indices,
                current_index: b.current_index,
                ..a
            })
        }
    }
}

/// The write that field `i` noted for value `j`, by field position.
pub open spec fn item_writes(
    before: Seq<UniformArray>,
    after: Seq<UniformArray>,
    items: Seq<Seq<RenderResourceField>>,
    j: int,
) -> Seq<QueuedBufferWrite> {
    Seq::new(
        after.len(),
        |i: int|
            after[i].unwrap().1.queued_buffer_writes@[before[i].unwrap().1.queued_buffer_writes@.len()
                + count_at(items, i, j)],
    )
}

/// The entry of field `i` is ready for the first `k` values to be written: their bytes have
/// room in the field's range of a staging buffer of `staging_len` bytes, and in dynamic mode
/// each has the field's item size and finds a slot.
pub open spec fn entry_ready(
    entry: UniformArray,
    items: Seq<Seq<RenderResourceField>>,
    owners: Seq<RenderResourceAssignmentsId>,
    i: int,
    dynamic_uniforms: bool,
    k: int,
    staging_len: nat,
) -> bool {
    count_at(items, i, k) > 0 ==> {
        &&& entry is Some
        &&& entry.unwrap().1.staging_start() + bytes_at(items, i, k) <= staging_len
        &&& dynamic_uniforms ==> slots_suffice(
            entry.unwrap().1.indices@,
            entry.unwrap().1.current_index as int,
            entry.unwrap().1.current_item_capacity as int,
            items,
            owners,
            i,
            k,
        )
        &&& dynamic_uniforms ==> forall|j: int|
            #![trigger items[j]]
            0 <= j < k && is_buffer_at(items[j], i) ==> items[j][i].bytes.len()
                == entry.unwrap().1.item_size
    }
}

/// The ranges of two fields in the staging buffer do not overlap: the bytes that the first
/// `k` values put into an earlier field end before the bytes of a later field start.
pub open spec fn ranges_ordered(
    arrays: Seq<UniformArray>,
    items: Seq<Seq<RenderResourceField>>,
    k: int,
) -> bool {
    forall|a: int, b: int|
        #![trigger arrays[a], arrays[b]]
        0 <= a < b < arrays.len() && count_at(items, a, k) > 0 && count_at(items, b, k) > 0
            ==> region_start(arrays, a) + bytes_at(items, a, k) <= region_start(arrays, b)
}

/// The staging buffer holds, for each of the first `k` values and each of its buffer-backed
/// fields, the bytes of the field: in the field's range, behind the bytes of the values before.
pub open spec fn staged_through(
    staging: Seq<u8>,
    arrays: Seq<UniformArray>,
    items: Seq<Seq<RenderResourceField>>,
    k: int,
) -> bool {
    forall|j: int, i: int|
        #![trigger items[j][i]]
        0 <= j < k && is_buffer_at(items[j], i) ==> staging.subrange(
            region_start(arrays, i) + bytes_at(items, i, j),
            region_start(arrays, i) + bytes_at(items, i, j) + items[j][i].bytes.len(),
        ) == items[j][i].bytes
}

/// The backend was in the states `tables` before, between and after the writing of the first
/// `k` values, and `after` holds the owners' tables as each value's fields were bound.
pub open spec fn values_bound(
    tables: Seq<RenderResourceTable>,
    before: Seq<RenderResourceAssignments>,
    items: Seq<Seq<RenderResourceField>>,
    dynamic_uniforms: bool,
    arrays_before: Seq<UniformArray>,
    arrays_after: Seq<UniformArray>,
    k: int,
    after: Seq<RenderResourceAssignments>,
) -> bool {
    &&& tables.len() == k + 1
    &&& forall|j: int|
        #![trigger items[j]]
        0 <= j < k ==> fields_bound(
            BindingState { table: tables[j], assignments: before[j]@ },
            items[j],
            dynamic_uniforms,
            item_writes(arrays_before, arrays_after, items, j),
            items[j].len() as int,
            BindingState { table: tables[j + 1], assignments: after[j]@ },
        )
}

/// While no value had the field buffer-backed, its slot table is as it was.
proof fn lemma_slots_untouched(
    indices: Map<u64, usize>,
    next: int,
    items: Seq<Seq<RenderResourceField>>,
    owners: Seq<RenderResourceAssignmentsId>,
    i: int,
    k: int,
)
    requires
        count_at(items, i, k) == 0,
    ensures
        slots_through(indices, next, items, owners, i, k) == (indices, next),
    decreases k,
{
    if k > 0 {
        lemma_counts_monotonic(items, i, 0, k - 1);
        lemma_slots_untouched(indices, next, items, owners, i, k - 1);
    }
}

proof fn lemma_written_step(
    before: UniformArray,
    items: Seq<Seq<RenderResourceField>>,
    owners: Seq<RenderResourceAssignmentsId>,
    i: int,
    dynamic_uniforms: bool,
    k: int,
    now: UniformArray,
    next: UniformArray,
)
    requires
        0 <= k < items.len(),
        owners.len() == items.len(),
        0 <= i,
        is_buffer_at(items[k], i) ==> items[k][i].bytes.len() <= usize::MAX,
        written_through(before, items, owners, i, dynamic_uniforms, k, now),
        written_entry(now, items[k], i, dynamic_uniforms, owners[k], next),
    ensures
        written_through(before, items, owners, i, dynamic_uniforms, k + 1, next),
{
    lemma_counts_monotonic(items, i, 0, k);
    if is_buffer_at(items[k], i) {
        let b = before.unwrap().1;
        let n = now.unwrap().1;
        let a = next.unwrap().1;
        let noted = b.queued_buffer_writes@.len() as int;
        let slots = slots_through(b.indices@, b.current_index as int, items, owners, i, k);
        let slots_next = slots_through(b.indices@, b.current_index as int, items, owners, i, k + 1);
        if count_at(items, i, k) == 0 {
            assert(now == before);
            assert(n.queued_buffer_writes@.take(noted) =~= b.queued_buffer_writes@);
            lemma_slots_untouched(b.indices@, b.current_index as int, items, owners, i, k);
        }
        assert(a.queued_buffer_writes@.drop_last() == n.queued_buffer_writes@);
        assert(a.queued_buffer_writes@.take(noted) =~= b.queued_buffer_writes@) by {
            assert(n.queued_buffer_writes@.take(noted) == b.queued_buffer_writes@);
            assert forall|p: int| 0 <= p < noted implies a.queued_buffer_writes@[p]
                == b.queued_buffer_writes@[p] by {
                assert(a.queued_buffer_writes@.drop_last()[p] == a.queued_buffer_writes@[p]);
                assert(n.queued_buffer_writes@.take(noted)[p] == n.queued_buffer_writes@[p]);
            }
        }
        if dynamic_uniforms {
            assert(n.indices@ == slots.0 && n.current_index == slots.1);
            assert(a.indices@ =~= slots_next.0);
            assert(a.current_index == slots_next.1);
        }
        assert forall|j: int|
            #![trigger items[j]]
            0 <= j < k + 1 && is_buffer_at(items[j], i) implies item_write(
            b,
            items,
            owners,
            i,
            dynamic_uniforms,
            j,
            a.queued_buffer_writes@[noted + count_at(items, i, j)],
        ) by {
            if j < k {
                lemma_counts_monotonic(items, i, j + 1, k);
                lemma_counts_monotonic(items, i, 0, j);
                assert(count_at(items, i, j + 1) == count_at(items, i, j) + 1);
                assert(count_at(items, i, k) > 0);
                assert(a.queued_buffer_writes@.drop_last()[noted + count_at(items, i, j)]
                    == a.queued_buffer_writes@[noted + count_at(items, i, j)]);
            } else {
                assert(noted + count_at(items, i, k) == a.queued_buffer_writes@.len() - 1);
                if dynamic_uniforms {
                    assert(slots_next.0.contains_key(owners[k].0));
                }
            }
        }
    } else {
        if count_at(items, i, k) > 0 {
            let b = before.unwrap().1;
            let a = next.unwrap().1;
            let noted = b.queued_buffer_writes@.len() as int;
            assert forall|j: int|
                #![trigger items[j]]
                0 <= j < k + 1 && is_buffer_at(items[j], i) implies item_write(
                b,
                items,
                owners,
                i,
                dynamic_uniforms,
                j,
                a.queued_buffer_writes@[noted + count_at(items, i, j)],
            ) by {
                assert(j < k);
            }
        }
    }
}

/// The next write of every counted field starts, in `now`, behind the bytes that the first
/// `k` values put into the field's range as `before` has it.
spec fn starts_moved(
    before: Seq<UniformArray>,
    now: Seq<UniformArray>,
    items: Seq<Seq<RenderResourceField>>,
    k: int,
    count: int,
    staging_len: nat,
) -> bool {
    &&& now.len() == before.len()
    &&& forall|i: int|
        #![trigger before[i]]
        0 <= i && count_at(items, i, count) > 0 ==> {
            &&& i < before.len()
            &&& before[i] is Some
            &&& now[i] is Some
            &&& region_start(now, i) == region_start(before, i) + bytes_at(items, i, k)
            &&& region_start(before, i) + bytes_at(items, i, count) <= staging_len
        }
}

proof fn lemma_staged_step(
    staging: Seq<u8>,
    before: Seq<UniformArray>,
    now: Seq<UniformArray>,
    items: Seq<Seq<RenderResourceField>>,
    k: int,
    count: int,
)
    requires
        0 <= k < count <= items.len(),
        staged_through(staging, before, items, k),
        starts_moved(before, now, items, k, count, staging.len()),
        ranges_ordered(before, items, count),
    ensures
        staged(staging, now, items[k], items[k].len() as int).len() == staging.len(),
        staged_through(
            staged(staging, now, items[k], items[k].len() as int),
            before,
            items,
            k + 1,
        ),
{
    let fields = items[k];
    let len = fields.len() as int;
    let after = staged(staging, now, fields, len);
    assert forall|i: int| is_buffer_at(fields, i) implies count_at(items, i, count) > 0
        && bytes_at(items, i, k) + fields[i].bytes.len() <= bytes_at(items, i, count) by {
        lemma_counts_monotonic(items, i, k + 1, count);
        lemma_counts_monotonic(items, i, 0, k);
    }
    assert(regions_fit(now, fields, len, staging.len())) by {
        assert forall|j: int|
            #![trigger fields[j]]
            0 <= j < len && is_buffer_at(fields, j) implies region_start(now, j)
            + fields[j].bytes.len() <= staging.len() by {
            assert(before[j] is Some);
        }
    }
    assert(regions_ordered(now, fields, len)) by {
        assert forall|a: int, b: int|
            #![trigger fields[a], fields[b]]
            0 <= a < b < len && is_buffer_at(fields, a) && is_buffer_at(fields, b)
            implies region_start(now, a) + fields[a].bytes.len() <= region_start(now, b) by {
            assert(before[a] is Some && before[b] is Some);
            lemma_counts_monotonic(items, b, 0, k);
        }
    }
    lemma_staged_len(staging, now, fields, len);
    assert forall|j: int, i: int|
        #![trigger items[j][i]]
        0 <= j < k + 1 && is_buffer_at(items[j], i) implies after.subrange(
        region_start(before, i) + bytes_at(items, i, j),
        region_start(before, i) + bytes_at(items, i, j) + items[j][i].bytes.len(),
    ) == items[j][i].bytes by {
        let start = region_start(before, i) + bytes_at(items, i, j);
        let bytes = items[j][i].bytes;
        lemma_counts_monotonic(items, i, j + 1, count);
        lemma_counts_monotonic(items, i, 0, j);
        assert(before[i] is Some);
        if j == k {
            lemma_staged_inside(staging, now, fields, len, i);
        } else {
            lemma_counts_monotonic(items, i, j + 1, k);
            assert(staging.subrange(start, start + bytes.len()) == bytes);
            assert forall|p: int| start <= p < start + bytes.len() implies #[trigger] after[p]
                == staging[p] by {
                assert forall|f: int|
                    #![trigger fields[f]]
                    0 <= f < len && is_buffer_at(fields, f) implies p < region_start(now, f) || p
                    >= region_start(now, f) + fields[f].bytes.len() by {
                    assert(before[f] is Some);
                    lemma_counts_monotonic(items, f, k + 1, count);
                    lemma_counts_monotonic(items, f, 0, k);
                    if f < i {
                        assert(region_start(before, f) + bytes_at(items, f, count)
                            <= region_start(before, i));
                    } else if i < f {
                        assert(region_start(before, i) + bytes_at(items, i, count)
                            <= region_start(before, f));
                    }
                }
                lemma_staged_outside(staging, now, fields, len, p);
            }
            assert(after.subrange(start, start + bytes.len()) =~= staging.subrange(
                start,
                start + bytes.len(),
            ));
        }
    }
}

/// Field `i` of value `k`, where buffer-backed, has a slot table in `now` with room for it.
spec fn value_ready(
    now: Seq<UniformArray>,
    items: Seq<Seq<RenderResourceField>>,
    owners: Seq<RenderResourceAssignmentsId>,
    dynamic_uniforms: bool,
    k: int,
    i: int,
    staging_len: nat,
) -> bool {
    is_buffer_at(items[k], i) ==> {
        &&& i < now.len()
        &&& now[i] is Some
        &&& items[k][i].bytes.len() <= staging_len
        &&& now[i].unwrap().1.can_write(
            items[k][i].bytes.len(),
            dynamic_uniforms,
            owners[k],
            staging_len,
        )
    }
}

proof fn lemma_ready_for_value(
    before: Seq<UniformArray>,
    now: Seq<UniformArray>,
    items: Seq<Seq<RenderResourceField>>,
    owners: Seq<RenderResourceAssignmentsId>,
    dynamic_uniforms: bool,
    k: int,
    count: int,
    staging_len: nat,
)
    requires
        0 <= k < count <= items.len(),
        owners.len() == items.len(),
        now.len() == before.len(),
        ready_to_write(before, items, owners, dynamic_uniforms, count, staging_len),
        forall|i: int|
            0 <= i < before.len() ==> written_through(
                before[i],
                items,
                owners,
                i,
                dynamic_uniforms,
                k,
                #[trigger] now[i],
            ),
    ensures
        forall|i: int|
            0 <= i ==> #[trigger] value_ready(
                now,
                items,
                owners,
                dynamic_uniforms,
                k,
                i,
                staging_len,
            ),
        starts_moved(before, now, items, k, count, staging_len),
{
    assert forall|i: int|
        #![trigger before[i]]
        0 <= i && count_at(items, i, count) > 0 implies {
        &&& i < before.len()
        &&& before[i] is Some
        &&& now[i] is Some
        &&& region_start(now, i) == region_start(before, i) + bytes_at(items, i, k)
        &&& region_start(before, i) + bytes_at(items, i, count) <= staging_len
    } by {
        assert(entry_ready(
            entry_at(before, i),
            items,
            owners,
            i,
            dynamic_uniforms,
            count,
            staging_len,
        ));
        assert(written_through(before[i], items, owners, i, dynamic_uniforms, k, now[i]));
        lemma_counts_monotonic(items, i, 0, k);
    }
    assert forall|i: int| 0 <= i implies #[trigger] value_ready(
        now,
        items,
        owners,
        dynamic_uniforms,
        k,
        i,
        staging_len,
    ) by {
        if is_buffer_at(items[k], i) {
            lemma_counts_monotonic(items, i, k + 1, count);
            lemma_counts_monotonic(items, i, 0, k);
            assert(count_at(items, i, count) > 0);
            assert(entry_ready(
                entry_at(before, i),
                items,
                owners,
                i,
                dynamic_uniforms,
                count,
                staging_len,
            ));
            assert(written_through(before[i], items, owners, i, dynamic_uniforms, k, now[i]));
            let b = before[i].unwrap().1;
            if count_at(items, i, k) == 0 {
                lemma_slots_untouched(b.indices@, b.current_index as int, items, owners, i, k);
            }
        }
    }
}

proof fn lemma_values_bound_step(
    tables: Seq<RenderResourceTable>,
    assignments_before: Seq<RenderResourceAssignments>,
    items: Seq<Seq<RenderResourceField>>,
    dynamic_uniforms: bool,
    before: Seq<UniformArray>,
    now: Seq<UniformArray>,
    next: Seq<UniformArray>,
    owners: Seq<RenderResourceAssignmentsId>,
    k: int,
    assigned: Seq<RenderResourceAssignments>,
    assigned_next: Seq<RenderResourceAssignments>,
    table_next: RenderResourceTable,
)
    requires
        0 <= k < items.len(),
        owners.len() == items.len(),
        assigned.len() == items.len(),
        assigned_next.len() == items.len(),
        now.len() == before.len(),
        next.len() == before.len(),
        values_bound(
            tables,
            assignments_before,
            items,
            dynamic_uniforms,
            before,
            now,
            k,
            assigned,
        ),
        forall|j: int| 0 <= j < k ==> #[trigger] assigned_next[j] == assigned[j],
        forall|i: int|
            0 <= i < before.len() ==> written_through(
                before[i],
                items,
                owners,
                i,
                dynamic_uniforms,
                k,
                #[trigger] now[i],
            ),
        forall|i: int|
            0 <= i < before.len() ==> written_entry(
                now[i],
                items[k],
                i,
                dynamic_uniforms,
                owners[k],
                #[trigger] next[i],
            ),
        forall|j: int, i: int|
            #![trigger items[j][i]]
            0 <= j <= k && is_buffer_at(items[j], i) ==> i < before.len() && before[i] is Some,
        fields_bound(
            BindingState { table: tables[k], assignments: assignments_before[k]@ },
            items[k],
            dynamic_uniforms,
            last_writes(next),
            items[k].len() as int,
            BindingState { table: table_next, assignments: assigned_next[k]@ },
        ),
    ensures
        values_bound(
            tables.push(table_next),
            assignments_before,
            items,
            dynamic_uniforms,
            before,
            next,
            k + 1,
            assigned_next,
        ),
{
    let pushed = tables.push(table_next);
    assert forall|j: int|
        #![trigger items[j]]
        0 <= j < k + 1 implies fields_bound(
        BindingState { table: pushed[j], assignments: assignments_before[j]@ },
        items[j],
        dynamic_uniforms,
        item_writes(before, next, items, j),
        items[j].len() as int,
        BindingState { table: pushed[j + 1], assignments: assigned_next[j]@ },
    ) by {
        let fields = items[j];
        if j < k {
            assert(assigned_next[j] == assigned[j]);
            assert forall|i: int|
                #![trigger fields[i]]
                0 <= i < fields.len() && is_buffer_at(fields, i) implies item_writes(
                before,
                now,
                items,
                j,
            )[i] == item_writes(before, next, items, j)[i] by {
                assert(is_buffer_at(items[j], i) ==> items[j][i] == fields[i]);
                lemma_counts_monotonic(items, i, j + 1, k);
                lemma_counts_monotonic(items, i, 0, j);
                assert(written_through(before[i], items, owners, i, dynamic_uniforms, k, now[i]));
                assert(written_entry(now[i], items[k], i, dynamic_uniforms, owners[k], next[i]));
                let at = before[i].unwrap().1.queued_buffer_writes@.len() + count_at(items, i, j);
                if is_buffer_at(items[k], i) {
                    assert(next[i].unwrap().1.queued_buffer_writes@.drop_last()[at]
                        == next[i].unwrap().1.queued_buffer_writes@[at]);
                }
            }
            lemma_fields_bound_same(
                BindingState { table: tables[j], assignments: assignments_before[j]@ },
                fields,
                dynamic_uniforms,
                item_writes(before, now, items, j),
                item_writes(before, next, items, j),
                fields.len() as int,
                BindingState { table: tables[j + 1], assignments: assigned[j]@ },
            );
        } else {
            assert forall|i: int|
                #![trigger fields[i]]
                0 <= i < fields.len() && is_buffer_at(fields, i) implies last_writes(next)[i]
                == item_writes(before, next, items, k)[i] by {
                assert(is_buffer_at(items[k], i) ==> items[k][i] == fields[i]);
                lemma_counts_monotonic(items, i, 0, k);
                assert(written_through(before[i], items, owners, i, dynamic_uniforms, k, now[i]));
                assert(written_entry(now[i], items[k], i, dynamic_uniforms, owners[k], next[i]));
            }
            lemma_fields_bound_same(
                BindingState { table: tables[k], assignments: assignments_before[k]@ },
                fields,
                dynamic_uniforms,
                last_writes(next),
                item_writes(before, next, items, k),
                fields.len() as int,
                BindingState { table: table_next, assignments: assigned_next[k]@ },
            );
        }
    }
}

/// The slot tables are ready for the first `k` values to be written into a staging buffer of
/// `staging_len` bytes.
pub open spec fn ready_to_write(
    arrays: Seq<UniformArray>,
    items: Seq<Seq<RenderResourceField>>,
    owners: Seq<RenderResourceAssignmentsId>,
    dynamic_uniforms: bool,
    k: int,
    staging_len: nat,
) -> bool {
    &&& forall|i: int|
        0 <= i ==> #[trigger] entry_ready(
            entry_at(arrays, i),
            items,
            owners,
            i,
            dynamic_uniforms,
            k,
            staging_len,
        )
    &&& ranges_ordered(arrays, items, k)
}

/// Writes the first `count` values, each for the owner of the binding table at its position.
pub fn write_uniforms<T: RenderResources, C: RenderResourceContext>(
    uniform_buffer_arrays: &mut UniformBufferArrays<T>,
    uniforms: &Vec<&T>,
    dynamic_uniforms: bool,
    render_resources: &mut C,
    assignments: &mut Vec<RenderResourceAssignments>,
    staging_buffer: &mut [u8],
    count: usize,
)
    requires
        old(uniform_buffer_arrays).wf(),
        count <= uniforms@.len(),
        uniforms@.len() == old(assignments)@.len(),
        forall|k: int| 0 <= k < count ==> (#[trigger] old(assignments)@[k]).wf(),
        ready_to_write(
            old(uniform_buffer_arrays).uniform_arrays@,
            items_of(uniforms@),
            owners_of(old(assignments)@),
            dynamic_uniforms,
            count as int,
            old(staging_buffer)@.len(),
        ),
    ensures
        final(uniform_buffer_arrays).wf(),
        final(uniform_buffer_arrays).uniform_arrays@.len() == old(
            uniform_buffer_arrays,
        ).uniform_arrays@.len(),
        forall|i: int|
            0 <= i < old(uniform_buffer_arrays).uniform_arrays@.len() ==> written_through(
                old(uniform_buffer_arrays).uniform_arrays@[i],
                items_of(uniforms@),
                owners_of(old(assignments)@),
                i,
                dynamic_uniforms,
                count as int,
                #[trigger] final(uniform_buffer_arrays).uniform_arrays@[i],
            ),
        old(uniform_buffer_arrays).slots_kept(final(uniform_buffer_arrays)),
        final(staging_buffer)@.len() == old(staging_buffer)@.len(),
        staged_through(
            final(staging_buffer)@,
            old(uniform_buffer_arrays).uniform_arrays@,
            items_of(uniforms@),
            count as int,
        ),
        final(assignments)@.len() == old(assignments)@.len(),
        forall|k: int|
            0 <= k < count ==> (#[trigger] final(assignments)@[k]).wf() && final(assignments)@[k].id
                == old(assignments)@[k].id,
        forall|k: int|
            count <= k < old(assignments)@.len() ==> #[trigger] final(assignments)@[k] == old(
                assignments,
            )@[k],
        exists|tables: Seq<RenderResourceTable>|
            {
                &&& #[trigger] values_bound(
                    tables,
                    old(assignments)@,
                    items_of(uniforms@),
                    dynamic_uniforms,
                    old(uniform_buffer_arrays).uniform_arrays@,
                    final(uniform_buffer_arrays).uniform_arrays@,
                    count as int,
                    final(assignments)@,
                )
                &&& tables[0] == old(render_resources).table()
                &&& tables[count as int] == final(render_resources).table()
            },
{
    let ghost items = items_of(uniforms@);
    let ghost owners = owners_of(assignments@);
    let ghost before = *uniform_buffer_arrays;
    let ghost tables = seq![render_resources.table()];
    let staging_len = staging_buffer.len();
    let mut k: usize = 0;
    while k < count
        invariant
            k <= count,
            count <= uniforms@.len(),
            uniforms@.len() == assignments@.len(),
            assignments@.len() == old(assignments)@.len(),
            items == items_of(uniforms@),
            owners == owners_of(old(assignments)@),
            before == *old(uniform_buffer_arrays),
            staging_len == old(staging_buffer)@.len(),
            staging_buffer@.len() == staging_len,
            forall|j: int| 0 <= j < count ==> (#[trigger] old(assignments)@[j]).wf(),
            before.wf(),
            ready_to_write(
                before.uniform_arrays@,
                items,
                owners,
                dynamic_uniforms,
                count as int,
                staging_len as nat,
            ),
            uniform_buffer_arrays.wf(),
            uniform_buffer_arrays.uniform_arrays@.len() == before.uniform_arrays@.len(),
            forall|i: int|
                0 <= i < before.uniform_arrays@.len() ==> written_through(
                    before.uniform_arrays@[i],
                    items,
                    owners,
                    i,
                    dynamic_uniforms,
                    k as int,
                    #[trigger] uniform_buffer_arrays.uniform_arrays@[i],
                ),
            before.slots_kept(uniform_buffer_arrays),
            staged_through(staging_buffer@, before.uniform_arrays@, items, k as int),
            forall|j: int|
                0 <= j < k ==> (#[trigger] assignments@[j]).wf() && assignments@[j].id == old(
                    assignments,
                )@[j].id,
            forall|j: int|
                k <= j < assignments@.len() ==> #[trigger] assignments@[j] == old(assignments)@[j],
            tables[0] == old(render_resources).table(),
            tables[k as int] == render_resources.table(),
            values_bound(
                tables,
                old(assignments)@,
                items,
                dynamic_uniforms,
                before.uniform_arrays@,
                uniform_buffer_arrays.uniform_arrays@,
                k as int,
                assignments@,
            ),
        decreases count - k,
    {
        let ghost now = *uniform_buffer_arrays;
        let ghost fields = uniforms@[k as int].fields();
        let ghost owner = assignments@[k as int].id;
        let ghost staging = staging_buffer@;
        let ghost tables_now = tables;
        let ghost assigned = assignments@;
        assert(items[k as int] == fields);
        assert(owners[k as int] == owner);
        proof {
            lemma_ready_for_value(
                before.uniform_arrays@,
                now.uniform_arrays@,
                items,
                owners,
                dynamic_uniforms,
                k as int,
                count as int,
                staging_len as nat,
            );
            assert(now.can_write(fields, dynamic_uniforms, owner, staging_len as nat)) by {
                assert forall|i: int|
                    #![trigger fields[i]]
                    is_buffer_at(fields, i) implies now.entry(i) is Some && now.entry(
                    i,
                ).unwrap().1.can_write(
                    fields[i].bytes.len(),
                    dynamic_uniforms,
                    owner,
                    staging_len as nat,
                ) by {
                    assert(value_ready(
                        now.uniform_arrays@,
                        items,
                        owners,
                        dynamic_uniforms,
                        k as int,
                        i,
                        staging_len as nat,
                    ));
                }
            }
        }
        assert(old(assignments)@[k as int].wf());
        uniform_buffer_arrays.setup_uniform_buffer_resources(
            uniforms[k],
            dynamic_uniforms,
            render_resources,
            &mut assignments[k],
            staging_buffer,
        );
        proof {
            let next = uniform_buffer_arrays.uniform_arrays@;
            tables = tables.push(render_resources.table());
            assert forall|i: int| 0 <= i < before.uniform_arrays@.len() implies written_through(
                before.uniform_arrays@[i],
                items,
                owners,
                i,
                dynamic_uniforms,
                k + 1,
                #[trigger] next[i],
            ) by {
                assert(written_through(
                    before.uniform_arrays@[i],
                    items,
                    owners,
                    i,
                    dynamic_uniforms,
                    k as int,
                    now.uniform_arrays@[i],
                ));
                assert(value_ready(
                    now.uniform_arrays@,
                    items,
                    owners,
                    dynamic_uniforms,
                    k as int,
                    i,
                    staging_len as nat,
                ));
                lemma_written_step(
                    before.uniform_arrays@[i],
                    items,
                    owners,
                    i,
                    dynamic_uniforms,
                    k as int,
                    now.uniform_arrays@[i],
                    next[i],
                );
            }
            assert(before.slots_kept(uniform_buffer_arrays)) by {
                assert(now.slots_kept(uniform_buffer_arrays));
                assert forall|i: int|
                    0 <= i < before.uniform_arrays@.len() && (#[trigger] before.uniform_arrays@[i])
                        is Some implies next[i] is Some
                    && before.uniform_arrays@[i].unwrap().1.slots_kept(&next[i].unwrap().1) by {
                    assert(now.uniform_arrays@[i] is Some);
                }
            }
            lemma_staged_step(
                staging,
                before.uniform_arrays@,
                now.uniform_arrays@,
                items,
                k as int,
                count as int,
            );
            assert forall|j: int, i: int|
                #![trigger items[j][i]]
                0 <= j <= k && is_buffer_at(items[j], i) implies i < before.uniform_arrays@.len()
                && before.uniform_arrays@[i] is Some by {
                lemma_counts_monotonic(items, i, j + 1, count as int);
                lemma_counts_monotonic(items, i, 0, j);
                assert(entry_ready(
                    entry_at(before.uniform_arrays@, i),
                    items,
                    owners,
                    i,
                    dynamic_uniforms,
                    count as int,
                    staging_len as nat,
                ));
            }
            lemma_values_bound_step(
                tables_now,
                old(assignments)@,
                items,
                dynamic_uniforms,
                before.uniform_arrays@,
                now.uniform_arrays@,
                next,
                owners,
                k as int,
                assigned,
                assignments@,
                render_resources.table(),
            );
        }
        k += 1;
    }
}

} // verus!
