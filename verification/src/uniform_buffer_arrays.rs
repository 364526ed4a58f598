//! Bookkeeping for the buffers that hold the uniform data of one value type: one slot table per
//! field, and the per-frame passes that count, grow, plan, write and flush.

use vstd::prelude::*;
use std::collections::HashMap;
use std::marker::PhantomData;
use crate::render_resource::{
    aligned_dynamic_uniform_size, get_aligned_dynamic_uniform_size, lemma_aligned_size,
    BufferInfo, BufferUsage, RenderResourceAssignmentsId, RenderResourceId, ResourceInfo,
    COPY_DST, UNIFORM,
};
use crate::renderer::{RenderResourceContext, RenderResourceTable};
use crate::uniforms::{RenderResourceField, RenderResources};

verus! {

/// A copy out of the staging buffer that waits to be queued.
#[derive(Clone, Copy, Debug, PartialEq, Eq)]
pub struct QueuedBufferWrite {
    /// The buffer that the bytes go to.
    pub buffer: RenderResourceId,
    /// The byte offset in that buffer.
    pub target_offset: usize,
    /// Where the bytes lie, counted from the start of the field's range of the staging buffer.
    pub source_offset: usize,
    /// The number of bytes.
    pub size: usize,
}

/// The slot table of one field: capacity, slot of each owner, and this frame's staging state.
#[derive(Debug)]
pub struct BufferArrayStatus {
    /// How many values of this frame have the field buffer-backed.
    pub changed_item_count: usize,
    /// The byte length of the field in the value that was seen first.
    pub item_size: usize,
    /// The item size, rounded up to the bind alignment: the bytes from slot to slot.
    pub aligned_size: usize,
    /// Where the field's range of this frame's staging buffer starts.
    pub staging_buffer_offset: usize,
    /// The shared buffer of the field; there is one as soon as there are slots.
    pub buffer: Option<RenderResourceId>,
    /// The writes of this frame that are still to be queued as copies.
    pub queued_buffer_writes: Vec<QueuedBufferWrite>,
    /// Kept for the record; no pass reads it.
    pub current_item_count: usize,
    /// The number of slots of the shared buffer.
    pub current_item_capacity: usize,
    /// The slot of each owner that ever got one, by owner identity.
    pub indices: HashMap<u64, usize>,
    /// The next free slot.
    pub current_index: usize,
    /// The bytes that this frame's values have in the field together.
    pub changed_size: usize,
    /// How many of those bytes this frame has staged so far.
    pub current_offset: usize,
}

impl BufferArrayStatus {
    /// Slots are handed out in sequence below the capacity, one per owner, and every slot of the
    /// capacity has an addressable byte offset.
    pub open spec fn wf(&self) -> bool {
        &&& self.aligned_size == aligned_dynamic_uniform_size(self.item_size as int)
        &&& self.current_index <= self.current_item_capacity
        &&& self.current_item_capacity * self.aligned_size <= usize::MAX
        &&& self.current_item_capacity > 0 ==> self.buffer is Some
        &&& forall|id: u64| #[trigger]
            self.indices@.contains_key(id) ==> self.indices@[id] < self.current_index
        &&& forall|a: u64, b: u64|
            #![trigger self.indices@[a], self.indices@[b]]
            self.indices@.contains_key(a) && self.indices@.contains_key(b) && a != b
                ==> self.indices@[a] != self.indices@[b]
    }

    /// The owner has a slot, or a free slot is left for it.
    pub open spec fn has_slot_for(&self, id: RenderResourceAssignmentsId) -> bool {
        self.indices@.contains_key(id.0) || self.current_index < self.current_item_capacity
    }

    /// The slot that the owner has, or the next free one.
    pub open spec fn slot_for(&self, id: RenderResourceAssignmentsId) -> usize {
        if self.indices@.contains_key(id.0) {
            self.indices@[id.0]
        } else {
            self.current_index
        }
    }

    /// The status after the owner asked for its slot: differs only in the slot table.
    pub open spec fn slot_assigned(&self, id: RenderResourceAssignmentsId, after: &Self) -> bool {
        &&& after.indices@ == self.indices@.insert(id.0, self.slot_for(id))
        &&& after.current_index == (if self.indices@.contains_key(id.0) {
            self.current_index as int
        } else {
            self.current_index + 1
        })
        &&& *after == (BufferArrayStatus {
            indices: after.indices,
            current_index: after.current_index,
            ..*self
        })
    }

    /// Every owner that has a slot in `self` has the same slot in `later`, and `later` has at
    /// least the capacity and the same item sizes.
    pub open spec fn slots_kept(&self, later: &Self) -> bool {
        &&& forall|id: u64| #[trigger]
            self.indices@.contains_key(id) ==> later.indices@.contains_key(id)
                && later.indices@[id] == self.indices@[id]
        &&& self.current_item_capacity <= later.current_item_capacity
        &&& self.item_size == later.item_size
        &&& self.aligned_size == later.aligned_size
    }

    /// This frame counted more items than the buffer has slots.
    pub open spec fn needs_growth(&self) -> bool {
        self.current_item_capacity < self.changed_item_count
    }

    /// The capacity that growth gives: one and a half times the counted items.
    pub open spec fn grown_capacity(&self) -> int {
        self.changed_item_count + self.changed_item_count / 2
    }

    /// The bytes that one slot takes in the buffer: the aligned size, or the bare item size.
    pub open spec fn stride(&self, align: bool) -> int {
        if align {
            aligned_dynamic_uniform_size(self.item_size as int)
        } else {
            self.item_size as int
        }
    }

    /// The buffer that growth allocates.
    pub open spec fn grown_buffer_info(&self, align: bool) -> BufferInfo {
        BufferInfo {
            size: (self.stride(align) * self.grown_capacity()) as usize,
            buffer_usage: BufferUsage { bits: COPY_DST | UNIFORM },
        }
    }

    /// Where growth is due, the grown buffer has a size that the machine can address.
    pub open spec fn can_grow(&self) -> bool {
        self.needs_growth() ==> self.grown_capacity() <= usize::MAX && self.grown_capacity()
            * self.aligned_size <= usize::MAX
    }

    /// `after` and `table_after` are the status and the backend once the buffer was grown where
    /// growth was due: a new buffer of the grown capacity stands in place of the old one.
    pub open spec fn grown(
        &self,
        align: bool,
        table: RenderResourceTable,
        after: &Self,
        table_after: RenderResourceTable,
    ) -> bool {
        if !self.needs_growth() {
            *after == *self && table_after == table
        } else {
            &&& after.buffer is Some
            &&& *after == (BufferArrayStatus {
                current_item_capacity: self.grown_capacity() as usize,
                buffer: after.buffer,
                ..*self
            })
            &&& !table.resources.contains_key(after.buffer.unwrap())
            &&& table_after == table.with_buffer(
                after.buffer.unwrap(),
                self.grown_buffer_info(align),
            )
        }
    }

    /// The slot of the owner `id`: the one it already has, else the next free one.
    pub fn get_or_assign_index(&mut self, id: RenderResourceAssignmentsId) -> (index: usize)
        requires
            old(self).wf(),
            old(self).has_slot_for(id),
        ensures
            final(self).wf(),
            index == old(self).slot_for(id),
            index < final(self).current_item_capacity,
            old(self).slot_assigned(id, final(self)),
            old(self).slots_kept(final(self)),
    {
        broadcast use vstd::std_specs::hash::group_hash_axioms;

        let found = self.indices.get(&id.0);
        match found {
            Some(offset) => {
                let index = *offset;
                assert(self.indices@ =~= old(self).indices@.insert(id.0, index));
                index
            },
            None => {
                let index = self.current_index;
                self.indices.insert(id.0, index);
                self.current_index += 1;
                index
            },
        }
    }
}

/// One entry of the manager: the slot table of a field together with the field's name, or
/// nothing while the field was never seen buffer-backed.
pub type UniformArray = Option<(String, BufferArrayStatus)>;

/// The entry at position `i`, or nothing beyond the end.
pub open spec fn entry_at(arrays: Seq<UniformArray>, i: int) -> UniformArray {
    if 0 <= i < arrays.len() {
        arrays[i]
    } else {
        None
    }
}

/// The byte length of field `i` where it is buffer-backed, else 0.
pub open spec fn buffer_len_at(fields: Seq<RenderResourceField>, i: int) -> nat {
    if 0 <= i < fields.len() {
        fields[i].byte_len()
    } else {
        0
    }
}

/// Field `i` exists and is buffer-backed.
pub open spec fn is_buffer_at(fields: Seq<RenderResourceField>, i: int) -> bool {
    0 <= i < fields.len() && fields[i].is_buffer()
}

/// The entry after the per-frame counters were cleared.
pub open spec fn reset_entry(before: UniformArray) -> UniformArray {
    match before {
        Some((name, status)) => Some(
            (
                name,
                BufferArrayStatus {
                    changed_item_count: 0,
                    current_offset: 0,
                    changed_size: 0,
                    ..status
                },
            ),
        ),
        None => None,
    }
}

/// `status` is the slot table of a field first seen with `size` bytes.
pub open spec fn is_first_status(status: BufferArrayStatus, size: usize) -> bool {
    &&& status.changed_item_count == 1
    &&& status.queued_buffer_writes@ == Seq::<QueuedBufferWrite>::empty()
    &&& status.aligned_size == aligned_dynamic_uniform_size(size as int)
    &&& status.item_size == size
    &&& status.staging_buffer_offset == 0
    &&& status.buffer is None
    &&& status.current_index == 0
    &&& status.current_item_count == 0
    &&& status.current_item_capacity == 0
    &&& status.indices@ == Map::<u64, usize>::empty()
    &&& status.changed_size == size
    &&& status.current_offset == 0
}

/// `after` is the entry of a field once one more value with the given `field` was counted.
pub open spec fn counted_entry(
    before: UniformArray,
    field: RenderResourceField,
    after: UniformArray,
) -> bool {
    if !field.is_buffer() {
        after == before
    } else {
        match before {
            Some((name, status)) => after == Some(
                (
                    name,
                    BufferArrayStatus {
                        changed_item_count: (status.changed_item_count + 1) as usize,
                        changed_size: (status.changed_size + field.bytes.len()) as usize,
                        ..status
                    },
                ),
            ),
            None => after is Some && after.unwrap().0@ == field.name && is_first_status(
                after.unwrap().1,
                field.bytes.len() as usize,
            ),
        }
    }
}

/// Counting one more value with the given `field` overflows no counter of the entry.
pub open spec fn can_count(before: UniformArray, field: RenderResourceField) -> bool {
    field.is_buffer() ==> match before {
        Some((_, status)) => status.changed_item_count < usize::MAX && status.changed_size
            + field.bytes.len() <= usize::MAX,
        None => aligned_dynamic_uniform_size(field.bytes.len() as int) <= usize::MAX,
    }
}

/// The changed bytes of an entry: what its field needs of the staging buffer this frame.
pub open spec fn entry_changed_size(entry: UniformArray) -> int {
    match entry {
        Some((_, status)) => status.changed_size as int,
        None => 0,
    }
}

/// The changed bytes of the first `k` entries together.
pub open spec fn staging_size(arrays: Seq<UniformArray>, k: int) -> int
    decreases k,
{
    if k <= 0 {
        0
    } else {
        staging_size(arrays, k - 1) + entry_changed_size(arrays[k - 1])
    }
}

/// A longer prefix needs no fewer staging bytes, and at least the changed bytes of each entry
/// in between more.
pub proof fn lemma_staging_size_monotonic(arrays: Seq<UniformArray>, i: int, k: int)
    requires
        0 <= i < k,
    ensures
        0 <= staging_size(arrays, i),
        staging_size(arrays, i) + entry_changed_size(arrays[i]) <= staging_size(arrays, k),
    decreases k,
{
    lemma_staging_size_nonnegative(arrays, i);
    if i < k - 1 {
        lemma_staging_size_monotonic(arrays, i, k - 1);
    }
}

proof fn lemma_staging_size_nonnegative(arrays: Seq<UniformArray>, k: int)
    ensures
        0 <= staging_size(arrays, k),
    decreases k,
{
    if k > 0 {
        lemma_staging_size_nonnegative(arrays, k - 1);
    }
}

/// The entry once its range of the staging buffer starts at `offset`.
pub open spec fn planned_entry(before: UniformArray, offset: usize) -> UniformArray {
    match before {
        Some((name, status)) => Some(
            (name, BufferArrayStatus { staging_buffer_offset: offset, ..status }),
        ),
        None => None,
    }
}

/// `after` is the entry once its buffer was grown where due (in dynamic mode) and its list of
/// queued writes was emptied; `table_after` is the backend after that.
pub open spec fn prepared_entry(
    before: UniformArray,
    dynamic_uniforms: bool,
    table: RenderResourceTable,
    after: UniformArray,
    table_after: RenderResourceTable,
) -> bool {
    match before {
        Some((name, status)) => {
            &&& after is Some
            &&& after.unwrap().0 == name
            &&& after.unwrap().1.queued_buffer_writes@ == Seq::<QueuedBufferWrite>::empty()
            &&& {
                let grown = BufferArrayStatus {
                    queued_buffer_writes: status.queued_buffer_writes,
                    ..after.unwrap().1
                };
                if dynamic_uniforms {
                    status.grown(true, table, &grown, table_after)
                } else {
                    grown == status && table_after == table
                }
            }
        },
        None => after is None && table_after == table,
    }
}

/// The backend after the first `k` entries were prepared: it holds one more buffer for each
/// entry that grew.
pub open spec fn table_after_setup(
    table: RenderResourceTable,
    before: Seq<UniformArray>,
    after: Seq<UniformArray>,
    dynamic_uniforms: bool,
    k: int,
) -> RenderResourceTable
    decreases k,
{
    if k <= 0 {
        table
    } else {
        let previous = table_after_setup(table, before, after, dynamic_uniforms, k - 1);
        if dynamic_uniforms && before[k - 1] is Some && before[k - 1].unwrap().1.needs_growth() {
            previous.with_buffer(
                after[k - 1].unwrap().1.buffer.unwrap(),
                before[k - 1].unwrap().1.grown_buffer_info(true),
            )
        } else {
            previous
        }
    }
}

proof fn lemma_table_after_setup_same(
    table: RenderResourceTable,
    before: Seq<UniformArray>,
    a: Seq<UniformArray>,
    b: Seq<UniformArray>,
    dynamic_uniforms: bool,
    k: int,
)
    requires
        k <= a.len(),
        k <= b.len(),
        forall|i: int| 0 <= i < k ==> #[trigger] a[i] == b[i],
    ensures
        table_after_setup(table, before, a, dynamic_uniforms, k) == table_after_setup(
            table,
            before,
            b,
            dynamic_uniforms,
            k,
        ),
    decreases k,
{
    if k > 0 {
        lemma_table_after_setup_same(table, before, a, b, dynamic_uniforms, k - 1);
        assert(a[k - 1] == b[k - 1]);
    }
}

/// The slot tables for the fields of the uniform type `T`, by field position.
pub struct UniformBufferArrays<T: RenderResources> {
    pub uniform_arrays: Vec<UniformArray>,
    pub _marker: PhantomData<T>,
}

impl<T: RenderResources> UniformBufferArrays<T> {
    /// The entry at position `i`, or nothing beyond the end.
    pub open spec fn entry(&self, i: int) -> UniformArray {
        entry_at(self.uniform_arrays@, i)
    }

    /// Every slot table is well formed.
    pub open spec fn wf(&self) -> bool {
        forall|i: int|
            0 <= i < self.uniform_arrays@.len() && (#[trigger] self.uniform_arrays@[i]) is Some
                ==> self.uniform_arrays@[i].unwrap().1.wf()
    }

    /// Every field that has a slot table in `self` has one in `later`, with the slot of every
    /// owner kept and the capacity not smaller.
    pub open spec fn slots_kept(&self, later: &Self) -> bool {
        &&& self.uniform_arrays@.len() <= later.uniform_arrays@.len()
        &&& forall|i: int|
            0 <= i < self.uniform_arrays@.len() && (#[trigger] self.uniform_arrays@[i]) is Some
                ==> later.uniform_arrays@[i] is Some
                && self.uniform_arrays@[i].unwrap().1.slots_kept(
                &later.uniform_arrays@[i].unwrap().1,
            )
    }

    /// Every slot is kept where nothing changes.
    pub proof fn lemma_slots_kept_reflexive(&self)
        ensures
            self.slots_kept(self),
    {
    }

    /// Slots that are kept from one state to a second, and from the second to a third, are
    /// kept from the first to the third: over any run of frames an owner keeps its slot, and
    /// no capacity shrinks.
    pub proof fn lemma_slots_kept_transitive(&self, between: &Self, later: &Self)
        requires
            self.slots_kept(between),
            between.slots_kept(later),
        ensures
            self.slots_kept(later),
    {
        assert forall|i: int|
            0 <= i < self.uniform_arrays@.len() && (#[trigger] self.uniform_arrays@[i]) is Some
            implies later.uniform_arrays@[i] is Some
                && self.uniform_arrays@[i].unwrap().1.slots_kept(
            &later.uniform_arrays@[i].unwrap().1,
        ) by {
            assert(between.uniform_arrays@[i] is Some);
        }
    }

    /// A manager that tracks no field yet.
    pub fn new() -> (arrays: Self)
        ensures
            arrays.wf(),
            arrays.uniform_arrays@ == Seq::<UniformArray>::empty(),
    {
        UniformBufferArrays { uniform_arrays: Vec::new(), _marker: PhantomData }
    }

    /// Clears the per-frame counters of every slot table.
    pub fn reset_changed_item_counts(&mut self)
        ensures
            final(self).uniform_arrays@.len() == old(self).uniform_arrays@.len(),
            forall|i: int|
                0 <= i < old(self).uniform_arrays@.len()
                    ==> #[trigger] final(self).uniform_arrays@[i]
                        == reset_entry(old(self).uniform_arrays@[i]),
            old(self).wf() ==> final(self).wf(),
            old(self).slots_kept(final(self)),
    {
        let mut i: usize = 0;
        while i < self.uniform_arrays.len()
            invariant
                i <= self.uniform_arrays@.len(),
                self.uniform_arrays@.len() == old(self).uniform_arrays@.len(),
                forall|j: int|
                    0 <= j < i ==> #[trigger] self.uniform_arrays@[j] == reset_entry(
                        old(self).uniform_arrays@[j],
                    ),
                forall|j: int|
                    i <= j < self.uniform_arrays@.len() ==> #[trigger] self.uniform_arrays@[j]
                        == old(self).uniform_arrays@[j],
            decreases self.uniform_arrays@.len() - i,
        {
            match &mut self.uniform_arrays[i] {
                Some((_name, buffer_status)) => {
                    buffer_status.changed_item_count = 0;
                    buffer_status.current_offset = 0;
                    buffer_status.changed_size = 0;
                },
                None => {},
            }
            i += 1;
        }
    }

    /// Counts one value: each of its buffer-backed fields adds one item and its byte length to
    /// the field's slot table, which is created where the field is seen for the first time.
    pub fn increment_changed_item_counts(&mut self, uniforms: &T)
        requires
            old(self).wf(),
            forall|i: int|
                0 <= i < uniforms.fields().len() ==> can_count(
                    old(self).entry(i),
                    #[trigger] uniforms.fields()[i],
                ),
        ensures
            final(self).wf(),
            final(self).uniform_arrays@.len() == (if old(self).uniform_arrays@.len()
                < uniforms.fields().len() {
                uniforms.fields().len()
            } else {
                old(self).uniform_arrays@.len()
            }),
            forall|i: int|
                0 <= i < uniforms.fields().len() ==> counted_entry(
                    old(self).entry(i),
                    uniforms.fields()[i],
                    #[trigger] final(self).uniform_arrays@[i],
                ),
            forall|i: int|
                uniforms.fields().len() <= i < old(self).uniform_arrays@.len()
                    ==> #[trigger] final(self).uniform_arrays@[i] == old(self).uniform_arrays@[i],
            old(self).slots_kept(final(self)),
    {
        let len = uniforms.render_resources_len();
        while self.uniform_arrays.len() < len
            invariant
                old(self).uniform_arrays@.len() <= self.uniform_arrays@.len(),
                self.uniform_arrays@.len() <= len
                    || self.uniform_arrays@.len() == old(self).uniform_arrays@.len(),
                forall|j: int|
                    0 <= j < self.uniform_arrays@.len() ==> #[trigger] self.uniform_arrays@[j]
                        == old(self).entry(j),
            decreases len - self.uniform_arrays@.len(),
        {
            self.uniform_arrays.push(None);
        }
        let mut i: usize = 0;
        while i < len
            invariant
                i <= len,
                len == uniforms.fields().len(),
                len <= self.uniform_arrays@.len(),
                self.uniform_arrays@.len() == (if old(self).uniform_arrays@.len() < len {
                    len as nat
                } else {
                    old(self).uniform_arrays@.len()
                }),
                old(self).wf(),
                forall|j: int|
                    0 <= j < uniforms.fields().len() ==> can_count(
                        old(self).entry(j),
                        #[trigger] uniforms.fields()[j],
                    ),
                forall|j: int|
                    0 <= j < i ==> counted_entry(
                        old(self).entry(j),
                        uniforms.fields()[j],
                        #[trigger] self.uniform_arrays@[j],
                    ),
                forall|j: int|
                    i <= j < self.uniform_arrays@.len() ==> #[trigger] self.uniform_arrays@[j]
                        == old(self).entry(j),
            decreases len - i,
        {
            let ghost field = uniforms.fields()[i as int];
            assert(can_count(old(self).entry(i as int), field));
            let is_buffer = match uniforms.resource_info(i) {
                Some(ResourceInfo::Buffer(_)) => true,
                _ => false,
            };
            if is_buffer {
                let render_resource_name = uniforms.get_render_resource_name(i).unwrap();
                let size = uniforms.buffer_byte_len(i).unwrap();
                let tracked_before = self.uniform_arrays[i].is_some();
                if tracked_before {
                    match &mut self.uniform_arrays[i] {
                        Some((_name, buffer_array_status)) => {
                            buffer_array_status.changed_item_count += 1;
                            buffer_array_status.changed_size += size;
                        },
                        None => {},
                    }
                } else {
                    self.uniform_arrays[i] = Some(
                        (
                            render_resource_name.to_owned(),
                            BufferArrayStatus {
                                changed_item_count: 1,
                                queued_buffer_writes: Vec::new(),
                                aligned_size: get_aligned_dynamic_uniform_size(size),
                                item_size: size,
                                staging_buffer_offset: 0,
                                buffer: None,
                                current_index: 0,
                                current_item_count: 0,
                                current_item_capacity: 0,
                                indices: HashMap::new(),
                                changed_size: size,
                                current_offset: 0,
                            },
                        ),
                    );
                }
            }
            i += 1;
        }
        proof {
            assert forall|j: int|
                0 <= j < self.uniform_arrays@.len() && (#[trigger] self.uniform_arrays@[j])
                    is Some implies self.uniform_arrays@[j].unwrap().1.wf() by {
                if j < len {
                    assert(counted_entry(
                        old(self).entry(j),
                        uniforms.fields()[j],
                        self.uniform_arrays@[j],
                    ));
                    if old(self).entry(j) is Some {
                        assert(old(self).uniform_arrays@[j].unwrap().1.wf());
                    }
                } else {
                    assert(old(self).uniform_arrays@[j].unwrap().1.wf());
                }
            }
            assert forall|j: int|
                0 <= j < old(self).uniform_arrays@.len()
                    && (#[trigger] old(self).uniform_arrays@[j]) is Some
                        implies self.uniform_arrays@[j] is Some
                            && old(self).uniform_arrays@[j].unwrap().1.slots_kept(
                            &self.uniform_arrays@[j].unwrap().1,
                        ) by {
                if j < len {
                    assert(counted_entry(
                        old(self).entry(j),
                        uniforms.fields()[j],
                        self.uniform_arrays@[j],
                    ));
                }
            }
        }
    }

    /// Grows the buffer of one slot table where this frame counted more items than it has
    /// slots. Slots keep their owners; the old buffer is replaced, not freed.
    pub fn setup_buffer_array<C: RenderResourceContext>(
        buffer_array_status: &mut BufferArrayStatus,
        render_resource_context: &mut C,
        align: bool,
    )
        requires
            old(buffer_array_status).wf(),
            old(buffer_array_status).can_grow(),
        ensures
            final(buffer_array_status).wf(),
            old(buffer_array_status).grown(
                align,
                old(render_resource_context).table(),
                final(buffer_array_status),
                final(render_resource_context).table(),
            ),
            old(buffer_array_status).slots_kept(final(buffer_array_status)),
    {
        if buffer_array_status.current_item_capacity < buffer_array_status.changed_item_count {
            let new_capacity = buffer_array_status.changed_item_count
                + buffer_array_status.changed_item_count / 2;
            let mut item_size = buffer_array_status.item_size;
            proof {
                lemma_aligned_size(item_size as int, 0);
                assert(item_size * new_capacity <= buffer_array_status.aligned_size
                    * new_capacity) by (nonlinear_arith)
                    requires
                        item_size <= buffer_array_status.aligned_size,
                ;
                assert(buffer_array_status.aligned_size * new_capacity == new_capacity
                    * buffer_array_status.aligned_size) by (nonlinear_arith);
            }
            if align {
                item_size = get_aligned_dynamic_uniform_size(item_size);
            }
            let total_size = item_size * new_capacity;
            let buffer = render_resource_context.create_buffer(
                BufferInfo {
                    size: total_size,
                    buffer_usage: BufferUsage { bits: COPY_DST | UNIFORM },
                },
            );
            buffer_array_status.current_item_capacity = new_capacity;
            buffer_array_status.buffer = Some(buffer);
        }
    }

    /// Every slot table that grows has a grown size that the machine can address.
    pub open spec fn can_grow(&self) -> bool {
        forall|i: int|
            0 <= i < self.uniform_arrays@.len() && (#[trigger] self.uniform_arrays@[i]) is Some
                ==> self.uniform_arrays@[i].unwrap().1.can_grow()
    }

    /// Prepares every slot table for this frame's writes: in dynamic mode the buffer grows
    /// where the counted items exceed the capacity; in either mode the list of queued writes
    /// starts empty.
    pub fn setup_buffer_arrays<C: RenderResourceContext>(
        &mut self,
        render_resource_context: &mut C,
        dynamic_uniforms: bool,
    )
        requires
            old(self).wf(),
            dynamic_uniforms ==> old(self).can_grow(),
        ensures
            final(self).wf(),
            final(self).uniform_arrays@.len() == old(self).uniform_arrays@.len(),
            forall|i: int|
                0 <= i < old(self).uniform_arrays@.len() ==> prepared_entry(
                    old(self).uniform_arrays@[i],
                    dynamic_uniforms,
                    table_after_setup(
                        old(render_resource_context).table(),
                        old(self).uniform_arrays@,
                        final(self).uniform_arrays@,
                        dynamic_uniforms,
                        i,
                    ),
                    #[trigger] final(self).uniform_arrays@[i],
                    table_after_setup(
                        old(render_resource_context).table(),
                        old(self).uniform_arrays@,
                        final(self).uniform_arrays@,
                        dynamic_uniforms,
                        i + 1,
                    ),
                ),
            final(render_resource_context).table() == table_after_setup(
                old(render_resource_context).table(),
                old(self).uniform_arrays@,
                final(self).uniform_arrays@,
                dynamic_uniforms,
                old(self).uniform_arrays@.len() as int,
            ),
            old(self).slots_kept(final(self)),
    {
        let ghost table = render_resource_context.table();
        let ghost before = self.uniform_arrays@;
        let mut i: usize = 0;
        while i < self.uniform_arrays.len()
            invariant
                i <= self.uniform_arrays@.len(),
                before == old(self).uniform_arrays@,
                table == old(render_resource_context).table(),
                self.uniform_arrays@.len() == before.len(),
                old(self).wf(),
                dynamic_uniforms ==> old(self).can_grow(),
                forall|j: int|
                    0 <= j < i ==> prepared_entry(
                        before[j],
                        dynamic_uniforms,
                        table_after_setup(table, before, self.uniform_arrays@, dynamic_uniforms, j),
                        #[trigger] self.uniform_arrays@[j],
                        table_after_setup(
                            table,
                            before,
                            self.uniform_arrays@,
                            dynamic_uniforms,
                            j + 1,
                        ),
                    ),
                forall|j: int|
                    0 <= j < i && (#[trigger] self.uniform_arrays@[j]) is Some ==> before[j] is Some
                        && self.uniform_arrays@[j].unwrap().1.wf()
                            && before[j].unwrap().1.slots_kept(
                        &self.uniform_arrays@[j].unwrap().1,
                    ),
                forall|j: int|
                    i <= j < before.len() ==> #[trigger] self.uniform_arrays@[j] == before[j],
                render_resource_context.table() == table_after_setup(
                    table,
                    before,
                    self.uniform_arrays@,
                    dynamic_uniforms,
                    i as int,
                ),
            decreases self.uniform_arrays@.len() - i,
        {
            let ghost entries = self.uniform_arrays@;
            let ghost table_here = render_resource_context.table();
            assert(before[i as int] is Some ==> before[i as int].unwrap().1.wf());
            match &mut self.uniform_arrays[i] {
                Some((_name, buffer_array_status)) => {
                    if dynamic_uniforms {
                        Self::setup_buffer_array(
                            buffer_array_status,
                            render_resource_context,
                            true,
                        );
                    }
                    buffer_array_status.queued_buffer_writes = Vec::with_capacity(
                        buffer_array_status.changed_item_count,
                    );
                },
                None => {},
            }
            proof {
                let now = self.uniform_arrays@;
                assert forall|j: int| 0 <= j <= i implies table_after_setup(
                    table,
                    before,
                    now,
                    dynamic_uniforms,
                    j,
                ) == table_after_setup(table, before, entries, dynamic_uniforms, j) by {
                    lemma_table_after_setup_same(table, before, now, entries, dynamic_uniforms, j);
                }
                assert(table_after_setup(table, before, entries, dynamic_uniforms, i as int)
                    == table_here);
                assert forall|j: int| 0 <= j < i implies prepared_entry(
                    before[j],
                    dynamic_uniforms,
                    table_after_setup(table, before, now, dynamic_uniforms, j),
                    #[trigger] now[j],
                    table_after_setup(table, before, now, dynamic_uniforms, j + 1),
                ) by {
                    assert(now[j] == entries[j]);
                }
            }
            i += 1;
        }
    }

    /// Gives every slot table its range of the staging buffer, one after the other in field
    /// order, and returns the size that the staging buffer needs.
    pub fn update_staging_buffer_offsets(&mut self) -> (size: usize)
        requires
            staging_size(old(self).uniform_arrays@, old(self).uniform_arrays@.len() as int)
                <= usize::MAX,
        ensures
            size == staging_size(old(self).uniform_arrays@, old(self).uniform_arrays@.len() as int),
            final(self).uniform_arrays@.len() == old(self).uniform_arrays@.len(),
            forall|i: int|
                0 <= i < old(self).uniform_arrays@.len()
                    ==> #[trigger] final(self).uniform_arrays@[i]
                    == planned_entry(
                    old(self).uniform_arrays@[i],
                    staging_size(old(self).uniform_arrays@, i) as usize,
                ),
            old(self).wf() ==> final(self).wf(),
            old(self).slots_kept(final(self)),
    {
        let ghost before = self.uniform_arrays@;
        let mut size: usize = 0;
        let mut i: usize = 0;
        while i < self.uniform_arrays.len()
            invariant
                i <= self.uniform_arrays@.len(),
                before == old(self).uniform_arrays@,
                self.uniform_arrays@.len() == before.len(),
                staging_size(before, before.len() as int) <= usize::MAX,
                size == staging_size(before, i as int),
                forall|j: int|
                    0 <= j < i ==> #[trigger] self.uniform_arrays@[j] == planned_entry(
                        before[j],
                        staging_size(before, j) as usize,
                    ),
                forall|j: int|
                    i <= j < before.len() ==> #[trigger] self.uniform_arrays@[j] == before[j],
            decreases self.uniform_arrays@.len() - i,
        {
            proof {
                lemma_staging_size_monotonic(before, i as int, before.len() as int);
            }
            match &mut self.uniform_arrays[i] {
                Some((_name, buffer_array_status)) => {
                    buffer_array_status.staging_buffer_offset = size;
                    size += buffer_array_status.changed_size;
                },
                None => {},
            }
            i += 1;
        }
        size
    }
}

impl<T: RenderResources> Default for UniformBufferArrays<T> {
    /// A manager that tracks no field yet.
    fn default() -> (arrays: Self)
        ensures
            arrays.wf(),
            arrays.uniform_arrays@ == Seq::<UniformArray>::empty(),
    {
        UniformBufferArrays::new()
    }
}

} // verus!
