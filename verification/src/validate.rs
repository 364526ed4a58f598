//! Finding out, before a frame is packed, whether it can be packed, and why not if it cannot.

use vstd::prelude::*;
use std::collections::HashMap;
use crate::assignments::RenderResourceAssignments;
use crate::render_resource::RenderResourceAssignmentsId;
use crate::frame::{
    can_pack, capacity_after, entry_can_pack, entry_sizes_fit, entry_sizes_uniform,
    entry_slots_suffice, item_size_of, lemma_total_bytes_monotonic, total_bytes,
};
use crate::packing::{
    bytes_at, count_at, fields_len, first_field, items_of, lemma_counts_monotonic, owners_of,
    slots_suffice, slots_through,
};
use crate::render_resource::{
    aligned_dynamic_uniform_size, get_aligned_dynamic_uniform_size, ResourceInfo,
};
use crate::uniform_buffer_arrays::{entry_at, is_buffer_at, UniformArray, UniformBufferArrays};
use crate::uniforms::{RenderResourceField, RenderResources};

verus! {

/// Why a frame cannot be packed.
#[derive(Clone, Copy, Debug, PartialEq, Eq)]
pub enum PackError {
    /// A buffer, or the staging buffer, would be larger than the machine can address.
    SizeOverflow,
    /// In dynamic mode, a value has a field in another size than the item size of the field.
    FieldSizeMismatch,
    /// In dynamic mode, an owner needs a slot and the buffer of a field has none left.
    NoEmptySlot,
}

/// Every size that the frame needs can be addressed.
pub open spec fn sizes_fit(
    arrays: Seq<UniformArray>,
    items: Seq<Seq<RenderResourceField>>,
    dynamic_uniforms: bool,
    k: int,
) -> bool {
    &&& total_bytes(items, k, fields_len(arrays.len() as int, items, k)) <= usize::MAX
    &&& forall|i: int|
        0 <= i < fields_len(arrays.len() as int, items, k) ==> #[trigger] entry_sizes_fit(
            entry_at(arrays, i),
            items,
            i,
            dynamic_uniforms,
            k,
        )
}

/// Every field has one size in all the values.
pub open spec fn sizes_uniform(
    arrays: Seq<UniformArray>,
    items: Seq<Seq<RenderResourceField>>,
    k: int,
) -> bool {
    forall|i: int|
        0 <= i < fields_len(arrays.len() as int, items, k) ==> #[trigger] entry_sizes_uniform(
            entry_at(arrays, i),
            items,
            i,
            k,
        )
}

/// Every owner finds a slot in every field.
pub open spec fn slots_fit(
    arrays: Seq<UniformArray>,
    items: Seq<Seq<RenderResourceField>>,
    owners: Seq<RenderResourceAssignmentsId>,
    dynamic_uniforms: bool,
    k: int,
) -> bool {
    forall|i: int|
        0 <= i < fields_len(arrays.len() as int, items, k) ==> #[trigger] entry_slots_suffice(
            entry_at(arrays, i),
            items,
            owners,
            i,
            dynamic_uniforms,
            k,
        )
}

/// What keeps the first `k` values from being packed, if anything: a size that cannot be
/// addressed; else, in dynamic mode, a field of differing sizes; else, in dynamic mode, a
/// buffer without a free slot for an owner.
pub open spec fn pack_error(
    arrays: Seq<UniformArray>,
    items: Seq<Seq<RenderResourceField>>,
    owners: Seq<RenderResourceAssignmentsId>,
    dynamic_uniforms: bool,
    k: int,
) -> Option<PackError> {
    if !sizes_fit(arrays, items, dynamic_uniforms, k) {
        Some(PackError::SizeOverflow)
    } else if dynamic_uniforms && !sizes_uniform(arrays, items, k) {
        Some(PackError::FieldSizeMismatch)
    } else if dynamic_uniforms && !slots_fit(arrays, items, owners, dynamic_uniforms, k) {
        Some(PackError::NoEmptySlot)
    } else {
        None
    }
}

/// A frame can be packed exactly if nothing keeps it from being packed.
pub proof fn lemma_pack_error(
    arrays: Seq<UniformArray>,
    items: Seq<Seq<RenderResourceField>>,
    owners: Seq<RenderResourceAssignmentsId>,
    dynamic_uniforms: bool,
    k: int,
)
    ensures
        pack_error(arrays, items, owners, dynamic_uniforms, k) is None <==> can_pack(
            arrays,
            items,
            owners,
            dynamic_uniforms,
            k,
        ),
{
    let len = fields_len(arrays.len() as int, items, k);
    if can_pack(arrays, items, owners, dynamic_uniforms, k) {
        assert forall|i: int| 0 <= i < len implies #[trigger] entry_sizes_fit(
            entry_at(arrays, i),
            items,
            i,
            dynamic_uniforms,
            k,
        ) by {
            assert(entry_can_pack(entry_at(arrays, i), items, owners, i, dynamic_uniforms, k));
        }
        if dynamic_uniforms {
            assert forall|i: int| 0 <= i < len implies #[trigger] entry_sizes_uniform(
                entry_at(arrays, i),
                items,
                i,
                k,
            ) by {
                assert(entry_can_pack(entry_at(arrays, i), items, owners, i, dynamic_uniforms, k));
            }
            assert forall|i: int| 0 <= i < len implies #[trigger] entry_slots_suffice(
                entry_at(arrays, i),
                items,
                owners,
                i,
                dynamic_uniforms,
                k,
            ) by {
                assert(entry_can_pack(entry_at(arrays, i), items, owners, i, dynamic_uniforms, k));
            }
        }
    }
    if pack_error(arrays, items, owners, dynamic_uniforms, k) is None {
        assert forall|i: int| 0 <= i < len implies #[trigger] entry_can_pack(
            entry_at(arrays, i),
            items,
            owners,
            i,
            dynamic_uniforms,
            k,
        ) by {
            assert(entry_sizes_fit(entry_at(arrays, i), items, i, dynamic_uniforms, k));
            if dynamic_uniforms {
                assert(entry_sizes_uniform(entry_at(arrays, i), items, i, k));
                assert(entry_slots_suffice(
                    entry_at(arrays, i),
                    items,
                    owners,
                    i,
                    dynamic_uniforms,
                    k,
                ));
            }
        }
    }
}

/// What one field asks of a frame.
pub struct FieldDemand {
    /// How many values have the field buffer-backed.
    pub count: usize,
    /// The bytes of the field in all the values, unless they are too many to count.
    pub bytes: Option<usize>,
    /// The byte length of the field in the first value that has it buffer-backed.
    pub first_len: usize,
    /// Whether the field has the expected size in every value.
    pub uniform: bool,
}

/// The item size that a field is held to: the given one, or the size in the first value.
pub open spec fn expected_size(
    item_size: Option<usize>,
    items: Seq<Seq<RenderResourceField>>,
    i: int,
    k: int,
) -> int {
    match item_size {
        Some(size) => size as int,
        None => first_field(items, i, k).bytes.len() as int,
    }
}

/// Where no value was counted for a field, no value has the field buffer-backed.
proof fn lemma_none_counted(items: Seq<Seq<RenderResourceField>>, i: int, k: int)
    requires
        count_at(items, i, k) == 0,
    ensures
        forall|e: int| #![trigger items[e]] 0 <= e < k ==> !is_buffer_at(items[e], i),
    decreases k,
{
    if k > 0 {
        lemma_counts_monotonic(items, i, 0, k - 1);
        lemma_none_counted(items, i, k - 1);
    }
}

/// Sums up what field `i` asks of the first `count` values.
pub fn measure_field<T: RenderResources>(
    uniforms: &Vec<&T>,
    i: usize,
    count: usize,
    item_size: Option<usize>,
) -> (demand: FieldDemand)
    requires
        count <= uniforms@.len(),
    ensures
        demand.count == count_at(items_of(uniforms@), i as int, count as int),
        demand.bytes == (if bytes_at(items_of(uniforms@), i as int, count as int) <= usize::MAX {
            Some(bytes_at(items_of(uniforms@), i as int, count as int) as usize)
        } else {
            None
        }),
        demand.count > 0 ==> demand.first_len == first_field(
            items_of(uniforms@),
            i as int,
            count as int,
        ).bytes.len(),
        demand.uniform <==> forall|j: int|
            #![trigger items_of(uniforms@)[j]]
            0 <= j < count && is_buffer_at(items_of(uniforms@)[j], i as int) ==> items_of(
                uniforms@,
            )[j][i as int].bytes.len() == expected_size(
                item_size,
                items_of(uniforms@),
                i as int,
                count as int,
            ),
{
    let ghost items = items_of(uniforms@);
    let mut found: usize = 0;
    let mut bytes: Option<usize> = Some(0);
    let mut first_len: usize = 0;
    let mut uniform = true;
    let mut j: usize = 0;
    while j < count
        invariant
            j <= count,
            count <= uniforms@.len(),
            items == items_of(uniforms@),
            found == count_at(items, i as int, j as int),
            bytes == (if bytes_at(items, i as int, j as int) <= usize::MAX {
                Some(bytes_at(items, i as int, j as int) as usize)
            } else {
                None
            }),
            found > 0 ==> first_len == first_field(items, i as int, j as int).bytes.len(),
            uniform <==> forall|e: int|
                #![trigger items[e]]
                0 <= e < j && is_buffer_at(items[e], i as int) ==> items[e][i as int].bytes.len()
                    == (match item_size {
                    Some(size) => size as int,
                    None => first_len as int,
                }),
        decreases count - j,
    {
        proof {
            lemma_counts_monotonic(items, i as int, 0, j as int);
            lemma_counts_monotonic(items, i as int, j as int, j + 1);
            assert(items[j as int] == uniforms@[j as int].fields());
            if found == 0 {
                lemma_none_counted(items, i as int, j as int);
            }
        }
        let is_buffer = match uniforms[j].resource_info(i) {
            Some(ResourceInfo::Buffer(_)) => true,
            _ => false,
        };
        if is_buffer {
            let len = uniforms[j].buffer_byte_len(i).unwrap();
            if found == 0 {
                first_len = len;
            }
            let expected = match item_size {
                Some(size) => size,
                None => first_len,
            };
            if len != expected {
                uniform = false;
            }
            found += 1;
            bytes = match bytes {
                Some(sum) => sum.checked_add(len),
                None => None,
            };
        }
        j += 1;
    }
    proof {
        if found == 0 {
            lemma_none_counted(items, i as int, count as int);
        }
    }
    FieldDemand { count: found, bytes, first_len, uniform }
}

/// The aligned size of `len` bytes can be addressed exactly if `len` lies at least one
/// alignment unit, less one byte, below the greatest size.
pub proof fn lemma_aligned_fits(len: usize)
    ensures
        aligned_dynamic_uniform_size(len as int) <= usize::MAX <==> len <= usize::MAX - 255,
{
    assert(usize::MAX == 0xffff_ffff || usize::MAX == 0xffff_ffff_ffff_ffff) by {
        assert(usize::BITS == 32 || usize::BITS == 64);
    }
}

/// Finds out whether every one of the first `count` values that has field `i` buffer-backed
/// finds a slot for its owner, in a slot table that has `capacity` slots.
pub fn owners_find_slots<T: RenderResources>(
    indices: &HashMap<u64, usize>,
    next: usize,
    capacity: usize,
    uniforms: &Vec<&T>,
    owners: &Vec<RenderResourceAssignmentsId>,
    i: usize,
    count: usize,
) -> (enough: bool)
    requires
        count <= uniforms@.len(),
        uniforms@.len() == owners@.len(),
    ensures
        enough == slots_suffice(
            indices@,
            next as int,
            capacity as int,
            items_of(uniforms@),
            owners@,
            i as int,
            count as int,
        ),
{
    broadcast use vstd::std_specs::hash::group_hash_axioms;

    let ghost items = items_of(uniforms@);
    let mut slots = indices.clone();
    let mut free = next;
    let mut j: usize = 0;
    while j < count
        invariant
            j <= count,
            count <= uniforms@.len(),
            uniforms@.len() == owners@.len(),
            items == items_of(uniforms@),
            slots_through(indices@, next as int, items, owners@, i as int, j as int) == (
                slots@,
                free as int,
            ),
            forall|e: int|
                #![trigger items[e]]
                0 <= e < j && is_buffer_at(items[e], i as int) ==> {
                    let earlier = slots_through(indices@, next as int, items, owners@, i as int, e);
                    earlier.0.contains_key(owners@[e].0) || earlier.1 < capacity
                },
        decreases count - j,
    {
        assert(items[j as int] == uniforms@[j as int].fields());
        let is_buffer = match uniforms[j].resource_info(i) {
            Some(ResourceInfo::Buffer(_)) => true,
            _ => false,
        };
        if is_buffer {
            let owner = owners[j].0;
            if !slots.contains_key(&owner) {
                if free >= capacity {
                    return false;
                }
                slots.insert(owner, free);
                free += 1;
            }
        }
        assert(slots_through(indices@, next as int, items, owners@, i as int, j + 1).0 =~= slots@);
        j += 1;
    }
    true
}

/// The greatest number of fields that one of the first `count` values has, or `len` if that
/// is more.
pub fn greatest_fields_len<T: RenderResources>(len: usize, uniforms: &Vec<&T>, count: usize) -> (
    greatest: usize
)
    requires
        count <= uniforms@.len(),
    ensures
        greatest == fields_len(len as int, items_of(uniforms@), count as int),
{
    let mut greatest = len;
    let mut j: usize = 0;
    while j < count
        invariant
            j <= count,
            count <= uniforms@.len(),
            greatest == fields_len(len as int, items_of(uniforms@), j as int),
        decreases count - j,
    {
        assert(items_of(uniforms@)[j as int] == uniforms@[j as int].fields());
        let fields = uniforms[j].render_resources_len();
        if greatest < fields {
            greatest = fields;
        }
        j += 1;
    }
    greatest
}

/// Finds out whether what field `i` needs for the first `count` values can be addressed,
/// and which capacity its buffer has after the frame.
fn field_sizes_fit(
    entry: &UniformArray,
    demand: &FieldDemand,
    dynamic_uniforms: bool,
    Ghost(items): Ghost<Seq<Seq<RenderResourceField>>>,
    Ghost(i): Ghost<int>,
    Ghost(k): Ghost<int>,
) -> (fit: Option<usize>)
    requires
        0 <= k,
        entry is Some ==> entry.unwrap().1.wf(),
        demand.count == count_at(items, i, k),
        demand.count > 0 ==> demand.first_len == first_field(items, i, k).bytes.len(),
    ensures
        fit is Some <==> entry_sizes_fit(*entry, items, i, dynamic_uniforms, k),
        fit is Some ==> fit.unwrap() == capacity_after(*entry, items, i, dynamic_uniforms, k),
{
    let (aligned, capacity) = match entry {
        Some((_name, status)) => (status.aligned_size, status.current_item_capacity),
        None => {
            if demand.count > 0 {
                proof {
                    lemma_aligned_fits(demand.first_len);
                }
                if demand.first_len > usize::MAX - 255 {
                    return None;
                }
                (get_aligned_dynamic_uniform_size(demand.first_len), 0)
            } else {
                (0, 0)
            }
        },
    };
    if dynamic_uniforms && capacity < demand.count {
        let grown = match demand.count.checked_add(demand.count / 2) {
            Some(grown) => grown,
            None => {
                return None;
            },
        };
        match grown.checked_mul(aligned) {
            Some(_) => Some(grown),
            None => None,
        }
    } else {
        Some(capacity)
    }
}

/// Finds out what keeps the first `count` values from being packed, if anything.
pub fn find_pack_error<T: RenderResources>(
    uniform_buffer_arrays: &UniformBufferArrays<T>,
    uniforms: &Vec<&T>,
    owners: &Vec<RenderResourceAssignmentsId>,
    dynamic_uniforms: bool,
    count: usize,
) -> (error: Option<PackError>)
    requires
        uniform_buffer_arrays.wf(),
        count <= uniforms@.len(),
        uniforms@.len() == owners@.len(),
    ensures
        error == pack_error(
            uniform_buffer_arrays.uniform_arrays@,
            items_of(uniforms@),
            owners@,
            dynamic_uniforms,
            count as int,
        ),
        error is None <==> can_pack(
            uniform_buffer_arrays.uniform_arrays@,
            items_of(uniforms@),
            owners@,
            dynamic_uniforms,
            count as int,
        ),
{
    let ghost arrays = uniform_buffer_arrays.uniform_arrays@;
    let ghost items = items_of(uniforms@);
    let ghost k = count as int;
    let len = greatest_fields_len(uniform_buffer_arrays.uniform_arrays.len(), uniforms, count);
    let untracked: UniformArray = None;
    let no_slots: HashMap<u64, usize> = HashMap::new();
    let mut total: Option<usize> = Some(0);
    let mut all_fit = true;
    let mut all_uniform = true;
    let mut all_slots = true;
    let mut i: usize = 0;
    while i < len
        invariant
            i <= len,
            len == fields_len(arrays.len() as int, items, k),
            arrays == uniform_buffer_arrays.uniform_arrays@,
            items == items_of(uniforms@),
            k == count,
            count <= uniforms@.len(),
            uniforms@.len() == owners@.len(),
            uniform_buffer_arrays.wf(),
            untracked is None,
            no_slots@ == Map::<u64, usize>::empty(),
            total == (if total_bytes(items, k, i as int) <= usize::MAX {
                Some(total_bytes(items, k, i as int) as usize)
            } else {
                None
            }),
            all_fit <==> forall|f: int|
                0 <= f < i ==> #[trigger] entry_sizes_fit(
                    entry_at(arrays, f),
                    items,
                    f,
                    dynamic_uniforms,
                    k,
                ),
            all_uniform <==> forall|f: int|
                0 <= f < i ==> #[trigger] entry_sizes_uniform(entry_at(arrays, f), items, f, k),
            all_fit && dynamic_uniforms ==> (all_slots <==> forall|f: int|
                0 <= f < i ==> #[trigger] entry_slots_suffice(
                    entry_at(arrays, f),
                    items,
                    owners@,
                    f,
                    dynamic_uniforms,
                    k,
                )),
        decreases len - i,
    {
        let entry = if i < uniform_buffer_arrays.uniform_arrays.len() {
            &uniform_buffer_arrays.uniform_arrays[i]
        } else {
            &untracked
        };
        assert(*entry == entry_at(arrays, i as int));
        let item_size = match entry {
            Some((_name, status)) => Some(status.item_size),
            None => None,
        };
        let demand = measure_field(uniforms, i, count, item_size);
        proof {
            lemma_counts_monotonic(items, i as int, 0, k);
            assert(expected_size(item_size, items, i as int, k) == item_size_of(
                *entry,
                items,
                i as int,
                k,
            ));
        }
        total = match (total, demand.bytes) {
            (Some(sum), Some(bytes)) => sum.checked_add(bytes),
            _ => None,
        };
        let fit = field_sizes_fit(
            entry,
            &demand,
            dynamic_uniforms,
            Ghost(items),
            Ghost(i as int),
            Ghost(k),
        );
        assert(demand.uniform == entry_sizes_uniform(*entry, items, i as int, k));
        if !demand.uniform {
            all_uniform = false;
        }
        match fit {
            Some(capacity) => {
                if dynamic_uniforms && all_fit {
                    let enough = match entry {
                        Some((_name, status)) => owners_find_slots(
                            &status.indices,
                            status.current_index,
                            capacity,
                            uniforms,
                            owners,
                            i,
                            count,
                        ),
                        None => owners_find_slots(
                            &no_slots,
                            0,
                            capacity,
                            uniforms,
                            owners,
                            i,
                            count,
                        ),
                    };
                    assert(enough == entry_slots_suffice(
                        *entry,
                        items,
                        owners@,
                        i as int,
                        dynamic_uniforms,
                        k,
                    ));
                    if !enough {
                        all_slots = false;
                    }
                }
            },
            None => {
                all_fit = false;
            },
        }
        proof {
            lemma_total_bytes_nonnegative_to(items, k, i as int);
        }
        i += 1;
    }
    proof {
        lemma_pack_error(arrays, items, owners@, dynamic_uniforms, k);
    }
    if !all_fit || total.is_none() {
        Some(PackError::SizeOverflow)
    } else if dynamic_uniforms && !all_uniform {
        Some(PackError::FieldSizeMismatch)
    } else if dynamic_uniforms && !all_slots {
        Some(PackError::NoEmptySlot)
    } else {
        None
    }
}

proof fn lemma_total_bytes_nonnegative_to(items: Seq<Seq<RenderResourceField>>, k: int, l: int)
    requires
        0 <= k,
        0 <= l,
    ensures
        0 <= total_bytes(items, k, l),
        0 <= bytes_at(items, l, k),
        total_bytes(items, k, l + 1) == total_bytes(items, k, l) + bytes_at(items, l, k),
{
    lemma_total_bytes_monotonic(items, k, l, l + 1);
    lemma_counts_monotonic(items, l, 0, k);
}

/// The owner of each binding table of a list.
pub fn owner_ids(assignments: &Vec<RenderResourceAssignments>) -> (owners: Vec<
    RenderResourceAssignmentsId,
>)
    ensures
        owners@ == owners_of(assignments@),
{
    let mut owners: Vec<RenderResourceAssignmentsId> = Vec::new();
    let mut k: usize = 0;
    while k < assignments.len()
        invariant
            k <= assignments@.len(),
            owners@.len() == k,
            forall|j: int| 0 <= j < k ==> owners@[j] == assignments@[j].id,
        decreases assignments@.len() - k,
    {
        owners.push(assignments[k].id);
        k += 1;
    }
    assert(owners@ =~= owners_of(assignments@));
    owners
}

} // verus!
