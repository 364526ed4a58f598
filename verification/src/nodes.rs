//! The two packing nodes: one packs the uniform values of scene objects, the other packs each
//! asset once and hands its bindings to every object that refers to it.

use vstd::prelude::*;
use std::collections::HashMap;
use crate::assignments::RenderResourceAssignments;
use crate::command_queue::{Command, CommandQueue};
use crate::frame::{can_pack, pack_uniforms, packed, PackPasses};
use crate::packing::{items_of, owners_of};
use crate::render_resource::{RenderResourceAssignment, RenderResourceAssignmentsId};
use crate::renderer::{RenderResourceContext, RenderResourceTable};
use crate::uniform_buffer_arrays::{UniformArray, UniformBufferArrays};
use crate::uniforms::{RenderResourceField, RenderResources};
use crate::validate::{find_pack_error, owner_ids, pack_error, PackError};

verus! {

/// The number of objects at the head of the first `k` that are visible without a gap.
pub open spec fn leading_visible(visible: Seq<bool>, k: int) -> int
    decreases k,
{
    if k <= 0 {
        0
    } else {
        let earlier = leading_visible(visible, k - 1);
        if earlier == k - 1 && visible[k - 1] {
            k
        } else {
            earlier
        }
    }
}

/// The visible objects at the head of the list end at `n`: all before `n` are visible, and the
/// one at `n`, if there is one, is not.
pub proof fn lemma_leading_visible(visible: Seq<bool>, n: int, k: int)
    requires
        0 <= n <= k <= visible.len(),
        forall|j: int| 0 <= j < n ==> visible[j],
        n < visible.len() ==> !visible[n],
    ensures
        leading_visible(visible, k) == n,
        leading_visible(visible, n) == n,
    decreases k,
{
    if k > n {
        lemma_leading_visible(visible, n, k - 1);
    } else if n > 0 {
        lemma_leading_visible_all(visible, n);
    }
}

proof fn lemma_leading_visible_all(visible: Seq<bool>, n: int)
    requires
        0 <= n <= visible.len(),
        forall|j: int| 0 <= j < n ==> visible[j],
    ensures
        leading_visible(visible, n) == n,
    decreases n,
{
    if n > 0 {
        lemma_leading_visible_all(visible, n - 1);
    }
}

/// Counts the objects at the head of the list that are visible without a gap.
pub fn count_leading_visible(visible: &Vec<bool>) -> (count: usize)
    ensures
        count == leading_visible(visible@, visible@.len() as int),
        count <= visible@.len(),
{
    let mut count: usize = 0;
    while count < visible.len() && visible[count]
        invariant
            count <= visible@.len(),
            forall|j: int| 0 <= j < count ==> visible@[j],
        decreases visible@.len() - count,
    {
        count += 1;
    }
    proof {
        lemma_leading_visible(visible@, count as int, visible@.len() as int);
    }
    count
}

/// Packs the uniform values of type `T` that scene objects carry.
pub struct RenderResourcesNode<T: RenderResources> {
    pub command_queue: CommandQueue,
    pub dynamic_uniforms: bool,
    pub uniform_buffer_arrays: UniformBufferArrays<T>,
}

impl<T: RenderResources> RenderResourcesNode<T> {
    /// A node that packs into shared, dynamically indexed buffers if `dynamic_uniforms`, and
    /// into one buffer per owner and field otherwise.
    pub fn new(dynamic_uniforms: bool) -> (node: Self)
        ensures
            node.dynamic_uniforms == dynamic_uniforms,
            node.command_queue@ == Seq::<Command>::empty(),
            node.uniform_buffer_arrays.uniform_arrays@ == Seq::<UniformArray>::empty(),
            node.uniform_buffer_arrays.wf(),
    {
        RenderResourcesNode {
            command_queue: CommandQueue::new(),
            dynamic_uniforms,
            uniform_buffer_arrays: UniformBufferArrays::new(),
        }
    }

    /// Hands out the commands that the frames since the last call have queued, in their
    /// order, for the caller to run against the backend; each command is handed out once.
    pub fn update(&mut self) -> (commands: Vec<Command>)
        ensures
            commands@ == old(self).command_queue@,
            final(self).command_queue@ == Seq::<Command>::empty(),
            final(self).uniform_buffer_arrays == old(self).uniform_buffer_arrays,
            final(self).dynamic_uniforms == old(self).dynamic_uniforms,
    {
        self.command_queue.drain()
    }

    /// Packs one frame: the values of the objects at the head of the list, up to the first
    /// object that is not visible. `uniforms`, `visible` and `assignments` hold, position by
    /// position, the value, the visibility and the binding table of each object.
    pub fn run_system<C: RenderResourceContext>(
        &mut self,
        render_resources: &mut C,
        uniforms: &Vec<&T>,
        visible: &Vec<bool>,
        assignments: &mut Vec<RenderResourceAssignments>,
    )
        requires
            old(self).uniform_buffer_arrays.wf(),
            uniforms@.len() == visible@.len(),
            uniforms@.len() == old(assignments)@.len(),
            forall|k: int|
                0 <= k < leading_visible(visible@, visible@.len() as int) ==> (
                #[trigger] old(assignments)@[k]).wf(),
            can_pack(
                old(self).uniform_buffer_arrays.uniform_arrays@,
                items_of(uniforms@),
                owners_of(old(assignments)@),
                old(self).dynamic_uniforms,
                leading_visible(visible@, visible@.len() as int),
            ),
        ensures
            final(self).uniform_buffer_arrays.wf(),
            final(self).dynamic_uniforms == old(self).dynamic_uniforms,
            old(self).uniform_buffer_arrays.slots_kept(&final(self).uniform_buffer_arrays),
            forall|k: int|
                0 <= k < leading_visible(visible@, visible@.len() as int) ==> (
                #[trigger] final(assignments)@[k]).wf()
                    && final(assignments)@[k].id == old(assignments)@[k].id,
            exists|passes: PackPasses| #[trigger]
                packed(
                    old(self).uniform_buffer_arrays.uniform_arrays@,
                    old(render_resources).table(),
                    old(self).command_queue@,
                    old(assignments)@,
                    items_of(uniforms@),
                    old(self).dynamic_uniforms,
                    leading_visible(visible@, visible@.len() as int),
                    passes,
                    final(self).uniform_buffer_arrays.uniform_arrays@,
                    final(render_resources).table(),
                    final(self).command_queue@,
                    final(assignments)@,
                ),
    {
        let count = count_leading_visible(visible);
        let dynamic_uniforms = self.dynamic_uniforms;
        pack_uniforms(
            &mut self.uniform_buffer_arrays,
            &mut self.command_queue,
            dynamic_uniforms,
            render_resources,
            uniforms,
            assignments,
            count,
        );
        proof {
            let passes = choose|passes: PackPasses| #[trigger]
                packed(
                    old(self).uniform_buffer_arrays.uniform_arrays@,
                    old(render_resources).table(),
                    old(self).command_queue@,
                    old(assignments)@,
                    items_of(uniforms@),
                    dynamic_uniforms,
                    count as int,
                    passes,
                    self.uniform_buffer_arrays.uniform_arrays@,
                    render_resources.table(),
                    self.command_queue@,
                    assignments@,
                );
            assert(packed(
                old(self).uniform_buffer_arrays.uniform_arrays@,
                old(render_resources).table(),
                old(self).command_queue@,
                old(assignments)@,
                items_of(uniforms@),
                old(self).dynamic_uniforms,
                leading_visible(visible@, visible@.len() as int),
                passes,
                self.uniform_buffer_arrays.uniform_arrays@,
                render_resources.table(),
                self.command_queue@,
                assignments@,
            ));
        }
    }

    /// Packs one frame as `run_system` does if the frame can be packed, and else changes
    /// nothing and says what keeps the frame from being packed.
    pub fn try_run_system<C: RenderResourceContext>(
        &mut self,
        render_resources: &mut C,
        uniforms: &Vec<&T>,
        visible: &Vec<bool>,
        assignments: &mut Vec<RenderResourceAssignments>,
    ) -> (result: Result<(), PackError>)
        requires
            old(self).uniform_buffer_arrays.wf(),
            uniforms@.len() == visible@.len(),
            uniforms@.len() == old(assignments)@.len(),
            forall|k: int|
                0 <= k < old(assignments)@.len() ==> (#[trigger] old(assignments)@[k]).wf(),
        ensures
            result == (match pack_error(
                old(self).uniform_buffer_arrays.uniform_arrays@,
                items_of(uniforms@),
                owners_of(old(assignments)@),
                old(self).dynamic_uniforms,
                leading_visible(visible@, visible@.len() as int),
            ) {
                Some(error) => Err::<(), PackError>(error),
                None => Ok(()),
            }),
            result is Err
                ==> *final(self) == *old(self)
                    && final(render_resources).table() == old(render_resources).table()
                        && final(assignments)@ == old(assignments)@,
            final(self).uniform_buffer_arrays.wf(),
            final(self).dynamic_uniforms == old(self).dynamic_uniforms,
            old(self).uniform_buffer_arrays.slots_kept(&final(self).uniform_buffer_arrays),
            result is Ok ==> exists|passes: PackPasses| #[trigger]
                packed(
                    old(self).uniform_buffer_arrays.uniform_arrays@,
                    old(render_resources).table(),
                    old(self).command_queue@,
                    old(assignments)@,
                    items_of(uniforms@),
                    old(self).dynamic_uniforms,
                    leading_visible(visible@, visible@.len() as int),
                    passes,
                    final(self).uniform_buffer_arrays.uniform_arrays@,
                    final(render_resources).table(),
                    final(self).command_queue@,
                    final(assignments)@,
                ),
    {
        let count = count_leading_visible(visible);
        let owners = owner_ids(assignments);
        match find_pack_error(
            &self.uniform_buffer_arrays,
            uniforms,
            &owners,
            self.dynamic_uniforms,
            count,
        ) {
            Some(error) => {
                proof {
                    self.uniform_buffer_arrays.lemma_slots_kept_reflexive();
                }
                Err(error)
            },
            None => {
                self.run_system(render_resources, uniforms, visible, assignments);
                Ok(())
            },
        }
    }
}

/// Handle of an asset that carries a uniform value.
#[derive(Clone, Copy, Debug, PartialEq, Eq, Hash, Structural)]
pub struct AssetHandle(pub u64);

/// One of the handles at positions `lo` to `hi` (exclusive) is `id`.
pub open spec fn has_handle(handles: Seq<AssetHandle>, lo: int, hi: int, id: u64) -> bool {
    exists|j: int| lo <= j < hi && (#[trigger] handles[j]).0 == id
}

/// No handle occurs twice.
pub open spec fn handles_distinct(handles: Seq<AssetHandle>) -> bool {
    forall|a: int, b: int|
        0 <= a < b < handles.len() ==> (#[trigger] handles[a]).0 != (#[trigger] handles[b]).0
}

/// The owner identity under which each asset is packed: its handle.
pub open spec fn asset_owners(handles: Seq<AssetHandle>) -> Seq<RenderResourceAssignmentsId> {
    Seq::new(handles.len(), |k: int| RenderResourceAssignmentsId(handles[k].0))
}

/// `table` is the binding table that the asset `handle` is packed into: the one that the
/// cache holds for it, or an empty one of its own where the cache holds none.
pub open spec fn asset_table(
    cache: Map<u64, RenderResourceAssignments>,
    handle: AssetHandle,
    table: RenderResourceAssignments,
) -> bool {
    if cache.contains_key(handle.0) {
        table == cache[handle.0]
    } else {
        &&& table.wf()
        &&& table.id == RenderResourceAssignmentsId(handle.0)
        &&& table@ == Map::<Seq<char>, RenderResourceAssignment>::empty()
    }
}

/// The table of an object after the bindings of its asset were handed to it: every binding
/// of the asset's cached table is taken over, and the object's other bindings stay.
pub open spec fn fanned_out(
    cache: Map<u64, RenderResourceAssignments>,
    handle: AssetHandle,
    bindings: Map<Seq<char>, RenderResourceAssignment>,
) -> Map<Seq<char>, RenderResourceAssignment> {
    if cache.contains_key(handle.0) {
        bindings.union_prefer_right(cache[handle.0]@)
    } else {
        bindings
    }
}

/// The states that a frame of asset packing passes through.
pub struct AssetPasses {
    /// The tables that the assets were packed into, as they were before.
    pub taken: Seq<RenderResourceAssignments>,
    /// Those tables after packing.
    pub bound: Seq<RenderResourceAssignments>,
    /// The states between the passes of packing.
    pub passes: PackPasses,
}

/// The assets were packed, each once, into the table that the cache holds for it, and the
/// cache holds the tables as they are after packing; tables of other assets stay in the
/// cache as they were.
pub open spec fn assets_packed(
    arrays: Seq<UniformArray>,
    table: RenderResourceTable,
    queue: Seq<Command>,
    cache: Map<u64, RenderResourceAssignments>,
    handles: Seq<AssetHandle>,
    items: Seq<Seq<RenderResourceField>>,
    dynamic_uniforms: bool,
    passes: AssetPasses,
    arrays_after: Seq<UniformArray>,
    table_after: RenderResourceTable,
    queue_after: Seq<Command>,
    cache_after: Map<u64, RenderResourceAssignments>,
) -> bool {
    &&& passes.taken.len() == handles.len()
    &&& passes.bound.len() == handles.len()
    &&& forall|k: int|
        0 <= k < handles.len() ==> asset_table(cache, handles[k], #[trigger] passes.taken[k])
    &&& packed(
        arrays,
        table,
        queue,
        passes.taken,
        items,
        dynamic_uniforms,
        handles.len() as int,
        passes.passes,
        arrays_after,
        table_after,
        queue_after,
        passes.bound,
    )
    &&& forall|id: u64|
        cache_after.contains_key(id) <==> cache.contains_key(id) || has_handle(
            handles,
            0,
            handles.len() as int,
            id,
        )
    &&& forall|k: int|
        0 <= k < handles.len() ==> cache_after[(#[trigger] handles[k]).0] == passes.bound[k]
    &&& forall|id: u64|
        cache.contains_key(id) && !has_handle(handles, 0, handles.len() as int, id)
            ==> #[trigger] cache_after[id] == cache[id]
}

/// Objects that refer to the same asset get the same binding under every name that the
/// asset's table binds: the binding of the asset.
pub proof fn lemma_fan_out_identical(
    cache: Map<u64, RenderResourceAssignments>,
    handle: AssetHandle,
    first: Map<Seq<char>, RenderResourceAssignment>,
    second: Map<Seq<char>, RenderResourceAssignment>,
    name: Seq<char>,
)
    requires
        cache.contains_key(handle.0),
        cache[handle.0]@.contains_key(name),
    ensures
        fanned_out(cache, handle, first).contains_key(name),
        fanned_out(cache, handle, second).contains_key(name),
        fanned_out(cache, handle, first)[name] == cache[handle.0]@[name],
        fanned_out(cache, handle, second)[name] == cache[handle.0]@[name],
{
}

/// Packs the uniform values of assets of type `T`, each asset once, and hands the bindings
/// of each asset to the objects that refer to it.
pub struct AssetRenderResourcesNode<T: RenderResources> {
    pub command_queue: CommandQueue,
    pub dynamic_uniforms: bool,
    pub uniform_buffer_arrays: UniformBufferArrays<T>,
    pub asset_render_resource_assignments: HashMap<u64, RenderResourceAssignments>,
}

impl<T: RenderResources> AssetRenderResourcesNode<T> {
    /// The slot tables are well formed, and the cache holds for each asset a well-formed table
    /// that is owned under the asset's handle.
    pub open spec fn wf(&self) -> bool {
        &&& self.uniform_buffer_arrays.wf()
        &&& forall|id: u64| #[trigger]
            self.asset_render_resource_assignments@.contains_key(id) ==> {
                &&& self.asset_render_resource_assignments@[id].wf()
                &&& self.asset_render_resource_assignments@[id].id == RenderResourceAssignmentsId(
                    id,
                )
            }
    }

    /// A node that packs into shared, dynamically indexed buffers if `dynamic_uniforms`, and
    /// into one buffer per asset and field otherwise.
    pub fn new(dynamic_uniforms: bool) -> (node: Self)
        ensures
            node.wf(),
            node.dynamic_uniforms == dynamic_uniforms,
            node.command_queue@ == Seq::<Command>::empty(),
            node.uniform_buffer_arrays.uniform_arrays@ == Seq::<UniformArray>::empty(),
            node.asset_render_resource_assignments@ == Map::<
                u64,
                RenderResourceAssignments,
            >::empty(),
    {
        AssetRenderResourcesNode {
            command_queue: CommandQueue::new(),
            dynamic_uniforms,
            uniform_buffer_arrays: UniformBufferArrays::new(),
            asset_render_resource_assignments: HashMap::new(),
        }
    }

    /// Hands out the commands that the frames since the last call have queued, in their
    /// order, for the caller to run against the backend; each command is handed out once.
    pub fn update(&mut self) -> (commands: Vec<Command>)
        ensures
            commands@ == old(self).command_queue@,
            final(self).command_queue@ == Seq::<Command>::empty(),
            final(self).uniform_buffer_arrays == old(self).uniform_buffer_arrays,
            final(self).dynamic_uniforms == old(self).dynamic_uniforms,
            final(self).asset_render_resource_assignments
                == old(self).asset_render_resource_assignments,
    {
        self.command_queue.drain()
    }

    /// Takes the table of each asset out of the cache, or makes an empty one for an asset
    /// that has none yet.
    fn take_tables(&mut self, handles: &Vec<AssetHandle>) -> (tables: Vec<
        RenderResourceAssignments,
    >)
        requires
            old(self).wf(),
            handles_distinct(handles@),
        ensures
            final(self).uniform_buffer_arrays == old(self).uniform_buffer_arrays,
            final(self).command_queue == old(self).command_queue,
            final(self).dynamic_uniforms == old(self).dynamic_uniforms,
            tables@.len() == handles@.len(),
            forall|k: int|
                0 <= k < handles@.len() ==> asset_table(
                    old(self).asset_render_resource_assignments@,
                    handles@[k],
                    #[trigger] tables@[k],
                ),
            forall|id: u64|
                final(self).asset_render_resource_assignments@.contains_key(id)
                    <==> old(self).asset_render_resource_assignments@.contains_key(id)
                        && !has_handle(
                    handles@,
                    0,
                    handles@.len() as int,
                    id,
                ),
            forall|id: u64| #[trigger]
                final(self).asset_render_resource_assignments@.contains_key(id)
                    ==> final(self).asset_render_resource_assignments@[id]
                        == old(self).asset_render_resource_assignments@[id],
    {
        broadcast use vstd::std_specs::hash::group_hash_axioms;

        let mut tables: Vec<RenderResourceAssignments> = Vec::new();
        let mut k: usize = 0;
        while k < handles.len()
            invariant
                k <= handles@.len(),
                handles_distinct(handles@),
                self.uniform_buffer_arrays == old(self).uniform_buffer_arrays,
                self.command_queue == old(self).command_queue,
                self.dynamic_uniforms == old(self).dynamic_uniforms,
                tables@.len() == k,
                forall|j: int|
                    0 <= j < k ==> asset_table(
                        old(self).asset_render_resource_assignments@,
                        handles@[j],
                        #[trigger] tables@[j],
                    ),
                forall|id: u64|
                    self.asset_render_resource_assignments@.contains_key(id)
                        <==> old(self).asset_render_resource_assignments@.contains_key(id)
                            && !has_handle(
                        handles@,
                        0,
                        k as int,
                        id,
                    ),
                forall|id: u64| #[trigger]
                    self.asset_render_resource_assignments@.contains_key(id)
                        ==> self.asset_render_resource_assignments@[id]
                            == old(self).asset_render_resource_assignments@[id],
            decreases handles@.len() - k,
        {
            let id = handles[k].0;
            proof {
                if has_handle(handles@, 0, k as int, id) {
                    let j = choose|j: int| 0 <= j < k && (#[trigger] handles@[j]).0 == id;
                    assert(handles@[j].0 != handles@[k as int].0);
                }
            }
            let table = match self.asset_render_resource_assignments.remove(&id) {
                Some(table) => table,
                None => RenderResourceAssignments::new(RenderResourceAssignmentsId(id)),
            };
            tables.push(table);
            proof {
                assert forall|other: u64|
                    self.asset_render_resource_assignments@.contains_key(other)
                        <==> old(self).asset_render_resource_assignments@.contains_key(other)
                            && !has_handle(
                        handles@,
                        0,
                        k + 1,
                        other,
                    ) by {
                    if has_handle(handles@, 0, k + 1, other) {
                        let j = choose|j: int| 0 <= j < k + 1
                            && (#[trigger] handles@[j]).0 == other;
                        if j < k {
                            assert(has_handle(handles@, 0, k as int, other));
                        }
                    }
                    if has_handle(handles@, 0, k as int, other) {
                        let j = choose|j: int| 0 <= j < k && (#[trigger] handles@[j]).0 == other;
                        assert(has_handle(handles@, 0, k + 1, other));
                    }
                    if other == id {
                        assert(handles@[k as int].0 == id);
                        assert(has_handle(handles@, 0, k + 1, other));
                    }
                }
            }
            k += 1;
        }
        proof {
            assert(k == handles@.len());
            assert forall|id: u64|
                self.asset_render_resource_assignments@.contains_key(id)
                    <==> old(self).asset_render_resource_assignments@.contains_key(id)
                        && !has_handle(
                    handles@,
                    0,
                    handles@.len() as int,
                    id,
                ) by {
                assert(has_handle(handles@, 0, k as int, id) == has_handle(
                    handles@,
                    0,
                    handles@.len() as int,
                    id,
                ));
            }
        }
        tables
    }

    /// Puts the table of each asset back into the cache.
    fn put_tables(&mut self, handles: &Vec<AssetHandle>, tables: Vec<RenderResourceAssignments>)
        requires
            handles_distinct(handles@),
            tables@.len() == handles@.len(),
        ensures
            final(self).uniform_buffer_arrays == old(self).uniform_buffer_arrays,
            final(self).command_queue == old(self).command_queue,
            final(self).dynamic_uniforms == old(self).dynamic_uniforms,
            forall|id: u64|
                final(self).asset_render_resource_assignments@.contains_key(id)
                    <==> old(self).asset_render_resource_assignments@.contains_key(id)
                        || has_handle(
                    handles@,
                    0,
                    handles@.len() as int,
                    id,
                ),
            forall|k: int|
                0 <= k < handles@.len() ==> final(self).asset_render_resource_assignments@[(
                #[trigger] handles@[k]).0] == tables@[k],
            forall|id: u64|
                old(self).asset_render_resource_assignments@.contains_key(id) && !has_handle(
                    handles@,
                    0,
                    handles@.len() as int,
                    id,
                ) ==> #[trigger] final(self).asset_render_resource_assignments@[id]
                    == old(self).asset_render_resource_assignments@[id],
    {
        broadcast use vstd::std_specs::hash::group_hash_axioms;

        let ghost all = tables@;
        let mut tables = tables;
        let mut k: usize = handles.len();
        while k > 0
            invariant
                k <= handles@.len(),
                handles_distinct(handles@),
                all.len() == handles@.len(),
                tables@ == all.take(k as int),
                self.uniform_buffer_arrays == old(self).uniform_buffer_arrays,
                self.command_queue == old(self).command_queue,
                self.dynamic_uniforms == old(self).dynamic_uniforms,
                forall|id: u64|
                    self.asset_render_resource_assignments@.contains_key(id)
                        <==> old(self).asset_render_resource_assignments@.contains_key(id)
                            || has_handle(
                        handles@,
                        k as int,
                        handles@.len() as int,
                        id,
                    ),
                forall|j: int|
                    k <= j < handles@.len() ==> self.asset_render_resource_assignments@[(
                    #[trigger] handles@[j]).0] == all[j],
                forall|id: u64|
                    old(self).asset_render_resource_assignments@.contains_key(id) && !has_handle(
                        handles@,
                        k as int,
                        handles@.len() as int,
                        id,
                    ) ==> #[trigger] self.asset_render_resource_assignments@[id]
                        == old(self).asset_render_resource_assignments@[id],
            decreases k,
        {
            k -= 1;
            let id = handles[k].0;
            let table = tables.pop().unwrap();
            assert(tables@ =~= all.take(k as int));
            assert(table == all[k as int]);
            self.asset_render_resource_assignments.insert(id, table);
            proof {
                assert forall|other: u64|
                    has_handle(handles@, k as int, handles@.len() as int, other) <==> other == id
                        || has_handle(handles@, k + 1, handles@.len() as int, other) by {
                    if has_handle(handles@, k as int, handles@.len() as int, other) {
                        let j = choose|j: int|
                            k <= j < handles@.len() && (#[trigger] handles@[j]).0 == other;
                        if j > k {
                            assert(has_handle(handles@, k + 1, handles@.len() as int, other));
                        }
                    }
                    if has_handle(handles@, k + 1, handles@.len() as int, other) {
                        let j = choose|j: int|
                            k + 1 <= j < handles@.len() && (#[trigger] handles@[j]).0 == other;
                        assert(has_handle(handles@, k as int, handles@.len() as int, other));
                    }
                    if other == id {
                        assert(handles@[k as int].0 == id);
                    }
                }
                assert forall|j: int| k <= j < handles@.len() implies
                    self.asset_render_resource_assignments@[(#[trigger] handles@[j]).0]
                    == all[j] by {
                    if j > k {
                        assert(handles@[k as int].0 != handles@[j].0);
                    }
                }
            }
        }
    }

    /// Hands to every object the bindings that the cache holds for the asset it refers to.
    fn fan_out(
        &self,
        object_handles: &Vec<AssetHandle>,
        object_assignments: &mut Vec<RenderResourceAssignments>,
    )
        requires
            self.wf(),
            object_handles@.len() == old(object_assignments)@.len(),
            forall|j: int|
                0 <= j < old(object_assignments)@.len()
                    ==> (#[trigger] old(object_assignments)@[j]).wf(),
        ensures
            final(object_assignments)@.len() == old(object_assignments)@.len(),
            forall|j: int|
                0 <= j < old(object_assignments)@.len() ==> {
                    &&& (#[trigger] final(object_assignments)@[j]).wf()
                    &&& final(object_assignments)@[j].id == old(object_assignments)@[j].id
                    &&& final(object_assignments)@[j]@ == fanned_out(
                        self.asset_render_resource_assignments@,
                        object_handles@[j],
                        old(object_assignments)@[j]@,
                    )
                },
    {
        broadcast use vstd::std_specs::hash::group_hash_axioms;

        let mut j: usize = 0;
        while j < object_handles.len()
            invariant
                j <= object_handles@.len(),
                self.wf(),
                object_handles@.len() == object_assignments@.len(),
                object_assignments@.len() == old(object_assignments)@.len(),
                forall|i: int|
                    0 <= i < j ==> {
                        &&& (#[trigger] object_assignments@[i]).wf()
                        &&& object_assignments@[i].id == old(object_assignments)@[i].id
                        &&& object_assignments@[i]@ == fanned_out(
                            self.asset_render_resource_assignments@,
                            object_handles@[i],
                            old(object_assignments)@[i]@,
                        )
                    },
                forall|i: int|
                    j <= i < object_assignments@.len() ==> #[trigger] object_assignments@[i]
                        == old(object_assignments)@[i],
                forall|i: int|
                    0 <= i < old(object_assignments)@.len()
                        ==> (#[trigger] old(object_assignments)@[i]).wf(),
            decreases object_handles@.len() - j,
        {
            let id = object_handles[j].0;
            assert(old(object_assignments)@[j as int].wf());
            match self.asset_render_resource_assignments.get(&id) {
                Some(asset_assignments) => {
                    assert(self.asset_render_resource_assignments@.contains_key(id));
                    object_assignments[j].extend(asset_assignments);
                },
                None => {},
            }
            j += 1;
        }
    }

    /// Packs one frame: every asset of the list once, into the table that the cache keeps for
    /// it, and then hands to each object the bindings of the asset it refers to. `handles`
    /// and `assets` hold, position by position, the handle and the value of each asset;
    /// `object_handles` and `object_assignments` the asset and the binding table of each
    /// object.
    pub fn run_system<C: RenderResourceContext>(
        &mut self,
        render_resources: &mut C,
        handles: &Vec<AssetHandle>,
        assets: &Vec<&T>,
        object_handles: &Vec<AssetHandle>,
        object_assignments: &mut Vec<RenderResourceAssignments>,
    )
        requires
            old(self).wf(),
            handles@.len() == assets@.len(),
            handles_distinct(handles@),
            object_handles@.len() == old(object_assignments)@.len(),
            forall|j: int|
                0 <= j < old(object_assignments)@.len()
                    ==> (#[trigger] old(object_assignments)@[j]).wf(),
            can_pack(
                old(self).uniform_buffer_arrays.uniform_arrays@,
                items_of(assets@),
                asset_owners(handles@),
                old(self).dynamic_uniforms,
                handles@.len() as int,
            ),
        ensures
            final(self).wf(),
            final(self).dynamic_uniforms == old(self).dynamic_uniforms,
            old(self).uniform_buffer_arrays.slots_kept(&final(self).uniform_buffer_arrays),
            exists|passes: AssetPasses| #[trigger]
                assets_packed(
                    old(self).uniform_buffer_arrays.uniform_arrays@,
                    old(render_resources).table(),
                    old(self).command_queue@,
                    old(self).asset_render_resource_assignments@,
                    handles@,
                    items_of(assets@),
                    old(self).dynamic_uniforms,
                    passes,
                    final(self).uniform_buffer_arrays.uniform_arrays@,
                    final(render_resources).table(),
                    final(self).command_queue@,
                    final(self).asset_render_resource_assignments@,
                ),
            final(object_assignments)@.len() == old(object_assignments)@.len(),
            forall|j: int|
                0 <= j < old(object_assignments)@.len() ==> {
                    &&& (#[trigger] final(object_assignments)@[j]).wf()
                    &&& final(object_assignments)@[j].id == old(object_assignments)@[j].id
                    &&& final(object_assignments)@[j]@ == fanned_out(
                        final(self).asset_render_resource_assignments@,
                        object_handles@[j],
                        old(object_assignments)@[j]@,
                    )
                },
    {
        let ghost cache = self.asset_render_resource_assignments@;
        let mut tables = self.take_tables(handles);
        let ghost taken = tables@;
        let ghost cache_taken = self.asset_render_resource_assignments@;
        let dynamic_uniforms = self.dynamic_uniforms;
        proof {
            assert(owners_of(taken) =~= asset_owners(handles@)) by {
                assert forall|k: int| 0 <= k < handles@.len() implies taken[k].id
                    == RenderResourceAssignmentsId(handles@[k].0) by {
                    assert(asset_table(cache, handles@[k], taken[k]));
                }
            }
            assert forall|k: int| 0 <= k < handles@.len() implies (#[trigger] taken[k]).wf() by {
                assert(asset_table(cache, handles@[k], taken[k]));
            }
        }
        pack_uniforms(
            &mut self.uniform_buffer_arrays,
            &mut self.command_queue,
            dynamic_uniforms,
            render_resources,
            assets,
            &mut tables,
            handles.len(),
        );
        let ghost bound = tables@;
        let ghost packed_passes = choose|passes: PackPasses| #[trigger]
            packed(
                old(self).uniform_buffer_arrays.uniform_arrays@,
                old(render_resources).table(),
                old(self).command_queue@,
                taken,
                items_of(assets@),
                dynamic_uniforms,
                handles@.len() as int,
                passes,
                self.uniform_buffer_arrays.uniform_arrays@,
                render_resources.table(),
                self.command_queue@,
                bound,
            );
        self.put_tables(handles, tables);
        proof {
            let passes = AssetPasses { taken, bound, passes: packed_passes };
            assert forall|id: u64|
                self.asset_render_resource_assignments@.contains_key(id) <==> cache.contains_key(id)
                    || has_handle(handles@, 0, handles@.len() as int, id) by {}
            assert forall|id: u64|
                cache.contains_key(id) && !has_handle(handles@, 0, handles@.len() as int, id)
                implies #[trigger] self.asset_render_resource_assignments@[id] == cache[id] by {
                assert(cache_taken.contains_key(id));
            }
            assert(assets_packed(
                old(self).uniform_buffer_arrays.uniform_arrays@,
                old(render_resources).table(),
                old(self).command_queue@,
                cache,
                handles@,
                items_of(assets@),
                old(self).dynamic_uniforms,
                passes,
                self.uniform_buffer_arrays.uniform_arrays@,
                render_resources.table(),
                self.command_queue@,
                self.asset_render_resource_assignments@,
            ));
            assert forall|id: u64| #[trigger]
                self.asset_render_resource_assignments@.contains_key(id) implies {
                &&& self.asset_render_resource_assignments@[id].wf()
                &&& self.asset_render_resource_assignments@[id].id == RenderResourceAssignmentsId(
                    id,
                )
            } by {
                if has_handle(handles@, 0, handles@.len() as int, id) {
                    let k = choose|k: int| 0 <= k < handles@.len()
                        && (#[trigger] handles@[k]).0 == id;
                    assert(self.asset_render_resource_assignments@[handles@[k].0] == bound[k]);
                    assert(bound[k].wf());
                    assert(asset_table(cache, handles@[k], taken[k]));
                } else {
                    assert(cache_taken.contains_key(id));
                }
            }
        }
        self.fan_out(object_handles, object_assignments);
    }

    /// Packs one frame as `run_system` does if the frame can be packed, and else changes
    /// nothing and says what keeps the frame from being packed.
    pub fn try_run_system<C: RenderResourceContext>(
        &mut self,
        render_resources: &mut C,
        handles: &Vec<AssetHandle>,
        assets: &Vec<&T>,
        object_handles: &Vec<AssetHandle>,
        object_assignments: &mut Vec<RenderResourceAssignments>,
    ) -> (result: Result<(), PackError>)
        requires
            old(self).wf(),
            handles@.len() == assets@.len(),
            handles_distinct(handles@),
            object_handles@.len() == old(object_assignments)@.len(),
            forall|j: int|
                0 <= j < old(object_assignments)@.len()
                    ==> (#[trigger] old(object_assignments)@[j]).wf(),
        ensures
            result == (match pack_error(
                old(self).uniform_buffer_arrays.uniform_arrays@,
                items_of(assets@),
                asset_owners(handles@),
                old(self).dynamic_uniforms,
                handles@.len() as int,
            ) {
                Some(error) => Err::<(), PackError>(error),
                None => Ok(()),
            }),
            result is Err
                ==> *final(self) == *old(self)
                    && final(render_resources).table() == old(render_resources).table()
                        && final(object_assignments)@ == old(object_assignments)@,
            final(self).wf(),
            final(self).dynamic_uniforms == old(self).dynamic_uniforms,
            old(self).uniform_buffer_arrays.slots_kept(&final(self).uniform_buffer_arrays),
            result is Ok ==> {
                &&& exists|passes: AssetPasses| #[trigger]
                    assets_packed(
                        old(self).uniform_buffer_arrays.uniform_arrays@,
                        old(render_resources).table(),
                        old(self).command_queue@,
                        old(self).asset_render_resource_assignments@,
                        handles@,
                        items_of(assets@),
                        old(self).dynamic_uniforms,
                        passes,
                        final(self).uniform_buffer_arrays.uniform_arrays@,
                        final(render_resources).table(),
                        final(self).command_queue@,
                        final(self).asset_render_resource_assignments@,
                    )
                &&& final(object_assignments)@.len() == old(object_assignments)@.len()
                &&& forall|j: int|
                    0 <= j < old(object_assignments)@.len() ==> {
                        &&& (#[trigger] final(object_assignments)@[j]).wf()
                        &&& final(object_assignments)@[j].id == old(object_assignments)@[j].id
                        &&& final(object_assignments)@[j]@ == fanned_out(
                            final(self).asset_render_resource_assignments@,
                            object_handles@[j],
                            old(object_assignments)@[j]@,
                        )
                    }
            },
    {
        let owners = asset_owner_ids(handles);
        match find_pack_error(
            &self.uniform_buffer_arrays,
            assets,
            &owners,
            self.dynamic_uniforms,
            handles.len(),
        ) {
            Some(error) => {
                proof {
                    self.uniform_buffer_arrays.lemma_slots_kept_reflexive();
                }
                Err(error)
            },
            None => {
                self.run_system(
                    render_resources,
                    handles,
                    assets,
                    object_handles,
                    object_assignments,
                );
                Ok(())
            },
        }
    }
}

/// The owner identity of each asset of a list.
pub fn asset_owner_ids(handles: &Vec<AssetHandle>) -> (owners: Vec<RenderResourceAssignmentsId>)
    ensures
        owners@ == asset_owners(handles@),
{
    let mut owners: Vec<RenderResourceAssignmentsId> = Vec::new();
    let mut k: usize = 0;
    while k < handles.len()
        invariant
            k <= handles@.len(),
            owners@.len() == k,
            forall|j: int| 0 <= j < k ==> owners@[j] == RenderResourceAssignmentsId(handles@[j].0),
        decreases handles@.len() - k,
    {
        owners.push(RenderResourceAssignmentsId(handles[k].0));
        k += 1;
    }
    assert(owners@ =~= asset_owners(handles@));
    owners
}

impl<T: RenderResources> Default for RenderResourcesNode<T> {
    /// A node that packs into one buffer per owner and field.
    fn default() -> (node: Self)
        ensures
            !node.dynamic_uniforms,
            node.command_queue@ == Seq::<Command>::empty(),
            node.uniform_buffer_arrays.uniform_arrays@ == Seq::<UniformArray>::empty(),
            node.uniform_buffer_arrays.wf(),
    {
        RenderResourcesNode::new(false)
    }
}

impl<T: RenderResources> Default for AssetRenderResourcesNode<T> {
    /// A node that packs into one buffer per asset and field.
    fn default() -> (node: Self)
        ensures
            node.wf(),
            !node.dynamic_uniforms,
            node.command_queue@ == Seq::<Command>::empty(),
            node.uniform_buffer_arrays.uniform_arrays@ == Seq::<UniformArray>::empty(),
            node.asset_render_resource_assignments@ == Map::<
                u64,
                RenderResourceAssignments,
            >::empty(),
    {
        AssetRenderResourcesNode::new(false)
    }
}

} // verus!
