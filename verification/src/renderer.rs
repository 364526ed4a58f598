//! The capability through which the packer reaches the rendering backend, and a backend that
//! keeps its resources in memory.

use vstd::prelude::*;
use crate::render_resource::{BufferInfo, RenderResourceId, ResourceInfo, TextureHandle};

verus! {

/// What a backend holds, as far as the packer can observe it.
pub struct RenderResourceTable {
    /// The live resources, each with what the backend reports about it.
    pub resources: Map<RenderResourceId, ResourceInfo>,
    /// The bytes of each live buffer that was created from mapped data.
    pub buffer_data: Map<RenderResourceId, Seq<u8>>,
    /// The resources that stand for an asset, by asset handle and resource slot.
    pub asset_resources: Map<(TextureHandle, usize), RenderResourceId>,
}

impl RenderResourceTable {
    /// The table after a buffer `buffer` described by `info` came to life.
    pub open spec fn with_buffer(self, buffer: RenderResourceId, info: BufferInfo) -> Self {
        RenderResourceTable {
            resources: self.resources.insert(buffer, ResourceInfo::Buffer(Some(info))),
            ..self
        }
    }

    /// The table after a buffer `buffer` described by `info` came to life holding `data`.
    pub open spec fn with_mapped_buffer(
        self,
        buffer: RenderResourceId,
        info: BufferInfo,
        data: Seq<u8>,
    ) -> Self {
        RenderResourceTable {
            resources: self.resources.insert(buffer, ResourceInfo::Buffer(Some(info))),
            buffer_data: self.buffer_data.insert(buffer, data),
            ..self
        }
    }

    /// The table after `buffer` was freed.
    pub open spec fn without_buffer(self, buffer: RenderResourceId) -> Self {
        RenderResourceTable {
            resources: self.resources.remove(buffer),
            buffer_data: self.buffer_data.remove(buffer),
            ..self
        }
    }

    /// What the backend reports about `resource`.
    pub open spec fn resource_info(self, resource: RenderResourceId) -> Option<ResourceInfo> {
        if self.resources.contains_key(resource) {
            Some(self.resources[resource])
        } else {
            None
        }
    }

    /// The resource that stands for slot `index` of the asset `handle`.
    pub open spec fn asset_resource(self, handle: TextureHandle, index: usize) -> Option<
        RenderResourceId,
    > {
        if self.asset_resources.contains_key((handle, index)) {
            Some(self.asset_resources[(handle, index)])
        } else {
            None
        }
    }
}

/// A rendering backend that allocates and frees buffers and resolves asset resources.
pub trait RenderResourceContext {
    /// The backend's resources.
    spec fn table(&self) -> RenderResourceTable;

    /// Allocates a buffer; its handle was not live before.
    fn create_buffer(&mut self, buffer_info: BufferInfo) -> (buffer: RenderResourceId)
        ensures
            !old(self).table().resources.contains_key(buffer),
            final(self).table() == old(self).table().with_buffer(buffer, buffer_info),
    ;

    /// Allocates a buffer that holds `data`; its handle was not live before.
    fn create_buffer_mapped(&mut self, buffer_info: BufferInfo, data: &[u8]) -> (buffer:
        RenderResourceId)
        requires
            data@.len() == buffer_info.size,
        ensures
            !old(self).table().resources.contains_key(buffer),
            final(self).table() == old(self).table().with_mapped_buffer(
                buffer,
                buffer_info,
                data@,
            ),
    ;

    /// Frees a buffer.
    fn remove_buffer(&mut self, buffer: RenderResourceId)
        ensures
            final(self).table() == old(self).table().without_buffer(buffer),
    ;

    /// What the backend reports about `resource`, if it is live.
    fn get_resource_info(&self, resource: RenderResourceId) -> (info: Option<ResourceInfo>)
        ensures
            info == self.table().resource_info(resource),
    ;

    /// The resource that stands for slot `index` of the asset `handle`, if it is resolved.
    fn get_asset_resource(&self, handle: TextureHandle, index: usize) -> (resource: Option<
        RenderResourceId,
    >)
        ensures
            resource == self.table().asset_resource(handle, index),
    ;
}

/// One buffer of the in-memory backend.
#[derive(Debug)]
pub struct HeadlessBuffer {
    pub info: BufferInfo,
    pub data: Option<Vec<u8>>,
}

/// One asset resource of the in-memory backend.
#[derive(Clone, Copy, Debug)]
pub struct HeadlessAssetResource {
    pub handle: TextureHandle,
    pub index: usize,
    pub resource: RenderResourceId,
}

/// The resource that the latest matching entry of `entries` names for the asset slot.
pub open spec fn latest_asset_resource(
    entries: Seq<HeadlessAssetResource>,
    handle: TextureHandle,
    index: usize,
) -> Option<RenderResourceId>
    decreases entries.len(),
{
    if entries.len() == 0 {
        None
    } else if entries.last().handle == handle && entries.last().index == index {
        Some(entries.last().resource)
    } else {
        latest_asset_resource(entries.drop_last(), handle, index)
    }
}

/// A backend without a GPU: buffers are slots of a list, and a handle is the slot's position.
#[derive(Debug)]
pub struct HeadlessRenderResourceContext {
    pub buffers: Vec<Option<HeadlessBuffer>>,
    pub asset_resources: Vec<HeadlessAssetResource>,
}

impl HeadlessRenderResourceContext {
    /// The slot of `buffers` that `resource` names is in use.
    pub open spec fn is_live(&self, resource: RenderResourceId) -> bool {
        resource.0 < self.buffers@.len() && self.buffers@[resource.0 as int] is Some
    }

    /// A backend that holds nothing yet: no slot, live or freed, and no asset resource.
    pub fn new() -> (context: Self)
        ensures
            context.buffers@ == Seq::<Option<HeadlessBuffer>>::empty(),
            context.asset_resources@ == Seq::<HeadlessAssetResource>::empty(),
            context.table().resources == Map::<RenderResourceId, ResourceInfo>::empty(),
            context.table().buffer_data == Map::<RenderResourceId, Seq<u8>>::empty(),
            context.table().asset_resources == Map::<
                (TextureHandle, usize),
                RenderResourceId,
            >::empty(),
    {
        let context = HeadlessRenderResourceContext {
            buffers: Vec::new(),
            asset_resources: Vec::new(),
        };
        assert(context.table().resources =~= Map::<RenderResourceId, ResourceInfo>::empty());
        assert(context.table().buffer_data =~= Map::<RenderResourceId, Seq<u8>>::empty());
        assert(context.table().asset_resources =~= Map::<
            (TextureHandle, usize),
            RenderResourceId,
        >::empty());
        context
    }

    /// Lets `resource` stand for slot `index` of the asset `handle`.
    pub fn set_asset_resource(
        &mut self,
        handle: TextureHandle,
        index: usize,
        resource: RenderResourceId,
    )
        ensures
            final(self).table() == (RenderResourceTable {
                asset_resources: old(self).table().asset_resources.insert(
                    (handle, index),
                    resource,
                ),
                ..old(self).table()
            }),
    {
        let ghost before = self.asset_resources@;
        self.asset_resources.push(HeadlessAssetResource { handle, index, resource });
        proof {
            assert(self.asset_resources@.drop_last() =~= before);
            assert forall|h: TextureHandle, i: usize|
                latest_asset_resource(self.asset_resources@, h, i) == (if h == handle && i
                    == index {
                    Some(resource)
                } else {
                    #[trigger] latest_asset_resource(before, h, i)
                }) by {}
            assert(self.table().asset_resources =~= old(self).table().asset_resources.insert(
                (handle, index),
                resource,
            ));
            assert(self.table().resources =~= old(self).table().resources);
            assert(self.table().buffer_data =~= old(self).table().buffer_data);
        }
    }

    fn store(&mut self, buffer: HeadlessBuffer) -> (id: RenderResourceId)
        ensures
            !old(self).is_live(id),
            id.0 == old(self).buffers@.len(),
            final(self).buffers@ == old(self).buffers@.push(Some(buffer)),
            final(self).asset_resources == old(self).asset_resources,
    {
        let id = RenderResourceId(self.buffers.len() as u64);
        self.buffers.push(Some(buffer));
        id
    }
}

impl RenderResourceContext for HeadlessRenderResourceContext {
    open spec fn table(&self) -> RenderResourceTable {
        RenderResourceTable {
            resources: Map::new(
                |id: RenderResourceId| self.is_live(id),
                |id: RenderResourceId|
                    ResourceInfo::Buffer(Some(self.buffers@[id.0 as int].unwrap().info)),
            ),
            buffer_data: Map::new(
                |id: RenderResourceId| self.is_live(id)
                    && self.buffers@[id.0 as int].unwrap().data is Some,
                |id: RenderResourceId| self.buffers@[id.0 as int].unwrap().data.unwrap()@,
            ),
            asset_resources: Map::new(
                |key: (TextureHandle, usize)|
                    latest_asset_resource(self.asset_resources@, key.0, key.1) is Some,
                |key: (TextureHandle, usize)|
                    latest_asset_resource(self.asset_resources@, key.0, key.1).unwrap(),
            ),
        }
    }

    fn create_buffer(&mut self, buffer_info: BufferInfo) -> (buffer: RenderResourceId) {
        let buffer = self.store(HeadlessBuffer { info: buffer_info, data: None });
        proof {
            let target = old(self).table().with_buffer(buffer, buffer_info);
            assert(self.table().resources =~= target.resources);
            assert(self.table().buffer_data =~= target.buffer_data);
            assert(self.table().asset_resources =~= target.asset_resources);
        }
        buffer
    }

    fn create_buffer_mapped(&mut self, buffer_info: BufferInfo, data: &[u8]) -> (buffer:
        RenderResourceId) {
        let bytes = vstd::slice::slice_to_vec(data);
        let buffer = self.store(HeadlessBuffer { info: buffer_info, data: Some(bytes) });
        proof {
            let target = old(self).table().with_mapped_buffer(buffer, buffer_info, data@);
            assert(self.table().resources =~= target.resources);
            assert(self.table().buffer_data =~= target.buffer_data);
            assert(self.table().asset_resources =~= target.asset_resources);
        }
        buffer
    }

    fn remove_buffer(&mut self, buffer: RenderResourceId) {
        if buffer.0 < self.buffers.len() as u64 {
            self.buffers[buffer.0 as usize] = None;
        }
        proof {
            let target = old(self).table().without_buffer(buffer);
            assert(self.table().resources =~= target.resources);
            assert(self.table().buffer_data =~= target.buffer_data);
            assert(self.table().asset_resources =~= target.asset_resources);
        }
    }

    fn get_resource_info(&self, resource: RenderResourceId) -> (info: Option<ResourceInfo>) {
        if resource.0 < self.buffers.len() as u64 {
            match &self.buffers[resource.0 as usize] {
                Some(buffer) => Some(ResourceInfo::Buffer(Some(buffer.info))),
                None => None,
            }
        } else {
            None
        }
    }

    fn get_asset_resource(&self, handle: TextureHandle, index: usize) -> (resource: Option<
        RenderResourceId,
    >) {
        let mut i: usize = self.asset_resources.len();
        assert(self.asset_resources@.take(i as int) =~= self.asset_resources@);
        while i > 0
            invariant
                i <= self.asset_resources@.len(),
                latest_asset_resource(self.asset_resources@, handle, index)
                    == latest_asset_resource(self.asset_resources@.take(i as int), handle, index),
            decreases i,
        {
            let entry = self.asset_resources[i - 1];
            if entry.handle.0 == handle.0 && entry.index == index {
                return Some(entry.resource);
            }
            assert(self.asset_resources@.take(i as int).drop_last()
                =~= self.asset_resources@.take(i - 1));
            i -= 1;
        }
        None
    }
}

} // verus!
