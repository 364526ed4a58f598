use uniform_packer::assignments::RenderResourceAssignments;
use uniform_packer::command_queue::CommandQueue;
use uniform_packer::nodes::{AssetRenderResourcesNode, RenderResourcesNode};
use uniform_packer::render_resource::{
    BufferInfo, BufferUsage, ByteRange, RenderResourceAssignment, RenderResourceAssignmentsId,
    RenderResourceId, ResourceInfo, COPY_SRC,
};
use uniform_packer::renderer::{HeadlessRenderResourceContext, RenderResourceContext};
use uniform_packer::uniform_buffer_arrays::UniformBufferArrays;
use uniform_packer::uniforms::RenderResourceList;

#[test]
fn set_replaces_and_get_finds() {
    let mut table = RenderResourceAssignments::new(RenderResourceAssignmentsId(3));
    assert_eq!(table.id, RenderResourceAssignmentsId(3));
    assert_eq!(table.get("a"), None);
    table.set("a", RenderResourceAssignment::Texture(RenderResourceId(1)));
    table.set("b", RenderResourceAssignment::Sampler(RenderResourceId(2)));
    table.set("a", RenderResourceAssignment::Sampler(RenderResourceId(3)));
    assert_eq!(table.get("a"), Some(RenderResourceAssignment::Sampler(RenderResourceId(3))));
    assert_eq!(table.get("b"), Some(RenderResourceAssignment::Sampler(RenderResourceId(2))));
    assert_eq!(table.get(""), None);
    assert_eq!(table.get("ab"), None);
    assert_eq!(table.render_resources.len(), 2);
    assert_eq!(table.id, RenderResourceAssignmentsId(3));
}

#[test]
fn extend_takes_over_every_binding_of_the_other_table() {
    let mut object = RenderResourceAssignments::new(RenderResourceAssignmentsId(1));
    object.set("own", RenderResourceAssignment::Texture(RenderResourceId(1)));
    object.set("shared", RenderResourceAssignment::Texture(RenderResourceId(2)));
    let mut asset = RenderResourceAssignments::new(RenderResourceAssignmentsId(2));
    asset.set("shared", RenderResourceAssignment::Sampler(RenderResourceId(3)));
    asset.set("new", RenderResourceAssignment::Sampler(RenderResourceId(4)));
    object.extend(&asset);
    assert_eq!(object.id, RenderResourceAssignmentsId(1));
    assert_eq!(object.get("own"), Some(RenderResourceAssignment::Texture(RenderResourceId(1))));
    assert_eq!(object.get("shared"), Some(RenderResourceAssignment::Sampler(RenderResourceId(3))));
    assert_eq!(object.get("new"), Some(RenderResourceAssignment::Sampler(RenderResourceId(4))));
    assert_eq!(asset.get("own"), None);
    object.extend(&RenderResourceAssignments::new(RenderResourceAssignmentsId(9)));
    assert_eq!(object.render_resources.len(), 3);
}

#[test]
fn assignment_names_its_resource() {
    let buffer = RenderResourceAssignment::Buffer {
        resource: RenderResourceId(8),
        range: ByteRange { start: 0, end: 4 },
        dynamic_index: None,
    };
    assert_eq!(buffer.get_resource(), RenderResourceId(8));
    assert_eq!(RenderResourceAssignment::Texture(RenderResourceId(5)).get_resource(),
        RenderResourceId(5));
    assert_eq!(RenderResourceAssignment::Sampler(RenderResourceId(6)).get_resource(),
        RenderResourceId(6));
}

#[test]
fn headless_backend_keeps_buffers_until_they_are_removed() {
    let mut context = HeadlessRenderResourceContext::new();
    let info = BufferInfo { size: 3, buffer_usage: BufferUsage { bits: COPY_SRC } };
    let plain = context.create_buffer(info);
    let mapped = context.create_buffer_mapped(info, &[1, 2, 3]);
    assert_ne!(plain, mapped);
    assert_eq!(context.get_resource_info(plain), Some(ResourceInfo::Buffer(Some(info))));
    assert_eq!(context.get_resource_info(mapped), Some(ResourceInfo::Buffer(Some(info))));
    assert_eq!(context.buffers[0].as_ref().unwrap().data, None);
    assert_eq!(context.buffers[1].as_ref().unwrap().data, Some(vec![1, 2, 3]));
    context.remove_buffer(plain);
    assert_eq!(context.get_resource_info(plain), None);
    assert_eq!(context.get_resource_info(mapped), Some(ResourceInfo::Buffer(Some(info))));
    context.remove_buffer(RenderResourceId(100));
    let next = context.create_buffer(info);
    assert_ne!(next, plain);
    assert_ne!(next, mapped);
    assert_eq!(context.get_resource_info(RenderResourceId(100)), None);
}

#[test]
fn defaults_start_empty_and_without_shared_buffers() {
    assert!(CommandQueue::default().queue.is_empty());
    assert!(UniformBufferArrays::<RenderResourceList>::default().uniform_arrays.is_empty());
    let node = RenderResourcesNode::<RenderResourceList>::default();
    assert!(!node.dynamic_uniforms);
    assert!(node.command_queue.queue.is_empty());
    let assets = AssetRenderResourcesNode::<RenderResourceList>::default();
    assert!(!assets.dynamic_uniforms);
    assert!(assets.asset_render_resource_assignments.is_empty());
    assert!(RenderResourcesNode::<RenderResourceList>::new(true).dynamic_uniforms);
}
