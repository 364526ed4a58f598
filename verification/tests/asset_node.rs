use uniform_packer::assignments::RenderResourceAssignments;
use uniform_packer::command_queue::Command;
use uniform_packer::nodes::{AssetHandle, AssetRenderResourcesNode};
use uniform_packer::render_resource::{
    ByteRange, RenderResourceAssignment, RenderResourceAssignmentsId, RenderResourceId,
};
use uniform_packer::renderer::HeadlessRenderResourceContext;
use uniform_packer::uniforms::{NamedRenderResource, RenderResourceList, RenderResourceValue};

fn material(fill: u8) -> RenderResourceList {
    RenderResourceList {
        resources: vec![NamedRenderResource {
            name: "albedo".to_string(),
            hints: None,
            value: RenderResourceValue::Buffer(vec![fill; 16]),
        }],
    }
}

#[test]
fn asset_with_ten_objects_is_packed_once() {
    let mut node = AssetRenderResourcesNode::<RenderResourceList>::new(true);
    let mut context = HeadlessRenderResourceContext::new();
    let asset = material(9);
    let handles = vec![AssetHandle(42)];
    let object_handles = vec![AssetHandle(42); 10];
    let mut objects: Vec<RenderResourceAssignments> =
        (0..10).map(|k| RenderResourceAssignments::new(RenderResourceAssignmentsId(100 + k))).collect();
    objects[3].set("own", RenderResourceAssignment::Sampler(RenderResourceId(5)));
    objects[4].set("albedo", RenderResourceAssignment::Texture(RenderResourceId(6)));

    node.run_system(&mut context, &handles, &vec![&asset], &object_handles, &mut objects);

    let status = &node.uniform_buffer_arrays.uniform_arrays[0].as_ref().unwrap().1;
    assert_eq!(status.changed_item_count, 1);
    assert_eq!(status.current_item_capacity, 1);
    assert_eq!(status.indices.len(), 1);
    assert_eq!(status.indices.get(&42), Some(&0));
    assert_eq!(
        node.update(),
        vec![
            Command::CopyBufferToBuffer {
                source_buffer: RenderResourceId(1),
                source_offset: 0,
                destination_buffer: RenderResourceId(0),
                destination_offset: 0,
                size: 16,
            },
            Command::FreeBuffer(RenderResourceId(1)),
        ]
    );
    let binding = RenderResourceAssignment::Buffer {
        resource: RenderResourceId(0),
        range: ByteRange { start: 0, end: 16 },
        dynamic_index: Some(0),
    };
    let cached = node.asset_render_resource_assignments.get(&42).unwrap();
    assert_eq!(cached.id, RenderResourceAssignmentsId(42));
    assert_eq!(cached.get("albedo"), Some(binding));
    for (k, object) in objects.iter().enumerate() {
        assert_eq!(object.get("albedo"), Some(binding));
        assert_eq!(object.id, RenderResourceAssignmentsId(100 + k as u64));
    }
    assert_eq!(objects[3].get("own"), Some(RenderResourceAssignment::Sampler(RenderResourceId(5))));
    assert_eq!(objects[0].get("own"), None);
}

#[test]
fn objects_of_unknown_assets_are_left_alone() {
    let mut node = AssetRenderResourcesNode::<RenderResourceList>::new(true);
    let mut context = HeadlessRenderResourceContext::new();
    let a = material(1);
    let b = material(2);
    let handles = vec![AssetHandle(1), AssetHandle(2)];
    let object_handles = vec![AssetHandle(2), AssetHandle(3), AssetHandle(1)];
    let mut objects: Vec<RenderResourceAssignments> =
        (0..3).map(|k| RenderResourceAssignments::new(RenderResourceAssignmentsId(50 + k))).collect();
    node.run_system(&mut context, &handles, &vec![&a, &b], &object_handles, &mut objects);
    let offset = |table: &RenderResourceAssignments| match table.get("albedo") {
        Some(RenderResourceAssignment::Buffer { dynamic_index, .. }) => dynamic_index,
        _ => None,
    };
    assert_eq!(offset(&objects[0]), Some(256));
    assert_eq!(objects[1].get("albedo"), None);
    assert_eq!(offset(&objects[2]), Some(0));
    assert_eq!(node.asset_render_resource_assignments.len(), 2);
    assert_eq!(node.update().len(), 3);
}

#[test]
fn cached_asset_tables_persist_across_frames() {
    let mut node = AssetRenderResourcesNode::<RenderResourceList>::new(false);
    let mut context = HeadlessRenderResourceContext::new();
    let a = material(1);
    let handles = vec![AssetHandle(8)];
    let mut objects = vec![RenderResourceAssignments::new(RenderResourceAssignmentsId(1))];
    node.run_system(&mut context, &handles, &vec![&a], &vec![AssetHandle(8)], &mut objects);
    let first = node.asset_render_resource_assignments.get(&8).unwrap().get("albedo").unwrap();
    assert_eq!(first.get_resource(), RenderResourceId(0));
    node.update();

    let b = material(2);
    let mut late = vec![RenderResourceAssignments::new(RenderResourceAssignmentsId(2))];
    node.run_system(&mut context, &handles, &vec![&b], &vec![AssetHandle(8)], &mut late);
    let second = node.asset_render_resource_assignments.get(&8).unwrap().get("albedo").unwrap();
    assert_eq!(second, first);
    assert_eq!(late[0].get("albedo"), Some(first));
    // One dedicated buffer, and one staging buffer for each frame.
    assert_eq!(context.buffers.len(), 3);

    // A frame without assets keeps the cache and still serves the objects.
    let mut later = vec![RenderResourceAssignments::new(RenderResourceAssignmentsId(3))];
    node.run_system(&mut context, &vec![], &vec![], &vec![AssetHandle(8)], &mut later);
    assert_eq!(later[0].get("albedo"), Some(first));
    assert_eq!(node.update().len(), 2);
}
