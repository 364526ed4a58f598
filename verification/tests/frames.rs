use uniform_packer::assignments::RenderResourceAssignments;
use uniform_packer::command_queue::{Command, CommandQueue};
use uniform_packer::frame::pack_uniforms;
use uniform_packer::nodes::{asset_owner_ids, AssetHandle, AssetRenderResourcesNode};
use uniform_packer::packing::{bind_textures, count_uniforms, write_uniforms};
use uniform_packer::render_resource::{
    BufferInfo, BufferUsage, RenderResourceAssignment, RenderResourceAssignmentsId,
    RenderResourceHints, RenderResourceId, ResourceInfo, TextureHandle, BUFFER, COPY_DST, STORAGE,
};
use uniform_packer::renderer::{HeadlessRenderResourceContext, RenderResourceContext};
use uniform_packer::texture::{SAMPLER_ASSET_INDEX, TEXTURE_ASSET_INDEX};
use uniform_packer::uniform_buffer_arrays::UniformBufferArrays;
use uniform_packer::uniforms::{NamedRenderResource, RenderResourceList, RenderResourceValue};

fn material(fill: u8, texture: u64) -> RenderResourceList {
    RenderResourceList {
        resources: vec![
            NamedRenderResource {
                name: "albedo".to_string(),
                hints: Some(RenderResourceHints { bits: BUFFER }),
                value: RenderResourceValue::Buffer(vec![fill; 16]),
            },
            NamedRenderResource {
                name: "albedo_texture".to_string(),
                hints: None,
                value: RenderResourceValue::Texture(Some(TextureHandle(texture))),
            },
        ],
    }
}

fn tables(ids: &[u64]) -> Vec<RenderResourceAssignments> {
    ids.iter().map(|id| RenderResourceAssignments::new(RenderResourceAssignmentsId(*id))).collect()
}

#[test]
fn asset_frame_binds_textures_and_hinted_storage_buffers() {
    let mut node = AssetRenderResourcesNode::<RenderResourceList>::new(false);
    let mut context = HeadlessRenderResourceContext::new();
    context.set_asset_resource(TextureHandle(1), TEXTURE_ASSET_INDEX, RenderResourceId(100));
    context.set_asset_resource(TextureHandle(1), SAMPLER_ASSET_INDEX, RenderResourceId(101));
    let resolved = material(1, 1);
    let unresolved = material(2, 2);
    let handles = vec![AssetHandle(10), AssetHandle(20)];
    assert_eq!(
        asset_owner_ids(&handles),
        vec![RenderResourceAssignmentsId(10), RenderResourceAssignmentsId(20)]
    );
    let mut objects = tables(&[1, 2, 3]);
    let object_handles = vec![AssetHandle(20), AssetHandle(10), AssetHandle(10)];
    node.run_system(
        &mut context,
        &handles,
        &vec![&resolved, &unresolved],
        &object_handles,
        &mut objects,
    );
    let buffer_of = |table: &RenderResourceAssignments| table.get("albedo").unwrap().get_resource();
    assert_eq!(buffer_of(&objects[1]), buffer_of(&objects[2]));
    assert_ne!(buffer_of(&objects[0]), buffer_of(&objects[1]));
    assert_eq!(
        context.get_resource_info(buffer_of(&objects[1])),
        Some(ResourceInfo::Buffer(Some(BufferInfo {
            size: 16,
            buffer_usage: BufferUsage { bits: COPY_DST | STORAGE },
        })))
    );
    for object in &objects[1..] {
        assert_eq!(
            object.get("albedo_texture"),
            Some(RenderResourceAssignment::Texture(RenderResourceId(100)))
        );
        assert_eq!(
            object.get("albedo_texture_sampler"),
            Some(RenderResourceAssignment::Sampler(RenderResourceId(101)))
        );
    }
    assert_eq!(objects[0].get("albedo_texture"), None);
    let commands = node.update();
    assert_eq!(commands.len(), 3);
    assert!(matches!(commands[2], Command::FreeBuffer(_)));
    assert_eq!(node.update(), vec![]);
}

#[test]
fn passes_of_a_frame_can_be_run_one_by_one() {
    let mut arrays = UniformBufferArrays::<RenderResourceList>::new();
    let mut context = HeadlessRenderResourceContext::new();
    context.set_asset_resource(TextureHandle(1), TEXTURE_ASSET_INDEX, RenderResourceId(100));
    context.set_asset_resource(TextureHandle(1), SAMPLER_ASSET_INDEX, RenderResourceId(101));
    let values = [material(1, 1), material(2, 1), material(3, 1)];
    let uniforms: Vec<&RenderResourceList> = values.iter().collect();
    let mut owners = tables(&[1, 2, 3]);

    arrays.reset_changed_item_counts();
    count_uniforms(&mut arrays, &uniforms, 2);
    assert_eq!(arrays.uniform_arrays.len(), 2);
    assert_eq!(arrays.uniform_arrays[0].as_ref().unwrap().1.changed_item_count, 2);
    assert!(arrays.uniform_arrays[1].is_none());
    arrays.setup_buffer_arrays(&mut context, true);
    assert_eq!(arrays.update_staging_buffer_offsets(), 32);
    bind_textures(&uniforms, &context, &mut owners, 2);
    assert!(owners[0].get("albedo_texture").is_some());
    assert!(owners[1].get("albedo_texture_sampler").is_some());
    assert!(owners[2].get("albedo_texture").is_none());
    let mut staging = vec![0u8; 32];
    write_uniforms(&mut arrays, &uniforms, true, &mut context, &mut owners, &mut staging, 2);
    let mut expected = vec![1u8; 16];
    expected.extend(vec![2u8; 16]);
    assert_eq!(staging, expected);
    assert!(owners[1].get("albedo").is_some());
    assert!(owners[2].get("albedo").is_none());
    assert_eq!(arrays.uniform_arrays[0].as_ref().unwrap().1.queued_buffer_writes.len(), 2);
}

#[test]
fn packing_a_prefix_leaves_the_other_tables_alone() {
    let mut arrays = UniformBufferArrays::<RenderResourceList>::new();
    let mut queue = CommandQueue::new();
    let mut context = HeadlessRenderResourceContext::new();
    let values = [material(1, 9), material(2, 9), material(3, 9)];
    let uniforms: Vec<&RenderResourceList> = values.iter().collect();
    let mut owners = tables(&[1, 2, 3]);
    pack_uniforms(&mut arrays, &mut queue, true, &mut context, &uniforms, &mut owners, 1);
    assert!(owners[0].get("albedo").is_some());
    assert!(owners[1].render_resources.is_empty());
    assert!(owners[2].render_resources.is_empty());
    assert_eq!(queue.queue.len(), 2);
    assert_eq!(arrays.uniform_arrays[0].as_ref().unwrap().1.current_item_capacity, 1);
    let staging = context.buffers[1].as_ref().unwrap();
    assert_eq!(staging.info.size, 16);
    assert_eq!(staging.data, Some(vec![1u8; 16]));
}
