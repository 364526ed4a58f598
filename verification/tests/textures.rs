use uniform_packer::assignments::RenderResourceAssignments;
use uniform_packer::nodes::RenderResourcesNode;
use uniform_packer::render_resource::{
    RenderResourceAssignment, RenderResourceAssignmentsId, RenderResourceId, ResourceInfo,
    TextureHandle,
};
use uniform_packer::renderer::{HeadlessRenderResourceContext, RenderResourceContext};
use uniform_packer::texture::{
    setup_uniform_texture_resources, SAMPLER_ASSET_INDEX, TEXTURE_ASSET_INDEX,
};
use uniform_packer::uniforms::{
    NamedRenderResource, RenderResourceList, RenderResourceValue, RenderResources,
};

fn textured(handle: Option<u64>) -> RenderResourceList {
    RenderResourceList {
        resources: vec![
            NamedRenderResource {
                name: "albedo_texture".to_string(),
                hints: None,
                value: RenderResourceValue::Texture(handle.map(TextureHandle)),
            },
            NamedRenderResource {
                name: "tint".to_string(),
                hints: None,
                value: RenderResourceValue::Buffer(vec![7; 4]),
            },
            NamedRenderResource {
                name: "shadow".to_string(),
                hints: None,
                value: RenderResourceValue::Sampler,
            },
            NamedRenderResource {
                name: "unused".to_string(),
                hints: None,
                value: RenderResourceValue::Absent,
            },
        ],
    }
}

#[test]
fn resolved_texture_binds_texture_and_sampler() {
    let mut context = HeadlessRenderResourceContext::new();
    context.set_asset_resource(TextureHandle(3), TEXTURE_ASSET_INDEX, RenderResourceId(30));
    context.set_asset_resource(TextureHandle(3), SAMPLER_ASSET_INDEX, RenderResourceId(31));
    let mut table = RenderResourceAssignments::new(RenderResourceAssignmentsId(1));
    table.set("albedo_texture", RenderResourceAssignment::Sampler(RenderResourceId(9)));
    setup_uniform_texture_resources(&textured(Some(3)), &context, &mut table);
    assert_eq!(
        table.get("albedo_texture"),
        Some(RenderResourceAssignment::Texture(RenderResourceId(30)))
    );
    assert_eq!(
        table.get("albedo_texture_sampler"),
        Some(RenderResourceAssignment::Sampler(RenderResourceId(31)))
    );
    assert_eq!(table.get("tint"), None);
    assert_eq!(table.get("shadow"), None);
    assert_eq!(table.get("shadow_sampler"), None);
}

#[test]
fn unresolved_texture_is_left_unbound() {
    let mut context = HeadlessRenderResourceContext::new();
    let mut table = RenderResourceAssignments::new(RenderResourceAssignmentsId(1));
    setup_uniform_texture_resources(&textured(Some(3)), &context, &mut table);
    assert_eq!(table.get("albedo_texture"), None);
    assert_eq!(table.get("albedo_texture_sampler"), None);

    // The sampler alone does not bind anything, nor does the texture alone.
    context.set_asset_resource(TextureHandle(3), SAMPLER_ASSET_INDEX, RenderResourceId(31));
    setup_uniform_texture_resources(&textured(Some(3)), &context, &mut table);
    assert_eq!(table.get("albedo_texture_sampler"), None);
    context.set_asset_resource(TextureHandle(4), TEXTURE_ASSET_INDEX, RenderResourceId(40));
    setup_uniform_texture_resources(&textured(Some(4)), &context, &mut table);
    assert_eq!(table.get("albedo_texture"), None);

    // A field without a texture is passed over.
    setup_uniform_texture_resources(&textured(None), &context, &mut table);
    assert_eq!(table.get("albedo_texture"), None);
    assert!(table.render_resources.is_empty());
}

#[test]
fn asset_resources_are_resolved_by_handle_and_slot() {
    let mut context = HeadlessRenderResourceContext::new();
    assert_eq!(context.get_asset_resource(TextureHandle(1), 0), None);
    context.set_asset_resource(TextureHandle(1), 0, RenderResourceId(10));
    context.set_asset_resource(TextureHandle(1), 1, RenderResourceId(11));
    context.set_asset_resource(TextureHandle(2), 0, RenderResourceId(20));
    context.set_asset_resource(TextureHandle(1), 0, RenderResourceId(12));
    assert_eq!(context.get_asset_resource(TextureHandle(1), 0), Some(RenderResourceId(12)));
    assert_eq!(context.get_asset_resource(TextureHandle(1), 1), Some(RenderResourceId(11)));
    assert_eq!(context.get_asset_resource(TextureHandle(2), 0), Some(RenderResourceId(20)));
    assert_eq!(context.get_asset_resource(TextureHandle(2), 1), None);
}

#[test]
fn frame_binds_textures_and_buffers_of_the_same_value() {
    let mut node = RenderResourcesNode::<RenderResourceList>::new(true);
    let mut context = HeadlessRenderResourceContext::new();
    context.set_asset_resource(TextureHandle(3), TEXTURE_ASSET_INDEX, RenderResourceId(30));
    context.set_asset_resource(TextureHandle(3), SAMPLER_ASSET_INDEX, RenderResourceId(31));
    let value = textured(Some(3));
    let mut owners = vec![RenderResourceAssignments::new(RenderResourceAssignmentsId(1))];
    assert_eq!(node.try_run_system(&mut context, &vec![&value], &vec![true], &mut owners), Ok(()));
    assert_eq!(
        owners[0].get("albedo_texture"),
        Some(RenderResourceAssignment::Texture(RenderResourceId(30)))
    );
    assert_eq!(
        owners[0].get("albedo_texture_sampler"),
        Some(RenderResourceAssignment::Sampler(RenderResourceId(31)))
    );
    assert!(matches!(owners[0].get("tint"), Some(RenderResourceAssignment::Buffer { .. })));
    let arrays = &node.uniform_buffer_arrays.uniform_arrays;
    assert_eq!(arrays.len(), 4);
    assert!(arrays[0].is_none());
    assert!(arrays[1].is_some());
    assert!(arrays[2].is_none());
    assert!(arrays[3].is_none());
}

#[test]
fn plain_value_exposes_its_fields() {
    let value = textured(Some(3));
    assert_eq!(value.render_resources_len(), 4);
    assert_eq!(value.get_render_resource_name(0), Some("albedo_texture"));
    assert_eq!(value.get_render_resource_name(3), Some("unused"));
    assert_eq!(value.get_render_resource_name(4), None);
    assert_eq!(value.resource_info(0), Some(ResourceInfo::Texture));
    assert_eq!(value.resource_info(1), Some(ResourceInfo::Buffer(None)));
    assert_eq!(value.resource_info(2), Some(ResourceInfo::Sampler));
    assert_eq!(value.resource_info(3), None);
    assert_eq!(value.resource_info(4), None);
    assert_eq!(value.buffer_byte_len(0), None);
    assert_eq!(value.buffer_byte_len(1), Some(4));
    assert_eq!(value.buffer_byte_len(9), None);
    assert_eq!(value.texture(0), Some(TextureHandle(3)));
    assert_eq!(value.texture(1), None);
    assert_eq!(value.get_render_resource_hints(1), None);
    let mut buffer = [0u8; 4];
    value.write_buffer_bytes(1, &mut buffer);
    assert_eq!(buffer, [7, 7, 7, 7]);
}
