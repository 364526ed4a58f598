use uniform_packer::assignments::RenderResourceAssignments;
use uniform_packer::nodes::{AssetHandle, AssetRenderResourcesNode, RenderResourcesNode};
use uniform_packer::render_resource::RenderResourceAssignmentsId;
use uniform_packer::renderer::HeadlessRenderResourceContext;
use uniform_packer::uniform_buffer_arrays::{BufferArrayStatus, UniformBufferArrays};
use uniform_packer::uniforms::{NamedRenderResource, RenderResourceList, RenderResourceValue};
use uniform_packer::validate::{
    find_pack_error, greatest_fields_len, measure_field, owner_ids, owners_find_slots, PackError,
};
use std::collections::HashMap;

fn value(len: usize) -> RenderResourceList {
    RenderResourceList {
        resources: vec![NamedRenderResource {
            name: "light".to_string(),
            hints: None,
            value: RenderResourceValue::Buffer(vec![0; len]),
        }],
    }
}

fn tables(ids: &[u64]) -> Vec<RenderResourceAssignments> {
    ids.iter().map(|id| RenderResourceAssignments::new(RenderResourceAssignmentsId(*id))).collect()
}

#[test]
fn churning_owners_run_out_of_slots() {
    let mut node = RenderResourcesNode::<RenderResourceList>::new(true);
    let mut context = HeadlessRenderResourceContext::new();
    let values = [value(8), value(8)];
    let uniforms: Vec<&RenderResourceList> = values.iter().collect();
    let visible = vec![true, true];

    let mut first = tables(&[1, 2]);
    assert_eq!(node.try_run_system(&mut context, &uniforms, &visible, &mut first), Ok(()));
    // Capacity is 3 now; one new owner still fits.
    let mut second = tables(&[3, 1]);
    assert_eq!(node.try_run_system(&mut context, &uniforms, &visible, &mut second), Ok(()));
    let buffers = context.buffers.len();
    let commands = node.command_queue.queue.len();
    let mut third = tables(&[4, 5]);
    assert_eq!(
        node.try_run_system(&mut context, &uniforms, &visible, &mut third),
        Err(PackError::NoEmptySlot)
    );
    assert_eq!(context.buffers.len(), buffers);
    assert_eq!(node.command_queue.queue.len(), commands);
    assert!(third[0].get("light").is_none());
    let status = &node.uniform_buffer_arrays.uniform_arrays[0].as_ref().unwrap().1;
    assert_eq!(status.current_index, 3);
    assert_eq!(status.changed_item_count, 2);
    // Owners that have a slot can still be packed.
    let mut fourth = tables(&[2, 3]);
    assert_eq!(node.try_run_system(&mut context, &uniforms, &visible, &mut fourth), Ok(()));
}

#[test]
fn differing_sizes_are_refused_in_dynamic_mode_only() {
    let values = [value(8), value(12)];
    let uniforms: Vec<&RenderResourceList> = values.iter().collect();
    let visible = vec![true, true];

    let mut dynamic = RenderResourcesNode::<RenderResourceList>::new(true);
    let mut context = HeadlessRenderResourceContext::new();
    assert_eq!(
        dynamic.try_run_system(&mut context, &uniforms, &visible, &mut tables(&[1, 2])),
        Err(PackError::FieldSizeMismatch)
    );
    assert!(dynamic.uniform_buffer_arrays.uniform_arrays.is_empty());

    let mut dedicated = RenderResourcesNode::<RenderResourceList>::new(false);
    assert_eq!(
        dedicated.try_run_system(&mut context, &uniforms, &visible, &mut tables(&[1, 2])),
        Ok(())
    );
}

#[test]
fn size_of_a_later_frame_must_match_the_item_size() {
    let mut node = RenderResourcesNode::<RenderResourceList>::new(true);
    let mut context = HeadlessRenderResourceContext::new();
    let small = value(8);
    let large = value(16);
    assert_eq!(
        node.try_run_system(&mut context, &vec![&small], &vec![true], &mut tables(&[1])),
        Ok(())
    );
    assert_eq!(
        node.try_run_system(&mut context, &vec![&large], &vec![true], &mut tables(&[1])),
        Err(PackError::FieldSizeMismatch)
    );
    // An object that is not visible is not looked at.
    assert_eq!(
        node.try_run_system(
            &mut context,
            &vec![&small, &large],
            &vec![true, false],
            &mut tables(&[1, 2])
        ),
        Ok(())
    );
}

#[test]
fn pack_errors_are_found_without_packing() {
    let arrays = UniformBufferArrays::<RenderResourceList>::new();
    let values = [value(4), value(4), value(6)];
    let uniforms: Vec<&RenderResourceList> = values.iter().collect();
    let owners = owner_ids(&tables(&[5, 6, 7]));
    assert_eq!(owners, vec![
        RenderResourceAssignmentsId(5),
        RenderResourceAssignmentsId(6),
        RenderResourceAssignmentsId(7)
    ]);
    assert_eq!(find_pack_error(&arrays, &uniforms, &owners, true, 2), None);
    assert_eq!(find_pack_error(&arrays, &uniforms, &owners, true, 3),
        Some(PackError::FieldSizeMismatch));
    assert_eq!(find_pack_error(&arrays, &uniforms, &owners, false, 3), None);
    assert_eq!(find_pack_error(&arrays, &uniforms, &owners, true, 0), None);
    assert_eq!(greatest_fields_len(0, &uniforms, 3), 1);
    assert_eq!(greatest_fields_len(4, &uniforms, 3), 4);

    let demand = measure_field(&uniforms, 0, 3, None);
    assert_eq!(demand.count, 3);
    assert_eq!(demand.bytes, Some(14));
    assert_eq!(demand.first_len, 4);
    assert!(!demand.uniform);
    assert!(measure_field(&uniforms, 0, 2, Some(4)).uniform);
    assert!(!measure_field(&uniforms, 0, 2, Some(5)).uniform);
    let absent = measure_field(&uniforms, 1, 3, None);
    assert_eq!(absent.count, 0);
    assert_eq!(absent.bytes, Some(0));
    assert!(absent.uniform);
}

#[test]
fn slots_are_counted_per_new_owner() {
    let values = [value(4), value(4), value(4)];
    let uniforms: Vec<&RenderResourceList> = values.iter().collect();
    let mut indices: HashMap<u64, usize> = HashMap::new();
    indices.insert(5, 0);
    let owners = owner_ids(&tables(&[5, 6, 6]));
    assert!(owners_find_slots(&indices, 1, 2, &uniforms, &owners, 0, 3));
    assert!(!owners_find_slots(&indices, 1, 1, &uniforms, &owners, 0, 3));
    assert!(owners_find_slots(&indices, 1, 1, &uniforms, &owners, 0, 1));
    let others = owner_ids(&tables(&[7, 8, 9]));
    assert!(!owners_find_slots(&indices, 1, 3, &uniforms, &others, 0, 3));
    assert!(owners_find_slots(&indices, 1, 4, &uniforms, &others, 0, 3));
    assert!(owners_find_slots(&indices, 1, 1, &uniforms, &others, 1, 3));
    assert_eq!(indices.len(), 1);
}

#[test]
fn sizes_beyond_the_address_space_are_refused() {
    let huge: usize = 1 << (usize::BITS - 2);
    let mut arrays = UniformBufferArrays::<RenderResourceList>::new();
    arrays.uniform_arrays.push(Some((
        "light".to_string(),
        BufferArrayStatus {
            changed_item_count: 0,
            item_size: huge,
            aligned_size: huge,
            staging_buffer_offset: 0,
            buffer: None,
            queued_buffer_writes: Vec::new(),
            current_item_count: 0,
            current_item_capacity: 0,
            indices: HashMap::new(),
            current_index: 0,
            changed_size: 0,
            current_offset: 0,
        },
    )));
    let values = [value(8), value(8), value(8), value(8)];
    let uniforms: Vec<&RenderResourceList> = values.iter().collect();
    let owners = owner_ids(&tables(&[1, 2, 3, 4]));
    // Six slots of a quarter of the address space each cannot be addressed.
    assert_eq!(find_pack_error(&arrays, &uniforms, &owners, true, 4),
        Some(PackError::SizeOverflow));
    // Three slots can, but the values do not have the item size.
    assert_eq!(
        find_pack_error(&arrays, &uniforms, &owners, true, 2),
        Some(PackError::FieldSizeMismatch)
    );
    // Without shared buffers nothing grows.
    assert_eq!(find_pack_error(&arrays, &uniforms, &owners, false, 4), None);
}

#[test]
fn asset_node_reports_what_keeps_a_frame_from_being_packed() {
    let mut node = AssetRenderResourcesNode::<RenderResourceList>::new(true);
    let mut context = HeadlessRenderResourceContext::new();
    let a = value(4);
    let b = value(5);
    let mut objects = tables(&[1]);
    assert_eq!(
        node.try_run_system(
            &mut context,
            &vec![AssetHandle(1), AssetHandle(2)],
            &vec![&a, &b],
            &vec![AssetHandle(1)],
            &mut objects
        ),
        Err(PackError::FieldSizeMismatch)
    );
    assert!(node.asset_render_resource_assignments.is_empty());
    assert!(objects[0].get("light").is_none());
    assert_eq!(
        node.try_run_system(
            &mut context,
            &vec![AssetHandle(1)],
            &vec![&a],
            &vec![AssetHandle(1)],
            &mut objects
        ),
        Ok(())
    );
    assert!(objects[0].get("light").is_some());
}
