use uniform_packer::assignments::RenderResourceAssignments;
use uniform_packer::command_queue::Command;
use uniform_packer::nodes::{count_leading_visible, RenderResourcesNode};
use uniform_packer::render_resource::{
    BufferInfo, BufferUsage, ByteRange, RenderResourceAssignment, RenderResourceAssignmentsId,
    RenderResourceId, ResourceInfo, COPY_DST, COPY_SRC, UNIFORM,
};
use uniform_packer::renderer::{HeadlessRenderResourceContext, RenderResourceContext};
use uniform_packer::uniforms::{NamedRenderResource, RenderResourceList, RenderResourceValue};

fn value(fill: u8, len: usize) -> RenderResourceList {
    RenderResourceList {
        resources: vec![NamedRenderResource {
            name: "transform".to_string(),
            hints: None,
            value: RenderResourceValue::Buffer(vec![fill; len]),
        }],
    }
}

fn tables(ids: &[u64]) -> Vec<RenderResourceAssignments> {
    ids.iter().map(|id| RenderResourceAssignments::new(RenderResourceAssignmentsId(*id))).collect()
}

fn run(
    node: &mut RenderResourcesNode<RenderResourceList>,
    context: &mut HeadlessRenderResourceContext,
    values: &[RenderResourceList],
    visible: &[bool],
    tables: &mut Vec<RenderResourceAssignments>,
) {
    let uniforms: Vec<&RenderResourceList> = values.iter().collect();
    node.run_system(context, &uniforms, &visible.to_vec(), tables);
}

#[test]
fn three_visible_instances_share_one_dynamic_buffer() {
    let mut node = RenderResourcesNode::<RenderResourceList>::new(true);
    let mut context = HeadlessRenderResourceContext::new();
    let values = [value(1, 64), value(2, 64), value(3, 64)];
    let mut owners = tables(&[10, 11, 12]);
    run(&mut node, &mut context, &values, &[true, true, true], &mut owners);

    assert_eq!(node.uniform_buffer_arrays.uniform_arrays.len(), 1);
    let (name, status) = node.uniform_buffer_arrays.uniform_arrays[0].as_ref().unwrap();
    assert_eq!(name, "transform");
    assert_eq!(status.item_size, 64);
    assert_eq!(status.aligned_size, 256);
    assert_eq!(status.changed_item_count, 3);
    assert_eq!(status.changed_size, 192);
    assert_eq!(status.current_item_capacity, 4);
    assert_eq!(status.current_index, 3);
    assert_eq!(status.staging_buffer_offset, 0);
    assert_eq!(status.current_offset, 192);
    assert_eq!(status.buffer, Some(RenderResourceId(0)));
    assert_eq!(status.indices.get(&10), Some(&0));
    assert_eq!(status.indices.get(&11), Some(&1));
    assert_eq!(status.indices.get(&12), Some(&2));
    assert!(status.queued_buffer_writes.is_empty());

    assert_eq!(
        context.get_resource_info(RenderResourceId(0)),
        Some(ResourceInfo::Buffer(Some(BufferInfo {
            size: 1024,
            buffer_usage: BufferUsage { bits: COPY_DST | UNIFORM },
        })))
    );
    assert_eq!(
        context.get_resource_info(RenderResourceId(1)),
        Some(ResourceInfo::Buffer(Some(BufferInfo {
            size: 192,
            buffer_usage: BufferUsage { bits: COPY_SRC },
        })))
    );
    let mut staged = vec![1u8; 64];
    staged.extend(vec![2u8; 64]);
    staged.extend(vec![3u8; 64]);
    assert_eq!(context.buffers[1].as_ref().unwrap().data, Some(staged));

    let copy = |source_offset: u64, destination_offset: u64| Command::CopyBufferToBuffer {
        source_buffer: RenderResourceId(1),
        source_offset,
        destination_buffer: RenderResourceId(0),
        destination_offset,
        size: 64,
    };
    assert_eq!(
        node.update(),
        vec![copy(0, 0), copy(64, 256), copy(128, 512), Command::FreeBuffer(RenderResourceId(1))]
    );
    assert_eq!(node.update(), vec![]);

    for (k, table) in owners.iter().enumerate() {
        assert_eq!(
            table.get("transform"),
            Some(RenderResourceAssignment::Buffer {
                resource: RenderResourceId(0),
                range: ByteRange { start: 0, end: 64 },
                dynamic_index: Some(256 * k as u64),
            })
        );
    }
}

#[test]
fn capacity_never_shrinks_and_grows_when_exceeded() {
    let mut node = RenderResourcesNode::<RenderResourceList>::new(true);
    let mut context = HeadlessRenderResourceContext::new();
    let capacity = |node: &RenderResourcesNode<RenderResourceList>| {
        node.uniform_buffer_arrays.uniform_arrays[0].as_ref().unwrap().1.current_item_capacity
    };

    let five: Vec<RenderResourceList> = (0..5).map(|k| value(k, 16)).collect();
    let mut owners = tables(&[1, 2, 3, 4, 5]);
    run(&mut node, &mut context, &five, &[true; 5], &mut owners);
    assert_eq!(capacity(&node), 7);

    let two: Vec<RenderResourceList> = (0..2).map(|k| value(k, 16)).collect();
    let mut owners = tables(&[1, 2]);
    run(&mut node, &mut context, &two, &[true; 2], &mut owners);
    assert_eq!(capacity(&node), 7);

    let six: Vec<RenderResourceList> = (0..6).map(|k| value(k, 16)).collect();
    let mut owners = tables(&[1, 2, 3, 4, 5, 6]);
    run(&mut node, &mut context, &six, &[true; 6], &mut owners);
    assert_eq!(capacity(&node), 7);

    let eight: Vec<RenderResourceList> = (0..8).map(|k| value(k, 16)).collect();
    let mut owners = tables(&[1, 2, 3, 4, 5, 6, 7, 8]);
    run(&mut node, &mut context, &eight, &[true; 8], &mut owners);
    assert_eq!(capacity(&node), 12);
}

#[test]
fn capacity_grows_past_the_capacity_of_an_earlier_frame() {
    let mut node = RenderResourcesNode::<RenderResourceList>::new(true);
    let mut context = HeadlessRenderResourceContext::new();
    let capacity = |node: &RenderResourcesNode<RenderResourceList>| {
        node.uniform_buffer_arrays.uniform_arrays[0].as_ref().unwrap().1.current_item_capacity
    };
    let two: Vec<RenderResourceList> = (0..2).map(|k| value(k, 16)).collect();
    run(&mut node, &mut context, &two, &[true; 2], &mut tables(&[1, 2]));
    assert_eq!(capacity(&node), 3);
    let one = [value(0, 16)];
    run(&mut node, &mut context, &one, &[true], &mut tables(&[1]));
    assert_eq!(capacity(&node), 3);
    let six: Vec<RenderResourceList> = (0..6).map(|k| value(k, 16)).collect();
    run(&mut node, &mut context, &six, &[true; 6], &mut tables(&[1, 2, 3, 4, 5, 6]));
    assert_eq!(capacity(&node), 9);
}

#[test]
fn slot_of_an_owner_survives_growth() {
    let mut node = RenderResourcesNode::<RenderResourceList>::new(true);
    let mut context = HeadlessRenderResourceContext::new();
    let two = [value(1, 32), value(2, 32)];
    let mut owners = tables(&[7, 9]);
    run(&mut node, &mut context, &two, &[true, true], &mut owners);
    let first_buffer = node.uniform_buffer_arrays.uniform_arrays[0].as_ref().unwrap().1.buffer;
    node.update();

    let five = [value(5, 32), value(4, 32), value(3, 32), value(2, 32), value(1, 32)];
    let mut owners = tables(&[20, 9, 21, 7, 22]);
    run(&mut node, &mut context, &five, &[true; 5], &mut owners);
    let status = &node.uniform_buffer_arrays.uniform_arrays[0].as_ref().unwrap().1;
    assert_eq!(status.current_item_capacity, 7);
    assert_ne!(status.buffer, first_buffer);
    assert_eq!(status.indices.get(&7), Some(&0));
    assert_eq!(status.indices.get(&9), Some(&1));
    assert_eq!(status.indices.get(&20), Some(&2));
    assert_eq!(status.indices.get(&21), Some(&3));
    assert_eq!(status.indices.get(&22), Some(&4));
    let offsets: Vec<Option<u64>> = owners
        .iter()
        .map(|table| match table.get("transform") {
            Some(RenderResourceAssignment::Buffer { dynamic_index, .. }) => dynamic_index,
            _ => None,
        })
        .collect();
    assert_eq!(offsets, vec![Some(512), Some(256), Some(768), Some(0), Some(1024)]);
    let destinations: Vec<u64> = node
        .update()
        .iter()
        .filter_map(|command| match command {
            Command::CopyBufferToBuffer { destination_offset, .. } => Some(*destination_offset),
            _ => None,
        })
        .collect();
    assert_eq!(destinations, vec![512, 256, 768, 0, 1024]);
}

#[test]
fn empty_frame_allocates_no_staging_buffer() {
    let mut node = RenderResourcesNode::<RenderResourceList>::new(true);
    let mut context = HeadlessRenderResourceContext::new();
    run(&mut node, &mut context, &[], &[], &mut Vec::new());
    assert!(context.buffers.is_empty());
    assert_eq!(node.update(), vec![]);
    assert!(node.uniform_buffer_arrays.uniform_arrays.is_empty());
}

#[test]
fn zero_length_items_need_no_staging_buffer() {
    let mut node = RenderResourcesNode::<RenderResourceList>::new(true);
    let mut context = HeadlessRenderResourceContext::new();
    let values = [value(0, 0), value(0, 0)];
    let mut owners = tables(&[1, 2]);
    run(&mut node, &mut context, &values, &[true, true], &mut owners);
    assert_eq!(context.buffers.len(), 1);
    assert_eq!(node.update(), vec![]);
    let status = &node.uniform_buffer_arrays.uniform_arrays[0].as_ref().unwrap().1;
    assert_eq!(status.changed_item_count, 2);
    assert_eq!(status.changed_size, 0);
    assert_eq!(status.aligned_size, 0);
    assert_eq!(status.queued_buffer_writes.len(), 2);
}

#[test]
fn packing_stops_at_the_first_invisible_object() {
    assert_eq!(count_leading_visible(&vec![]), 0);
    assert_eq!(count_leading_visible(&vec![true, true, false, true]), 2);
    assert_eq!(count_leading_visible(&vec![false, true]), 0);
    assert_eq!(count_leading_visible(&vec![true, true]), 2);

    let mut node = RenderResourcesNode::<RenderResourceList>::new(true);
    let mut context = HeadlessRenderResourceContext::new();
    let values = [value(1, 8), value(2, 8), value(3, 8), value(4, 8)];
    let mut owners = tables(&[1, 2, 3, 4]);
    run(&mut node, &mut context, &values, &[true, true, false, true], &mut owners);
    let status = &node.uniform_buffer_arrays.uniform_arrays[0].as_ref().unwrap().1;
    assert_eq!(status.changed_item_count, 2);
    assert_eq!(status.changed_size, 16);
    assert_eq!(status.current_item_capacity, 3);
    assert!(owners[0].get("transform").is_some());
    assert!(owners[1].get("transform").is_some());
    assert!(owners[2].get("transform").is_none());
    assert!(owners[3].get("transform").is_none());
    assert_eq!(node.update().len(), 3);
}

#[test]
fn several_fields_get_consecutive_staging_ranges() {
    let make = |a: u8, b: u8| RenderResourceList {
        resources: vec![
            NamedRenderResource {
                name: "color".to_string(),
                hints: None,
                value: RenderResourceValue::Buffer(vec![a; 16]),
            },
            NamedRenderResource {
                name: "texture".to_string(),
                hints: None,
                value: RenderResourceValue::Texture(None),
            },
            NamedRenderResource {
                name: "model".to_string(),
                hints: None,
                value: RenderResourceValue::Buffer(vec![b; 4]),
            },
        ],
    };
    let mut node = RenderResourcesNode::<RenderResourceList>::new(true);
    let mut context = HeadlessRenderResourceContext::new();
    let values = [make(1, 2), make(3, 4)];
    let mut owners = tables(&[1, 2]);
    run(&mut node, &mut context, &values, &[true, true], &mut owners);
    let arrays = &node.uniform_buffer_arrays.uniform_arrays;
    assert_eq!(arrays.len(), 3);
    assert!(arrays[1].is_none());
    assert_eq!(arrays[0].as_ref().unwrap().1.staging_buffer_offset, 0);
    assert_eq!(arrays[2].as_ref().unwrap().1.staging_buffer_offset, 32);
    assert_eq!(arrays[2].as_ref().unwrap().0, "model");
    let mut staged = vec![1u8; 16];
    staged.extend(vec![3u8; 16]);
    staged.extend(vec![2u8; 4]);
    staged.extend(vec![4u8; 4]);
    assert_eq!(context.buffers[2].as_ref().unwrap().data, Some(staged));
    let copy = |source_offset: u64, buffer: u64, destination_offset: u64, size: u64| {
        Command::CopyBufferToBuffer {
            source_buffer: RenderResourceId(2),
            source_offset,
            destination_buffer: RenderResourceId(buffer),
            destination_offset,
            size,
        }
    };
    assert_eq!(
        node.update(),
        vec![
            copy(0, 0, 0, 16),
            copy(16, 0, 256, 16),
            copy(32, 1, 0, 4),
            copy(36, 1, 256, 4),
            Command::FreeBuffer(RenderResourceId(2)),
        ]
    );
}
