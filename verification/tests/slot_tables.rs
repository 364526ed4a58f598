use std::collections::HashMap;
use uniform_packer::assignments::RenderResourceAssignments;
use uniform_packer::command_queue::{Command, CommandQueue};
use uniform_packer::render_resource::{
    BufferInfo, BufferUsage, ByteRange, RenderResourceAssignment, RenderResourceAssignmentsId,
    RenderResourceId, ResourceInfo, COPY_DST, UNIFORM,
};
use uniform_packer::renderer::{HeadlessRenderResourceContext, RenderResourceContext};
use uniform_packer::uniform_buffer_arrays::{
    BufferArrayStatus, QueuedBufferWrite, UniformBufferArrays,
};
use uniform_packer::uniforms::{NamedRenderResource, RenderResourceList, RenderResourceValue};

fn status(item_size: usize, aligned_size: usize, capacity: usize) -> BufferArrayStatus {
    BufferArrayStatus {
        changed_item_count: 0,
        item_size,
        aligned_size,
        staging_buffer_offset: 0,
        buffer: if capacity > 0 { Some(RenderResourceId(99)) } else { None },
        queued_buffer_writes: Vec::new(),
        current_item_count: 0,
        current_item_capacity: capacity,
        indices: HashMap::new(),
        current_index: 0,
        changed_size: 0,
        current_offset: 0,
    }
}

fn value(fields: &[(&str, Option<Vec<u8>>)]) -> RenderResourceList {
    RenderResourceList {
        resources: fields
            .iter()
            .map(|(name, bytes)| NamedRenderResource {
                name: name.to_string(),
                hints: None,
                value: match bytes {
                    Some(bytes) => RenderResourceValue::Buffer(bytes.clone()),
                    None => RenderResourceValue::Absent,
                },
            })
            .collect(),
    }
}

#[test]
fn slots_are_assigned_in_sequence_and_kept() {
    let mut table = status(64, 256, 3);
    assert_eq!(table.get_or_assign_index(RenderResourceAssignmentsId(40)), 0);
    assert_eq!(table.get_or_assign_index(RenderResourceAssignmentsId(41)), 1);
    assert_eq!(table.get_or_assign_index(RenderResourceAssignmentsId(40)), 0);
    assert_eq!(table.current_index, 2);
    assert_eq!(table.get_or_assign_index(RenderResourceAssignmentsId(7)), 2);
    assert_eq!(table.current_index, 3);
    // The table is full; owners that have a slot still find it.
    assert_eq!(table.get_or_assign_index(RenderResourceAssignmentsId(41)), 1);
    assert_eq!(table.get_or_assign_index(RenderResourceAssignmentsId(7)), 2);
    assert_eq!(table.current_index, 3);
    assert_eq!(table.indices.len(), 3);
    assert_eq!(table.current_item_capacity, 3);
}

#[test]
fn counting_creates_and_updates_slot_tables() {
    let mut arrays = UniformBufferArrays::<RenderResourceList>::new();
    arrays.increment_changed_item_counts(&value(&[
        ("a", Some(vec![1; 300])),
        ("b", None),
        ("c", Some(vec![2; 8])),
    ]));
    assert_eq!(arrays.uniform_arrays.len(), 3);
    {
        let (name, first) = arrays.uniform_arrays[0].as_ref().unwrap();
        assert_eq!(name, "a");
        assert_eq!(first.changed_item_count, 1);
        assert_eq!(first.changed_size, 300);
        assert_eq!(first.item_size, 300);
        assert_eq!(first.aligned_size, 512);
        assert_eq!(first.staging_buffer_offset, 0);
        assert_eq!(first.buffer, None);
        assert_eq!(first.current_index, 0);
        assert_eq!(first.current_item_count, 0);
        assert_eq!(first.current_item_capacity, 0);
        assert_eq!(first.current_offset, 0);
        assert!(first.indices.is_empty());
        assert!(first.queued_buffer_writes.is_empty());
    }
    assert!(arrays.uniform_arrays[1].is_none());

    // A value with fewer fields keeps the tables of the other fields.
    arrays.increment_changed_item_counts(&value(&[("a", Some(vec![1; 300]))]));
    assert_eq!(arrays.uniform_arrays.len(), 3);
    // A field that was absent before is created when it is first seen with bytes.
    arrays.increment_changed_item_counts(&value(&[
        ("a", None),
        ("b", Some(vec![3; 20])),
        ("c", Some(vec![2; 10])),
        ("d", Some(vec![])),
    ]));
    assert_eq!(arrays.uniform_arrays.len(), 4);
    let counts: Vec<(usize, usize, usize)> = arrays
        .uniform_arrays
        .iter()
        .map(|entry| {
            let table = &entry.as_ref().unwrap().1;
            (table.changed_item_count, table.changed_size, table.item_size)
        })
        .collect();
    assert_eq!(counts, vec![(2, 600, 300), (1, 20, 20), (2, 18, 8), (1, 0, 0)]);

    arrays.reset_changed_item_counts();
    for entry in arrays.uniform_arrays.iter() {
        let table = &entry.as_ref().unwrap().1;
        assert_eq!(table.changed_item_count, 0);
        assert_eq!(table.changed_size, 0);
        assert_eq!(table.current_offset, 0);
    }
    assert_eq!(arrays.uniform_arrays[0].as_ref().unwrap().1.item_size, 300);
}

#[test]
fn buffer_grows_by_half_again_the_counted_items() {
    let mut context = HeadlessRenderResourceContext::new();
    let mut table = status(64, 256, 0);
    table.changed_item_count = 5;
    UniformBufferArrays::<RenderResourceList>::setup_buffer_array(&mut table, &mut context, true);
    assert_eq!(table.current_item_capacity, 7);
    assert_eq!(table.buffer, Some(RenderResourceId(0)));
    assert_eq!(
        context.get_resource_info(RenderResourceId(0)),
        Some(ResourceInfo::Buffer(Some(BufferInfo {
            size: 7 * 256,
            buffer_usage: BufferUsage { bits: COPY_DST | UNIFORM },
        })))
    );
    // Fewer or as many items as slots: nothing happens.
    table.changed_item_count = 7;
    UniformBufferArrays::<RenderResourceList>::setup_buffer_array(&mut table, &mut context, true);
    assert_eq!(table.current_item_capacity, 7);
    assert_eq!(table.buffer, Some(RenderResourceId(0)));
    assert_eq!(context.buffers.len(), 1);
    // One more: the buffer is replaced by a larger one, the old one stays alive.
    table.changed_item_count = 8;
    UniformBufferArrays::<RenderResourceList>::setup_buffer_array(&mut table, &mut context, false);
    assert_eq!(table.current_item_capacity, 12);
    assert_eq!(table.buffer, Some(RenderResourceId(1)));
    assert_eq!(
        context.get_resource_info(RenderResourceId(1)),
        Some(ResourceInfo::Buffer(Some(BufferInfo {
            size: 12 * 64,
            buffer_usage: BufferUsage { bits: COPY_DST | UNIFORM },
        })))
    );
    assert!(context.get_resource_info(RenderResourceId(0)).is_some());
}

#[test]
fn setup_grows_only_in_dynamic_mode_and_empties_the_writes() {
    let write = QueuedBufferWrite {
        buffer: RenderResourceId(5),
        target_offset: 0,
        source_offset: 0,
        size: 4,
    };
    let make = || {
        let mut arrays = UniformBufferArrays::<RenderResourceList>::new();
        let mut first = status(4, 256, 0);
        first.changed_item_count = 2;
        first.queued_buffer_writes.push(write);
        arrays.uniform_arrays.push(Some(("a".to_string(), first)));
        arrays.uniform_arrays.push(None);
        arrays
    };
    let mut context = HeadlessRenderResourceContext::new();
    let mut dedicated = make();
    dedicated.setup_buffer_arrays(&mut context, false);
    assert_eq!(dedicated.uniform_arrays[0].as_ref().unwrap().1.current_item_capacity, 0);
    assert!(dedicated.uniform_arrays[0].as_ref().unwrap().1.queued_buffer_writes.is_empty());
    assert!(context.buffers.is_empty());
    let mut shared = make();
    shared.setup_buffer_arrays(&mut context, true);
    assert_eq!(shared.uniform_arrays[0].as_ref().unwrap().1.current_item_capacity, 3);
    assert!(shared.uniform_arrays[0].as_ref().unwrap().1.queued_buffer_writes.is_empty());
    assert!(shared.uniform_arrays[1].is_none());
    assert_eq!(context.buffers.len(), 1);
}

#[test]
fn staging_ranges_follow_one_another() {
    let mut arrays = UniformBufferArrays::<RenderResourceList>::new();
    assert_eq!(arrays.update_staging_buffer_offsets(), 0);
    for size in [10usize, 0, 7] {
        let mut table = status(size, 256, 0);
        table.changed_size = size * 2;
        arrays.uniform_arrays.push(Some(("f".to_string(), table)));
        arrays.uniform_arrays.push(None);
    }
    assert_eq!(arrays.update_staging_buffer_offsets(), 34);
    let offsets: Vec<Option<usize>> = arrays
        .uniform_arrays
        .iter()
        .map(|entry| entry.as_ref().map(|(_, table)| table.staging_buffer_offset))
        .collect();
    assert_eq!(offsets, vec![Some(0), None, Some(20), None, Some(20), None]);
}

#[test]
fn one_value_is_written_bound_and_noted() {
    let mut arrays = UniformBufferArrays::<RenderResourceList>::new();
    let mut context = HeadlessRenderResourceContext::new();
    let first = value(&[("a", Some(vec![1, 2, 3])), ("b", None), ("c", Some(vec![9, 8]))]);
    let second = value(&[("a", Some(vec![4, 5, 6])), ("b", None), ("c", Some(vec![7, 6]))]);
    arrays.increment_changed_item_counts(&first);
    arrays.increment_changed_item_counts(&second);
    arrays.setup_buffer_arrays(&mut context, true);
    assert_eq!(arrays.update_staging_buffer_offsets(), 10);
    let mut staging = vec![0u8; 10];
    let mut table = RenderResourceAssignments::new(RenderResourceAssignmentsId(77));
    arrays.setup_uniform_buffer_resources(&second, true, &mut context, &mut table, &mut staging);
    assert_eq!(staging, vec![4, 5, 6, 0, 0, 0, 7, 6, 0, 0]);
    let mut other = RenderResourceAssignments::new(RenderResourceAssignmentsId(78));
    arrays.setup_uniform_buffer_resources(&first, true, &mut context, &mut other, &mut staging);
    assert_eq!(staging, vec![4, 5, 6, 1, 2, 3, 7, 6, 9, 8]);
    assert_eq!(
        other.get("c"),
        Some(RenderResourceAssignment::Buffer {
            resource: RenderResourceId(1),
            range: ByteRange { start: 0, end: 2 },
            dynamic_index: Some(256),
        })
    );
    assert_eq!(other.get("b"), None);
    let c = &arrays.uniform_arrays[2].as_ref().unwrap().1;
    assert_eq!(c.current_offset, 4);
    assert_eq!(
        c.queued_buffer_writes,
        vec![
            QueuedBufferWrite {
                buffer: RenderResourceId(1),
                target_offset: 0,
                source_offset: 0,
                size: 2
            },
            QueuedBufferWrite {
                buffer: RenderResourceId(1),
                target_offset: 256,
                source_offset: 2,
                size: 2
            },
        ]
    );

    let mut queue = CommandQueue::new();
    arrays.copy_staging_buffer_to_final_buffers(&mut queue, RenderResourceId(50));
    let copy = |source_offset: u64, buffer: u64, destination_offset: u64, size: u64| {
        Command::CopyBufferToBuffer {
            source_buffer: RenderResourceId(50),
            source_offset,
            destination_buffer: RenderResourceId(buffer),
            destination_offset,
            size,
        }
    };
    assert_eq!(
        queue.queue,
        vec![copy(0, 0, 0, 3), copy(3, 0, 256, 3), copy(6, 1, 0, 2), copy(8, 1, 256, 2)]
    );
    assert!(arrays.uniform_arrays[0].as_ref().unwrap().1.queued_buffer_writes.is_empty());
    assert!(arrays.uniform_arrays[2].as_ref().unwrap().1.queued_buffer_writes.is_empty());
    assert_eq!(arrays.uniform_arrays[2].as_ref().unwrap().1.current_offset, 4);
}

#[test]
fn command_queue_hands_out_commands_once_and_in_order() {
    let mut queue = CommandQueue::new();
    assert_eq!(queue.drain(), vec![]);
    queue.free_buffer(RenderResourceId(1));
    queue.copy_buffer_to_buffer(RenderResourceId(2), 3, RenderResourceId(4), 5, 6);
    queue.free_buffer(RenderResourceId(2));
    assert_eq!(
        queue.drain(),
        vec![
            Command::FreeBuffer(RenderResourceId(1)),
            Command::CopyBufferToBuffer {
                source_buffer: RenderResourceId(2),
                source_offset: 3,
                destination_buffer: RenderResourceId(4),
                destination_offset: 5,
                size: 6,
            },
            Command::FreeBuffer(RenderResourceId(2)),
        ]
    );
    assert_eq!(queue.drain(), vec![]);
}
