use uniform_packer::assignments::RenderResourceAssignments;
use uniform_packer::command_queue::Command;
use uniform_packer::dedicated_buffer::setup_dedicated_buffer;
use uniform_packer::nodes::RenderResourcesNode;
use uniform_packer::render_resource::{
    BufferInfo, BufferUsage, ByteRange, RenderResourceAssignment, RenderResourceAssignmentsId,
    RenderResourceHints, RenderResourceId, ResourceInfo, BUFFER, COPY_DST, STORAGE, UNIFORM,
};
use uniform_packer::renderer::{HeadlessRenderResourceContext, RenderResourceContext};
use uniform_packer::uniforms::{NamedRenderResource, RenderResourceList, RenderResourceValue};

fn value(fill: u8, len: usize) -> RenderResourceList {
    RenderResourceList {
        resources: vec![NamedRenderResource {
            name: "material".to_string(),
            hints: None,
            value: RenderResourceValue::Buffer(vec![fill; len]),
        }],
    }
}

fn bound_buffer(table: &RenderResourceAssignments) -> RenderResourceId {
    table.get("material").unwrap().get_resource()
}

#[test]
fn unchanged_length_reuses_the_dedicated_buffer() {
    let mut node = RenderResourcesNode::<RenderResourceList>::new(false);
    let mut context = HeadlessRenderResourceContext::new();
    let mut owners = vec![RenderResourceAssignments::new(RenderResourceAssignmentsId(1))];

    let first = value(1, 48);
    node.run_system(&mut context, &vec![&first], &vec![true], &mut owners);
    let buffer = bound_buffer(&owners[0]);
    assert_eq!(buffer, RenderResourceId(0));
    assert_eq!(
        context.get_resource_info(buffer),
        Some(ResourceInfo::Buffer(Some(BufferInfo {
            size: 48,
            buffer_usage: BufferUsage { bits: COPY_DST | UNIFORM },
        })))
    );
    assert_eq!(
        owners[0].get("material"),
        Some(RenderResourceAssignment::Buffer {
            resource: buffer,
            range: ByteRange { start: 0, end: 48 },
            dynamic_index: None,
        })
    );
    assert_eq!(
        node.update(),
        vec![
            Command::CopyBufferToBuffer {
                source_buffer: RenderResourceId(1),
                source_offset: 0,
                destination_buffer: buffer,
                destination_offset: 0,
                size: 48,
            },
            Command::FreeBuffer(RenderResourceId(1)),
        ]
    );

    let second = value(2, 48);
    node.run_system(&mut context, &vec![&second], &vec![true], &mut owners);
    assert_eq!(bound_buffer(&owners[0]), buffer);
    assert!(context.get_resource_info(buffer).is_some());
    // Only the staging buffer of the second frame was created.
    assert_eq!(context.buffers.len(), 3);
    let status = &node.uniform_buffer_arrays.uniform_arrays[0].as_ref().unwrap().1;
    assert_eq!(status.current_item_capacity, 0);
    assert_eq!(status.buffer, None);
    assert!(status.indices.is_empty());
}

#[test]
fn changed_length_frees_the_buffer_and_creates_a_new_one() {
    let mut node = RenderResourcesNode::<RenderResourceList>::new(false);
    let mut context = HeadlessRenderResourceContext::new();
    let mut owners = vec![RenderResourceAssignments::new(RenderResourceAssignmentsId(1))];

    let first = value(1, 48);
    node.run_system(&mut context, &vec![&first], &vec![true], &mut owners);
    let old_buffer = bound_buffer(&owners[0]);

    let second = value(2, 80);
    node.run_system(&mut context, &vec![&second], &vec![true], &mut owners);
    let new_buffer = bound_buffer(&owners[0]);
    assert_ne!(new_buffer, old_buffer);
    assert_eq!(context.get_resource_info(old_buffer), None);
    assert_eq!(
        context.get_resource_info(new_buffer),
        Some(ResourceInfo::Buffer(Some(BufferInfo {
            size: 80,
            buffer_usage: BufferUsage { bits: COPY_DST | UNIFORM },
        })))
    );
    assert_eq!(
        owners[0].get("material"),
        Some(RenderResourceAssignment::Buffer {
            resource: new_buffer,
            range: ByteRange { start: 0, end: 80 },
            dynamic_index: None,
        })
    );
}

#[test]
fn each_owner_gets_a_buffer_of_its_own_length() {
    let mut node = RenderResourcesNode::<RenderResourceList>::new(false);
    let mut context = HeadlessRenderResourceContext::new();
    let mut owners = vec![
        RenderResourceAssignments::new(RenderResourceAssignmentsId(1)),
        RenderResourceAssignments::new(RenderResourceAssignmentsId(2)),
    ];
    let a = value(1, 10);
    let b = value(2, 30);
    node.run_system(&mut context, &vec![&a, &b], &vec![true, true], &mut owners);
    assert_eq!(bound_buffer(&owners[0]), RenderResourceId(0));
    assert_eq!(bound_buffer(&owners[1]), RenderResourceId(1));
    let mut staged = vec![1u8; 10];
    staged.extend(vec![2u8; 30]);
    assert_eq!(context.buffers[2].as_ref().unwrap().data, Some(staged));
    let copy = |source_offset: u64, buffer: u64, size: u64| Command::CopyBufferToBuffer {
        source_buffer: RenderResourceId(2),
        source_offset,
        destination_buffer: RenderResourceId(buffer),
        destination_offset: 0,
        size,
    };
    assert_eq!(
        node.update(),
        vec![copy(0, 0, 10), copy(10, 1, 30), Command::FreeBuffer(RenderResourceId(2))]
    );
}

#[test]
fn buffer_hint_asks_for_a_storage_buffer() {
    let mut context = HeadlessRenderResourceContext::new();
    let mut table = RenderResourceAssignments::new(RenderResourceAssignmentsId(1));
    let hinted = setup_dedicated_buffer(
        &mut context,
        &mut table,
        "particles",
        100,
        Some(RenderResourceHints { bits: BUFFER }),
    );
    assert_eq!(
        context.get_resource_info(hinted),
        Some(ResourceInfo::Buffer(Some(BufferInfo {
            size: 100,
            buffer_usage: BufferUsage { bits: COPY_DST | STORAGE },
        })))
    );
    let plain = setup_dedicated_buffer(
        &mut context,
        &mut table,
        "camera",
        64,
        Some(RenderResourceHints { bits: 0 }),
    );
    assert_eq!(
        context.get_resource_info(plain),
        Some(ResourceInfo::Buffer(Some(BufferInfo {
            size: 64,
            buffer_usage: BufferUsage { bits: COPY_DST | UNIFORM },
        })))
    );
    assert!(RenderResourceHints { bits: 3 }.contains(BUFFER));
    assert!(!RenderResourceHints { bits: 2 }.contains(BUFFER));
}

#[test]
fn binding_to_something_that_is_no_buffer_is_replaced_without_freeing() {
    let mut context = HeadlessRenderResourceContext::new();
    let mut table = RenderResourceAssignments::new(RenderResourceAssignmentsId(1));
    table.set("material", RenderResourceAssignment::Texture(RenderResourceId(77)));
    let buffer = setup_dedicated_buffer(&mut context, &mut table, "material", 12, None);
    assert_eq!(buffer, RenderResourceId(0));
    assert_eq!(
        table.get("material"),
        Some(RenderResourceAssignment::Buffer {
            resource: buffer,
            range: ByteRange { start: 0, end: 12 },
            dynamic_index: None,
        })
    );
    assert_eq!(setup_dedicated_buffer(&mut context, &mut table, "material", 12, None), buffer);
    assert_eq!(context.buffers.len(), 1);
}
