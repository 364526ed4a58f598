use uniform_packer::render_resource::{get_aligned_dynamic_uniform_size, BIND_BUFFER_ALIGNMENT};

#[test]
fn aligned_size_rounds_up_to_alignment() {
    assert_eq!(BIND_BUFFER_ALIGNMENT, 256);
    assert_eq!(get_aligned_dynamic_uniform_size(0), 0);
    assert_eq!(get_aligned_dynamic_uniform_size(1), 256);
    assert_eq!(get_aligned_dynamic_uniform_size(64), 256);
    assert_eq!(get_aligned_dynamic_uniform_size(256), 256);
    assert_eq!(get_aligned_dynamic_uniform_size(257), 512);
    assert_eq!(get_aligned_dynamic_uniform_size(1000), 1024);
}
