//! Per-frame packing of uniform data into GPU buffers.
//!
//! Values that expose named render resources are counted, given room in shared or dedicated
//! buffers, serialised into one staging buffer and made visible through queued buffer copies.

pub mod assignments;
pub mod command_queue;
pub mod dedicated_buffer;
pub mod frame;
pub mod nodes;
pub mod packing;
pub mod render_resource;
pub mod texture;
pub mod renderer;
pub mod uniform_buffer_arrays;
pub mod uniform_buffer_writes;
pub mod uniforms;
pub mod validate;
