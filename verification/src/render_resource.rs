//! Handles, buffer descriptions and the capability that a uniform-bearing value offers.

use vstd::prelude::*;

verus! {

/// Required alignment, in bytes, of an item's offset inside a dynamically indexed buffer.
pub const BIND_BUFFER_ALIGNMENT: usize = 256;

/// Buffer usage flag: the buffer can be the source of a copy.
pub const COPY_SRC: u32 = 4;

/// Buffer usage flag: the buffer can be the destination of a copy.
pub const COPY_DST: u32 = 8;

/// Buffer usage flag: the buffer can be bound as a uniform buffer.
pub const UNIFORM: u32 = 64;

/// Buffer usage flag: the buffer can be bound as a storage buffer.
pub const STORAGE: u32 = 128;

/// Hint flag: the resource prefers a storage buffer over a uniform buffer.
pub const BUFFER: u32 = 1;

/// Handle of a resource that lives in the rendering backend.
#[derive(Clone, Copy, Debug, PartialEq, Eq, Hash, Structural)]
pub struct RenderResourceId(pub u64);

/// Identity of one binding table, and so of the owner the table belongs to.
#[derive(Clone, Copy, Debug, PartialEq, Eq, Hash, Structural)]
pub struct RenderResourceAssignmentsId(pub u64);

/// Handle of a texture asset.
#[derive(Clone, Copy, Debug, PartialEq, Eq, Hash, Structural)]
pub struct TextureHandle(pub u64);

/// A set of buffer usage flags.
#[derive(Clone, Copy, Debug, PartialEq, Eq, Hash, Structural)]
pub struct BufferUsage {
    pub bits: u32,
}

/// A set of hint flags attached to one render resource.
#[derive(Clone, Copy, Debug, PartialEq, Eq, Hash, Structural)]
pub struct RenderResourceHints {
    pub bits: u32,
}

impl RenderResourceHints {
    /// Whether every flag of `flags` is set.
    pub open spec fn spec_contains(self, flags: u32) -> bool {
        self.bits & flags == flags
    }

    /// Whether every flag of `flags` is set.
    #[verifier::when_used_as_spec(spec_contains)]
    pub fn contains(self, flags: u32) -> (found: bool)
        ensures
            found == self.spec_contains(flags),
    {
        self.bits & flags == flags
    }
}

/// Size and usage of a buffer.
#[derive(Clone, Copy, Debug, PartialEq, Eq, Hash, Structural)]
pub struct BufferInfo {
    pub size: usize,
    pub buffer_usage: BufferUsage,
}

/// What kind of backend resource stands behind a handle or a field.
#[derive(Clone, Copy, Debug, PartialEq, Eq, Hash)]
pub enum ResourceInfo {
    Buffer(Option<BufferInfo>),
    Texture,
    Sampler,
}

/// A half-open range of bytes inside a buffer.
#[derive(Clone, Copy, Debug, PartialEq, Eq, Hash, Structural)]
pub struct ByteRange {
    pub start: u64,
    pub end: u64,
}

/// The backend resource that a named field is bound to.
#[derive(Clone, Copy, Debug, PartialEq, Eq, Hash)]
pub enum RenderResourceAssignment {
    Buffer { resource: RenderResourceId, range: ByteRange, dynamic_index: Option<u64> },
    Texture(RenderResourceId),
    Sampler(RenderResourceId),
}

impl RenderResourceAssignment {
    /// The handle that the binding refers to.
    pub open spec fn resource(self) -> RenderResourceId {
        match self {
            RenderResourceAssignment::Buffer { resource, .. } => resource,
            RenderResourceAssignment::Texture(resource) => resource,
            RenderResourceAssignment::Sampler(resource) => resource,
        }
    }

    /// The handle that the binding refers to.
    pub fn get_resource(&self) -> (resource: RenderResourceId)
        ensures
            resource == self.resource(),
    {
        match self {
            RenderResourceAssignment::Buffer { resource, .. } => *resource,
            RenderResourceAssignment::Texture(resource) => *resource,
            RenderResourceAssignment::Sampler(resource) => *resource,
        }
    }
}

/// The least multiple of the bind alignment that is no smaller than `data_size`.
pub open spec fn aligned_dynamic_uniform_size(data_size: int) -> int {
    ((data_size + 255) / 256) * 256
}

/// Rounds `data_size` up to the next multiple of `BIND_BUFFER_ALIGNMENT`.
pub fn get_aligned_dynamic_uniform_size(data_size: usize) -> (aligned: usize)
    requires
        aligned_dynamic_uniform_size(data_size as int) <= usize::MAX,
    ensures
        aligned == aligned_dynamic_uniform_size(data_size as int),
{
    let blocks: usize = data_size / BIND_BUFFER_ALIGNMENT;
    let rest: usize = data_size % BIND_BUFFER_ALIGNMENT;
    if rest == 0 {
        blocks * BIND_BUFFER_ALIGNMENT
    } else {
        (blocks + 1) * BIND_BUFFER_ALIGNMENT
    }
}

/// The aligned size is a multiple of the alignment, holds the data, and wastes less than one
/// alignment unit; so is every slot offset `index * aligned_size`.
pub proof fn lemma_aligned_size(data_size: int, index: int)
    requires
        0 <= data_size,
    ensures
        aligned_dynamic_uniform_size(data_size) % 256 == 0,
        data_size <= aligned_dynamic_uniform_size(data_size) < data_size + 256,
        (index * aligned_dynamic_uniform_size(data_size)) % 256 == 0,
{
    let blocks = (data_size + 255) / 256;
    assert(aligned_dynamic_uniform_size(data_size) == blocks * 256);
    assert((blocks * 256) % 256 == 0) by (nonlinear_arith);
    let scaled = index * blocks;
    assert(index * (blocks * 256) == scaled * 256) by (nonlinear_arith)
        requires
            scaled == index * blocks,
    ;
    assert((scaled * 256) % 256 == 0) by (nonlinear_arith);
}

} // verus!
