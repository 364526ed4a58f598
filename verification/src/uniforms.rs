//! The capability of a uniform-bearing value: a fixed, ordered list of named render resources.

use vstd::prelude::*;
use crate::render_resource::{RenderResourceHints, ResourceInfo, TextureHandle};

verus! {

/// What one named field of a uniform-bearing value holds in the current frame.
pub struct RenderResourceField {
    /// The name under which the field is bound.
    pub name: Seq<char>,
    /// The kind of resource behind the field; `None` where the field is absent this frame.
    pub resource_info: Option<ResourceInfo>,
    /// The serialised bytes of a buffer-backed field.
    pub bytes: Seq<u8>,
    /// The texture behind a texture-backed field.
    pub texture: Option<TextureHandle>,
    /// Optional hints on how the field wants to be stored.
    pub hints: Option<RenderResourceHints>,
}

impl RenderResourceField {
    /// The field holds bytes that go into a buffer.
    pub open spec fn is_buffer(self) -> bool {
        self.resource_info matches Some(ResourceInfo::Buffer(_))
    }

    /// The field refers to a texture.
    pub open spec fn is_texture(self) -> bool {
        self.resource_info == Some(ResourceInfo::Texture)
    }

    /// The number of bytes that the field contributes to a buffer: none unless buffer-backed.
    pub open spec fn byte_len(self) -> nat {
        if self.is_buffer() {
            self.bytes.len()
        } else {
            0
        }
    }
}

/// A value that exposes an ordered list of named render resources.
pub trait RenderResources {
    /// The fields of the value, in their fixed order.
    spec fn fields(&self) -> Seq<RenderResourceField>;

    /// The number of fields.
    fn render_resources_len(&self) -> (len: usize)
        ensures
            len == self.fields().len(),
    ;

    /// The name of the field at `index`.
    fn get_render_resource_name(&self, index: usize) -> (name: Option<&str>)
        ensures
            index < self.fields().len() ==> name.is_some() && name.unwrap()@
                == self.fields()[index as int].name,
            index >= self.fields().len() ==> name.is_none(),
    ;

    /// The hints of the field at `index`, if it has any.
    fn get_render_resource_hints(&self, index: usize) -> (hints: Option<RenderResourceHints>)
        ensures
            index < self.fields().len() ==> hints == self.fields()[index as int].hints,
            index >= self.fields().len() ==> hints.is_none(),
    ;

    /// The kind of the field at `index`, or `None` where it is absent or out of range.
    fn resource_info(&self, index: usize) -> (info: Option<ResourceInfo>)
        ensures
            index < self.fields().len() ==> info == self.fields()[index as int].resource_info,
            index >= self.fields().len() ==> info.is_none(),
    ;

    /// The length of the serialised field at `index`, for a buffer-backed field.
    fn buffer_byte_len(&self, index: usize) -> (len: Option<usize>)
        ensures
            index < self.fields().len() && self.fields()[index as int].is_buffer() ==> len
                == Some(self.fields()[index as int].bytes.len() as usize)
                && self.fields()[index as int].bytes.len() <= usize::MAX,
            !(index < self.fields().len() && self.fields()[index as int].is_buffer())
                ==> len.is_none(),
    ;

    /// Serialises the buffer-backed field at `index` into `buffer`, filling it exactly.
    fn write_buffer_bytes(&self, index: usize, buffer: &mut [u8])
        requires
            index < self.fields().len(),
            self.fields()[index as int].is_buffer(),
            old(buffer)@.len() == self.fields()[index as int].bytes.len(),
        ensures
            final(buffer)@ == self.fields()[index as int].bytes,
    ;

    /// The texture behind the field at `index`, for a texture-backed field that has one.
    fn texture(&self, index: usize) -> (handle: Option<TextureHandle>)
        ensures
            index < self.fields().len() ==> handle == self.fields()[index as int].texture,
            index >= self.fields().len() ==> handle.is_none(),
    ;
}

/// The content of one field of a `RenderResourceList`.
#[derive(Debug)]
pub enum RenderResourceValue {
    /// Bytes that go into a buffer.
    Buffer(Vec<u8>),
    /// A texture, if one is set.
    Texture(Option<TextureHandle>),
    /// A sampler.
    Sampler,
    /// Nothing this frame.
    Absent,
}

/// One named field of a `RenderResourceList`.
#[derive(Debug)]
pub struct NamedRenderResource {
    pub name: String,
    pub hints: Option<RenderResourceHints>,
    pub value: RenderResourceValue,
}

impl NamedRenderResource {
    /// The field as the packer sees it.
    pub open spec fn field(&self) -> RenderResourceField {
        RenderResourceField {
            name: self.name@,
            resource_info: match self.value {
                RenderResourceValue::Buffer(_) => Some(ResourceInfo::Buffer(None)),
                RenderResourceValue::Texture(_) => Some(ResourceInfo::Texture),
                RenderResourceValue::Sampler => Some(ResourceInfo::Sampler),
                RenderResourceValue::Absent => None,
            },
            bytes: match self.value {
                RenderResourceValue::Buffer(bytes) => bytes@,
                _ => Seq::empty(),
            },
            texture: match self.value {
                RenderResourceValue::Texture(handle) => handle,
                _ => None,
            },
            hints: self.hints,
        }
    }
}

/// A uniform-bearing value held as plain data: each field with its name and content.
#[derive(Debug)]
pub struct RenderResourceList {
    pub resources: Vec<NamedRenderResource>,
}

impl RenderResources for RenderResourceList {
    open spec fn fields(&self) -> Seq<RenderResourceField> {
        Seq::new(self.resources@.len(), |i: int| self.resources@[i].field())
    }

    fn render_resources_len(&self) -> (len: usize) {
        self.resources.len()
    }

    fn get_render_resource_name(&self, index: usize) -> (name: Option<&str>) {
        if index < self.resources.len() {
            Some(self.resources[index].name.as_str())
        } else {
            None
        }
    }

    fn get_render_resource_hints(&self, index: usize) -> (hints: Option<RenderResourceHints>) {
        if index < self.resources.len() {
            self.resources[index].hints
        } else {
            None
        }
    }

    fn resource_info(&self, index: usize) -> (info: Option<ResourceInfo>) {
        if index < self.resources.len() {
            match &self.resources[index].value {
                RenderResourceValue::Buffer(_) => Some(ResourceInfo::Buffer(None)),
                RenderResourceValue::Texture(_) => Some(ResourceInfo::Texture),
                RenderResourceValue::Sampler => Some(ResourceInfo::Sampler),
                RenderResourceValue::Absent => None,
            }
        } else {
            None
        }
    }

    fn buffer_byte_len(&self, index: usize) -> (len: Option<usize>) {
        if index < self.resources.len() {
            match &self.resources[index].value {
                RenderResourceValue::Buffer(bytes) => Some(bytes.len()),
                _ => None,
            }
        } else {
            None
        }
    }

    fn write_buffer_bytes(&self, index: usize, buffer: &mut [u8]) {
        match &self.resources[index].value {
            RenderResourceValue::Buffer(bytes) => {
                let mut i: usize = 0;
                while i < bytes.len()
                    invariant
                        i <= bytes@.len(),
                        buffer@.len() == bytes@.len(),
                        forall|j: int| 0 <= j < i ==> buffer@[j] == bytes@[j],
                    decreases bytes@.len() - i,
                {
                    buffer[i] = bytes[i];
                    i += 1;
                }
                assert(buffer@ =~= bytes@);
            },
            _ => {},
        }
    }

    fn texture(&self, index: usize) -> (handle: Option<TextureHandle>) {
        if index < self.resources.len() {
            match &self.resources[index].value {
                RenderResourceValue::Texture(handle) => *handle,
                _ => None,
            }
        } else {
            None
        }
    }
}

} // verus!
