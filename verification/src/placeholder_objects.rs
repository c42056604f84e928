//! Descriptions of view objects over placeholder buffers and images.  A
//! view refers to its parent object by identifier and narrows it to a byte
//! range or a subresource range.

use vstd::prelude::*;

verus! {

/// A byte range within a buffer.
#[derive(Clone, Copy, PartialEq, Eq, Structural, Debug)]
pub struct BufferRange {
    pub offset: u64,
    pub length: u64,
}

/// A subresource range within an image: an aspect selector plus half-open
/// mip-level and array-layer windows.
#[derive(Clone, Copy, PartialEq, Eq, Structural, Debug)]
pub struct ImageSubresourceRange {
    pub aspect_mask: u32,
    pub base_mip_level: u32,
    pub mip_level_count: u32,
    pub base_array_layer: u32,
    pub array_layer_count: u32,
}

/// A buffer view over an externally supplied buffer.
#[derive(Clone, Copy, PartialEq, Eq, Structural, Debug)]
pub struct ExternalBufferViewInfo {
    pub buffer: u64,
    pub range: BufferRange,
}

/// A buffer view over an internally allocated buffer, with its texel
/// format.
#[derive(Clone, Copy, PartialEq, Eq, Structural, Debug)]
pub struct InternalBufferViewInfo {
    pub buffer: u64,
    pub range: BufferRange,
    pub format: u32,
}

/// A buffer view over either kind of parent buffer.
#[derive(Clone, Copy, Debug)]
pub enum BufferViewInfo {
    External(ExternalBufferViewInfo),
    Internal(InternalBufferViewInfo),
}

impl BufferViewInfo {
    /// The parent buffer's identifier.
    pub open spec fn spec_buffer(self) -> u64 {
        match self {
            BufferViewInfo::External(info) => info.buffer,
            BufferViewInfo::Internal(info) => info.buffer,
        }
    }

    /// The viewed byte range.
    pub open spec fn spec_buffer_range(self) -> BufferRange {
        match self {
            BufferViewInfo::External(info) => info.range,
            BufferViewInfo::Internal(info) => info.range,
        }
    }

    /// The parent buffer's identifier.
    pub fn get_buffer(&self) -> (r: u64)
        ensures
            r == self.spec_buffer(),
    {
        match self {
            BufferViewInfo::External(info) => info.buffer,
            BufferViewInfo::Internal(info) => info.buffer,
        }
    }

    /// The viewed byte range.
    pub fn get_buffer_range(&self) -> (r: BufferRange)
        ensures
            r == self.spec_buffer_range(),
    {
        match self {
            BufferViewInfo::External(info) => info.range,
            BufferViewInfo::Internal(info) => info.range,
        }
    }
}

/// An image view over an externally supplied image.
#[derive(Clone, Copy, PartialEq, Eq, Structural, Debug)]
pub struct ExternalImageViewInfo {
    pub image: u64,
    pub range: ImageSubresourceRange,
}

/// How an image view permutes the colour channels of its parent image:
/// one source selector per output channel.
#[derive(Clone, Copy, PartialEq, Eq, Structural, Debug)]
pub struct ComponentMapping {
    pub r: u32,
    pub g: u32,
    pub b: u32,
    pub a: u32,
}

/// An image view over an internally allocated image, with its texel format
/// and channel mapping.
#[derive(Clone, Copy, PartialEq, Eq, Structural, Debug)]
pub struct InternalImageViewInfo {
    pub image: u64,
    pub range: ImageSubresourceRange,
    pub format: u32,
    pub component_mapping: ComponentMapping,
}

/// An image view over either kind of parent image.
#[derive(Clone, Copy, Debug)]
pub enum ImageViewInfo {
    External(ExternalImageViewInfo),
    Internal(InternalImageViewInfo),
}

impl ImageViewInfo {
    /// The parent image's identifier.
    pub open spec fn spec_image(self) -> u64 {
        match self {
            ImageViewInfo::External(info) => info.image,
            ImageViewInfo::Internal(info) => info.image,
        }
    }

    /// The viewed subresource range.
    pub open spec fn spec_image_subresource_range(self) -> ImageSubresourceRange {
        match self {
            ImageViewInfo::External(info) => info.range,
            ImageViewInfo::Internal(info) => info.range,
        }
    }

    /// The parent image's identifier.
    pub fn get_image(&self) -> (r: u64)
        ensures
            r == self.spec_image(),
    {
        match self {
            ImageViewInfo::External(info) => info.image,
            ImageViewInfo::Internal(info) => info.image,
        }
    }

    /// The viewed subresource range.
    pub fn get_image_subresource_range(&self) -> (r: ImageSubresourceRange)
        ensures
            r == self.spec_image_subresource_range(),
    {
        match self {
            ImageViewInfo::External(info) => info.range,
            ImageViewInfo::Internal(info) => info.range,
        }
    }
}

} // verus!
