//! Plain descriptions of shader interfaces: the kinds of uniform bindings
//! and the pipeline stages a binding may be visible to.

use vstd::prelude::*;

verus! {

/// The kind of resource a uniform binding refers to.
#[derive(Debug, PartialEq, Eq, Hash)]
pub enum UniformType {
    ImageSampler,
    StorageImage,
    StorageBuffer,
    DynamicStorageBuffer,
}

/// The pipeline stage (or stage set) a binding is visible to.
#[derive(Debug, PartialEq, Eq, Hash)]
pub enum ShaderStage {
    Vertex,
    Geometry,
    Fragment,
    Compute,
    All,
    AllGraphics,
}

/// Context relating to compute shaders, such as their inputs and outputs.
pub struct ComputeContext {}

} // verus!
