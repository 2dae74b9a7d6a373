// The block compressor's prebuilt kernels are C++ and need its runtime.
use link_cplusplus as _;

pub mod convert;
pub mod imaging;
pub mod material;
pub mod mesh;
pub mod model;
pub mod packing;
pub mod parser;
pub mod pixels;
pub mod source;
pub mod texture;

pub use model::{Model, ModelNode};
