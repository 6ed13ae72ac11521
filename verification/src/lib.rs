//! Fused per-pixel and 3x3 spatial image pipelines over planar RGBA images.
pub mod image;
pub mod ops;
pub mod pipeline;
pub mod spatial_ops;

pub use image::{PhotonImage, PhotonView, PlanarImage, PlanarView};
pub use ops::PixelOp;
pub use pipeline::Pipeline;
