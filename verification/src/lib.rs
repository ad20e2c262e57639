//! Reconstruct a Minecraft schematic from a screenshot: the verified engine.
//!
//! Every algorithm here is a function over pixel buffers and plain data
//! structures, with no file or DOM I/O; the command-line and browser shells
//! are thin I/O layers around it.
pub mod edges;
pub mod faces;
pub mod image;
pub mod lines;
pub mod overlay;
pub mod reconstruct;
pub mod schematic;
pub mod segmentation;
pub mod single;

pub use image::RgbImage;
pub use reconstruct::Reconstruction;
pub use schematic::{SchematicOptions, VoxelModel};
pub use segmentation::{segment, Class, Segmentation};
