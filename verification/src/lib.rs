//! Computer vision fundamentals: the discrete core of image processing,
//! morphology, segmentation and line detection, with verified contracts.

pub mod grid;
pub mod image;
pub mod morphology;
pub mod segmentation;
pub mod filter;
pub mod transform;

pub use image::{Border, GrayImage, ImageError};
