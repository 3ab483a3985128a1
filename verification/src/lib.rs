//! A color-quantization and remapping engine for severely constrained,
//! hardware-like palettes: a small fixed palette of low-bit-depth
//! hue/saturation/value colors plus one transparent slot, and an indexed
//! pixel buffer referencing that palette, optionally dithered.

pub mod color;
pub mod error;
pub mod histogram;
pub mod quant;
pub mod remap;
pub mod design;
pub mod window;
