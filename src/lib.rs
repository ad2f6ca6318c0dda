//! Grayscale image kernels on row-major 8-bit buffers: contrast-limited
//! adaptive histogram equalization (with a fused downscaling variant),
//! adaptive thresholding, binary morphology and the box blur behind unsharp
//! masking.

pub mod sums;
pub mod histogram;
pub mod clahe;
pub mod laws;
pub mod threshold;
pub mod morphology;
pub mod unsharp;
