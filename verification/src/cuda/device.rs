//! What a single thread of a kernel does: which elements it reads, which it
//! writes, and in which order. The driver's kernels follow these functions
//! with the arithmetic of the device.

pub mod common;
pub mod elementwise;
pub mod block;
pub mod gemm;
pub mod index;
pub mod launches;
pub mod reduction;
pub mod stage;
