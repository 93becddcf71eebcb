//! A neural-network runtime for CUDA devices whose host-side logic is verified.
//!
//! The library decides everything that happens around the device: which
//! buffers exist and which are pooled, which ranges are copied where, how
//! launches cover their data, what every layer does to its inputs and which
//! state a training step keeps. It records that work as a sequence of
//! [`cuda::command::Command`] values; a driver binary executes them.

pub mod cuda;
pub mod graph;
pub mod net;
