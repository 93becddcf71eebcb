//! Host-side model of the device: commands, buffers, spans and containers.

pub mod algebra;
pub mod arith;
pub mod command;
pub mod container;
pub mod device;
pub mod elementwise;
pub mod exact;
pub mod launch;
pub mod meaning;
pub mod model;
pub mod ops;
pub mod order;
pub mod pool;
pub mod runtime;
pub mod scalar;
pub mod span;
