//! Layers, losses and the blocks built from them.

pub mod activation;
pub mod derivative;
pub mod exact;
pub mod gradient;
pub mod layout;
pub mod linear;
pub mod loss;
pub mod metadata;
pub mod mlp;
pub mod node;
pub mod swiglu;
pub mod transformer;
