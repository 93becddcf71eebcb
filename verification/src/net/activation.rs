//! Activation functions, by name. The driver evaluates them on the device.

use vstd::prelude::*;

verus! {

/// An element-wise activation.
#[derive(Clone, Copy, Debug, PartialEq, Eq, Structural)]
pub enum Activation {
    Identity,
    Gelu,
    Relu,
    Silu,
    Sigmoid,
}

impl Activation {
    /// Whether this is the identity, which needs no device work.
    pub fn is_identity(self) -> (r: bool)
        ensures
            r == (self is Identity),
    {
        match self {
            Activation::Identity => true,
            _ => false,
        }
    }
}

} // verus!
