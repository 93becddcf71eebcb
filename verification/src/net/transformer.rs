//! Transformer blocks.

pub mod attention;
pub mod inference;
pub mod position;
pub mod stages;
pub mod training;

use vstd::prelude::*;

verus! {

/// The normalisation after each half of a block.
#[derive(Clone, Copy, Debug, PartialEq, Eq, Structural)]
pub enum NormType {
    Rms,
    Layer,
}

impl Default for NormType {
    fn default() -> (r: NormType)
        ensures
            r == NormType::Layer,
    {
        NormType::Layer
    }
}

} // verus!
