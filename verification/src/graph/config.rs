//! Shapes and optimizer settings.

use vstd::prelude::*;

use crate::cuda::scalar::F32;
use crate::graph::schedule::Rate;

verus! {

/// The shape of a matrix that flows through a graph.
#[derive(Clone, Copy, Debug, PartialEq, Eq, Structural)]
pub struct MatrixConfig {
    pub rows: usize,
    pub cols: usize,
}

impl MatrixConfig {
    pub fn new(rows: usize, cols: usize) -> (r: MatrixConfig)
        ensures
            r == (MatrixConfig { rows, cols }),
    {
        MatrixConfig { rows, cols }
    }
}

/// One optimizer step: the mean gradient of `batch_len` samples is applied
/// with classical momentum.
#[derive(Clone, Copy, Debug, PartialEq, Eq, Structural)]
pub struct LearnConfig {
    pub learning_rate: Rate,
    pub momentum: F32,
    pub batch_len: usize,
}

impl LearnConfig {
    /// A step after a single sample, without momentum.
    pub fn single(learning_rate: Rate) -> (r: LearnConfig)
        ensures
            r == (LearnConfig { learning_rate, momentum: F32 { bits: 0 }, batch_len: 1 }),
    {
        LearnConfig { learning_rate, momentum: F32::zero(), batch_len: 1 }
    }

    /// What an optimizer step accepts.
    pub open spec fn valid(self) -> bool {
        &&& self.batch_len > 0
        &&& self.learning_rate.positive()
        &&& self.momentum.finite() && 0 <= self.momentum.value() < (F32 {
            bits: crate::cuda::scalar::ONE_BITS,
        }).value()
    }

    /// Whether an optimizer step accepts these settings.
    pub fn is_valid(&self) -> (r: bool)
        ensures
            r == self.valid(),
    {
        self.batch_len > 0 && self.learning_rate.is_positive() && self.momentum.is_fraction()
    }
}

} // verus!
