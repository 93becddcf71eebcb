//! Element functions that kernels are instantiated with.

use vstd::prelude::*;

use super::device::common::{lemma_share, scrambled, share_of};
use super::scalar::{Scalar, F32};
use crate::net::activation::Activation;

verus! {

/// A function of one element.
#[derive(Debug, PartialEq, Eq)]
pub enum MapFn {
    /// `x`
    Identity,
    /// `x * value`
    Scale(Scalar),
    /// `x + value`
    Shift(Scalar),
    /// `exp(x - value)`
    ExpShifted(Scalar),
    /// One where `x >= value`, zero elsewhere.
    Threshold(F32),
    /// The numerically stable logistic sigmoid.
    Sigmoid,
    /// The activation itself.
    Activate(Activation),
    /// The derivative of the activation.
    Slope(Activation),
    /// `0.5 * x * x`
    HalfSquare,
    /// `max(x, 0) + ln(1 + exp(-|x|))`
    Softplus,
    /// `value * softplus(-x)`
    WeightedSoftplusOfNegative(Scalar),
    /// A function that the driver knows under this number.
    Custom(u32),
}

/// A function of two elements.
#[derive(Clone, Copy, Debug, PartialEq, Eq, Structural)]
pub enum BinaryFn {
    Add,
    Sub,
    Mul,
    Div,
    Max,
    /// A function that the driver knows under this number.
    Custom(u32),
}

/// A function of an element's index, used to fill fresh buffers.
#[derive(Clone, Copy, Debug, PartialEq, Eq, Structural)]
pub enum InitFn {
    /// `index`
    Sequence,
    /// `len - index` for a buffer of this length.
    Reverse(usize),
    Zero,
    /// A pseudo-random value between zero and one. The number tells the draws of a runtime apart;
    /// a driver seeds each by it.
    Random(usize),
}

impl InitFn {
    /// The number at an index, unless it is drawn.
    pub open spec fn number(self, index: int) -> Option<int> {
        match self {
            InitFn::Sequence => Some(index),
            InitFn::Reverse(len) => Some(len - index),
            InitFn::Zero => Some(0),
            InitFn::Random(_) => None,
        }
    }

    /// Whether the value at an index can come out as this number. A draw is the share of a
    /// word that the generator makes, whatever word it starts from.
    pub open spec fn can_be(self, index: int, x: real) -> bool {
        match self.number(index) {
            Some(n) => x == n as real,
            None => exists|word: u32| x == share_of(#[trigger] scrambled(word)),
        }
    }

    /// Draws lie between zero and one.
    pub proof fn lemma_draws(self, index: int, x: real)
        requires
            self is Random,
            self.can_be(index, x),
        ensures
            0int as real <= x,
            x <= 1int as real,
    {
        let word = choose|word: u32| x == share_of(#[trigger] scrambled(word));
        lemma_share(scrambled(word));
    }
}

/// A function of a whole row that yields a row.
#[derive(Clone, Copy, Debug, PartialEq, Eq, Structural)]
pub enum RowFn {
    Softmax,
    /// Layer normalisation with this epsilon.
    LayerNorm(F32),
    /// Root-mean-square normalisation with this epsilon.
    RmsNorm(F32),
    /// Hides the columns after the row's position inside a period of rows.
    CausalMask(usize),
    /// Rotary position encoding by row.
    Rope,
}

impl RowFn {
    /// What a row function sees of the row's index.
    pub open spec fn position(self, row: int) -> int {
        match self {
            RowFn::CausalMask(period) => row % (period as int),
            RowFn::Rope => row,
            _ => 0,
        }
    }
}

} // verus!
