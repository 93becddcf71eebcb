//! Single-precision numbers by their bit patterns, and the host-side scalar
//! expressions that parametrise device work.

use vstd::arithmetic::power2::{lemma_pow2_pos, lemma_pow2_strictly_increases, lemma_pow2_adds, pow2};
use vstd::prelude::*;

verus! {

/// An IEEE-754 single by its bit pattern.
#[derive(Clone, Copy, Debug, PartialEq, Eq, Structural)]
pub struct F32 {
    pub bits: u32,
}

/// The biased exponent field of a bit pattern.
pub open spec fn exponent_field(bits: u32) -> nat {
    ((bits / 0x80_0000u32) % 256u32) as nat
}

/// The fraction field of a bit pattern.
pub open spec fn fraction_field(bits: u32) -> nat {
    (bits % 0x80_0000u32) as nat
}

/// The absolute value in units of two to the power of minus 149, the spacing
/// of the smallest subnormals. Infinity gets the value that its fields spell.
pub open spec fn magnitude(bits: u32) -> nat {
    if exponent_field(bits) == 0 {
        fraction_field(bits)
    } else {
        ((fraction_field(bits) + 0x80_0000) * pow2((exponent_field(bits) - 1) as nat)) as nat
    }
}

/// Magnitudes are ordered as the bit patterns without a sign bit are.
pub proof fn lemma_magnitude_ordered(a: u32, b: u32)
    requires
        a < b,
        b < 0x8000_0000,
    ensures
        magnitude(a) < magnitude(b),
{
    let (ea, eb) = (exponent_field(a), exponent_field(b));
    let (fa, fb) = (fraction_field(a), fraction_field(b));
    assert(a == ea * 0x80_0000 + fa);
    assert(b == eb * 0x80_0000 + fb);
    assert(ea <= eb);
    if ea == eb {
        assert(fa < fb);
        if ea > 0 {
            lemma_pow2_pos((ea - 1) as nat);
            let p = pow2((ea - 1) as nat) as int;
            assert((fa + 0x80_0000) * p < (fb + 0x80_0000) * p) by (nonlinear_arith)
                requires
                    fa < fb,
                    p > 0,
            ;
        }
    } else if ea == 0 {
        lemma_pow2_pos((eb - 1) as nat);
        let p = pow2((eb - 1) as nat) as int;
        assert((fb + 0x80_0000) * p >= 0x80_0000) by (nonlinear_arith)
            requires
                fb >= 0,
                p >= 1,
        ;
    } else {
        lemma_pow2_pos((ea - 1) as nat);
        let p = pow2((ea - 1) as nat) as int;
        let q = pow2((eb - 1) as nat) as int;
        assert(q >= 2 * p) by {
            lemma_pow2_adds(1, (ea - 1) as nat);
            vstd::arithmetic::power2::lemma2_to64();
            assert(pow2(ea) == 2 * p);
            if ea < eb - 1 {
                lemma_pow2_strictly_increases(ea, (eb - 1) as nat);
            }
        }
        assert((fa + 0x80_0000) * p < (fb + 0x80_0000) * q) by (nonlinear_arith)
            requires
                0 <= fa < 0x80_0000,
                fb >= 0,
                p > 0,
                q >= 2 * p,
        ;
    }
}

impl F32 {
    /// Whether the sign bit is set.
    pub open spec fn negative(self) -> bool {
        self.bits >= 0x8000_0000u32
    }

    /// The bit pattern without its sign.
    pub open spec fn unsigned(self) -> u32 {
        (self.bits % 0x8000_0000u32) as u32
    }

    /// Neither an infinity nor a NaN.
    pub open spec fn finite(self) -> bool {
        exponent_field(self.bits) != 255
    }

    /// Not a number.
    pub open spec fn nan(self) -> bool {
        exponent_field(self.bits) == 255 && fraction_field(self.bits) != 0
    }

    /// The value in units of two to the power of minus 149.
    pub open spec fn value(self) -> int {
        if self.negative() {
            -(magnitude(self.unsigned()) as int)
        } else {
            magnitude(self.unsigned()) as int
        }
    }

    /// Zero.
    pub fn zero() -> (r: F32)
        ensures
            r.bits == 0,
    {
        F32 { bits: 0 }
    }

    /// One.
    pub fn one() -> (r: F32)
        ensures
            r.bits == ONE_BITS,
    {
        F32 { bits: ONE_BITS }
    }

    /// Whether the number is finite.
    pub fn is_finite(self) -> (r: bool)
        ensures
            r == self.finite(),
    {
        (self.bits / 0x80_0000) % 256 != 255
    }

    /// Whether the number is finite and greater than zero.
    pub fn is_finite_positive(self) -> (r: bool)
        ensures
            r == (self.finite() && self.value() > 0),
    {
        proof {
            if self.bits < 0x8000_0000 && self.bits != 0 {
                lemma_magnitude_ordered(0, self.bits);
            }
        }
        self.is_finite() && self.bits < 0x8000_0000 && self.bits != 0
    }

    /// Whether the number is finite and not below zero. Negative zero counts.
    pub fn is_finite_non_negative(self) -> (r: bool)
        ensures
            r == (self.finite() && self.value() >= 0),
    {
        proof {
            if self.bits > 0x8000_0000 {
                lemma_magnitude_ordered(0, self.unsigned());
            }
        }
        self.is_finite() && self.bits <= 0x8000_0000
    }

    /// Whether the number lies in `[0, 1)`.
    pub fn is_fraction(self) -> (r: bool)
        ensures
            r == (self.finite() && 0 <= self.value() < (F32 { bits: ONE_BITS }).value()),
    {
        proof {
            if self.bits < ONE_BITS {
                lemma_magnitude_ordered(self.bits, ONE_BITS);
            } else if self.bits < 0x8000_0000 {
                if self.bits > ONE_BITS {
                    lemma_magnitude_ordered(ONE_BITS, self.bits);
                }
            } else if self.bits > 0x8000_0000 {
                lemma_magnitude_ordered(0, self.unsigned());
            } else {
                lemma_magnitude_ordered(0, ONE_BITS);
            }
        }
        self.is_finite() && (self.bits < ONE_BITS || self.bits == 0x8000_0000)
    }

    /// Equality of the numbers: NaN differs from everything, the zeros agree.
    pub fn equals(self, other: F32) -> (r: bool)
        ensures
            r == (!self.nan() && !other.nan() && self.value() == other.value()),
    {
        let nan_here: bool = (self.bits / 0x80_0000) % 256 == 255 && self.bits % 0x80_0000 != 0;
        let nan_there: bool = (other.bits / 0x80_0000) % 256 == 255 && other.bits % 0x80_0000 != 0;
        proof {
            let (a, b) = (self.unsigned(), other.unsigned());
            if a < b {
                lemma_magnitude_ordered(a, b);
            } else if b < a {
                lemma_magnitude_ordered(b, a);
            }
            if 0 < a {
                lemma_magnitude_ordered(0, a);
            }
            if 0 < b {
                lemma_magnitude_ordered(0, b);
            }
        }
        !nan_here && !nan_there && (self.bits == other.bits || (self.bits % 0x8000_0000 == 0
            && other.bits % 0x8000_0000 == 0))
    }
}

/// The bit pattern of one.
pub const ONE_BITS: u32 = 0x3f80_0000;

/// The bit pattern of minus one.
pub const MINUS_ONE_BITS: u32 = 0xbf80_0000;

/// The bit pattern of two.
pub const TWO_BITS: u32 = 0x4000_0000;

/// The bit pattern of minus two.
pub const MINUS_TWO_BITS: u32 = 0xc000_0000;

/// The bit pattern of negative infinity, the identity of a maximum.
pub const NEGATIVE_INFINITY_BITS: u32 = 0xff80_0000;

/// A scalar that the host computes in single precision before it hands it to
/// device work. The driver evaluates the expression.
#[derive(Debug, PartialEq, Eq)]
pub enum Scalar {
    /// A literal.
    Literal(F32),
    /// `n` as a number.
    Count(usize),
    /// `1.0 / n`.
    Reciprocal(usize),
    /// `1.0 / sqrt(n)`.
    InverseRoot(usize),
    /// The first element of the download with this number.
    Downloaded(usize),
    Sum(Box<Scalar>, Box<Scalar>),
    Difference(Box<Scalar>, Box<Scalar>),
    Product(Box<Scalar>, Box<Scalar>),
    Quotient(Box<Scalar>, Box<Scalar>),
    /// The first raised to the second.
    Power(Box<Scalar>, Box<Scalar>),
}

impl Scalar {
    /// A copy of the expression.
    pub fn duplicate(&self) -> (r: Scalar)
        ensures
            r == *self,
        decreases *self,
    {
        match self {
            Scalar::Literal(v) => Scalar::Literal(*v),
            Scalar::Count(n) => Scalar::Count(*n),
            Scalar::Reciprocal(n) => Scalar::Reciprocal(*n),
            Scalar::InverseRoot(n) => Scalar::InverseRoot(*n),
            Scalar::Downloaded(n) => Scalar::Downloaded(*n),
            Scalar::Sum(a, b) => Scalar::Sum(Box::new(a.duplicate()), Box::new(b.duplicate())),
            Scalar::Difference(a, b) => Scalar::Difference(
                Box::new(a.duplicate()),
                Box::new(b.duplicate()),
            ),
            Scalar::Product(a, b) => Scalar::Product(
                Box::new(a.duplicate()),
                Box::new(b.duplicate()),
            ),
            Scalar::Quotient(a, b) => Scalar::Quotient(
                Box::new(a.duplicate()),
                Box::new(b.duplicate()),
            ),
            Scalar::Power(a, b) => Scalar::Power(Box::new(a.duplicate()), Box::new(b.duplicate())),
        }
    }
}

/// The small numbers by which rules multiply, in terms of one.
pub proof fn lemma_small_numbers()
    ensures
        (F32 { bits: TWO_BITS }).value() == 2 * (F32 { bits: ONE_BITS }).value(),
        (F32 { bits: MINUS_TWO_BITS }).value() == -2 * (F32 { bits: ONE_BITS }).value(),
        (F32 { bits: MINUS_ONE_BITS }).value() == -1 * (F32 { bits: ONE_BITS }).value(),
{
    vstd::arithmetic::power2::lemma_pow2_unfold(127);
    let one = pow2(126);
    assert(pow2(127) == 2 * one);
    assert(exponent_field(ONE_BITS) == 127 && exponent_field(MINUS_ONE_BITS) == 127);
    assert(exponent_field(TWO_BITS) == 128 && exponent_field(MINUS_TWO_BITS) == 128);
    assert(fraction_field(ONE_BITS) == 0 && fraction_field(TWO_BITS) == 0);
    assert(magnitude(ONE_BITS) == 0x80_0000 * one);
    assert(magnitude(TWO_BITS) == 0x80_0000 * (2 * one));
    assert(magnitude(MINUS_ONE_BITS) == 0x80_0000 * one);
    assert(magnitude(MINUS_TWO_BITS) == 0x80_0000 * (2 * one));
}

} // verus!
