//! The derivatives of losses, in real arithmetic.
//!
//! An expression is read as a number together with its slope along one variable: sums add
//! slopes, products follow the product rule, and the slope of softplus is the sigmoid.

use vstd::prelude::*;

use crate::cuda::algebra::{apply, row_of, total, zip, Term};
use crate::cuda::container::{Matrix, Vector};
use crate::cuda::device::launches::{
    law_paired_reductions_fold_their_pairs, law_reductions_fold_their_items,
};
use crate::cuda::device::reduction::{fold, monoid};
use crate::cuda::meaning::{lemma_numbers, number, Reading};
use crate::cuda::ops::{BinaryFn, InitFn, MapFn, RowFn};
use crate::cuda::runtime::CudaRuntime;
use crate::cuda::scalar::{
    lemma_small_numbers, Scalar, F32, MINUS_ONE_BITS, MINUS_TWO_BITS, ONE_BITS, TWO_BITS,
};
use crate::net::loss::{
    cross_entropy_gradient, dice_denominator, dice_downloads, dice_gradient, dice_numerator,
    dice_penalty, reduction_scalar, Loss,
};

verus! {

/// A number and its slope along a variable.
pub ghost struct Dual {
    pub value: real,
    pub slope: real,
}

/// How the functions that losses are made of are read.
pub ghost struct Calculus {
    pub letters: spec_fn(InitFn, int) -> Dual,
    pub softplus: spec_fn(real) -> real,
    pub sigmoid: spec_fn(real) -> real,
    pub inverse_root: spec_fn(usize) -> real,
    pub power: spec_fn(real, real) -> real,
    /// What was brought to the host.
    pub downloaded: spec_fn(usize) -> Dual,
}

/// Zero.
pub open spec fn nil() -> real {
    0int as real
}

/// One.
pub open spec fn unit() -> real {
    1int as real
}

/// A number that does not change.
pub open spec fn level(value: real) -> Dual {
    Dual { value, slope: nil() }
}

/// What stands for an expression that losses are not made of.
pub open spec fn unknown() -> Dual {
    level(nil())
}

/// The sum of two numbers.
pub open spec fn plus(a: Dual, b: Dual) -> Dual {
    Dual { value: a.value + b.value, slope: a.slope + b.slope }
}

/// Their difference.
pub open spec fn minus(a: Dual, b: Dual) -> Dual {
    Dual { value: a.value - b.value, slope: a.slope - b.slope }
}

/// Their product.
pub open spec fn times(a: Dual, b: Dual) -> Dual {
    Dual { value: a.value * b.value, slope: a.slope * b.value + a.value * b.slope }
}

/// Their quotient.
pub open spec fn over(a: Dual, b: Dual) -> Dual {
    Dual {
        value: a.value / b.value,
        slope: (a.slope * b.value - a.value * b.slope) / (b.value * b.value),
    }
}

impl Calculus {
    /// The number that a scalar stands for.
    pub open spec fn scalar(self, s: Scalar) -> Dual
        decreases s,
    {
        match s {
            Scalar::Literal(v) => level(number(v)),
            Scalar::Count(n) => level(n as int as real),
            Scalar::Reciprocal(n) => level(unit() / (n as int as real)),
            Scalar::InverseRoot(n) => level((self.inverse_root)(n)),
            Scalar::Downloaded(n) => (self.downloaded)(n),
            Scalar::Sum(a, b) => plus(self.scalar(*a), self.scalar(*b)),
            Scalar::Difference(a, b) => minus(self.scalar(*a), self.scalar(*b)),
            Scalar::Product(a, b) => times(self.scalar(*a), self.scalar(*b)),
            Scalar::Quotient(a, b) => over(self.scalar(*a), self.scalar(*b)),
            Scalar::Power(a, b) => {
                let base = self.scalar(*a);
                let exponent = self.scalar(*b);
                if base.slope == nil() && exponent.slope == nil() {
                    level((self.power)(base.value, exponent.value))
                } else {
                    unknown()
                }
            },
        }
    }

    /// A function of a number, for the functions that losses are made of.
    pub open spec fn applied(self, f: MapFn, a: Dual) -> Dual {
        match f {
            MapFn::Identity => a,
            MapFn::Scale(s) => times(a, self.scalar(s)),
            MapFn::Shift(s) => plus(a, self.scalar(s)),
            MapFn::HalfSquare => Dual {
                value: a.value * a.value / (2int as real),
                slope: a.value * a.slope,
            },
            MapFn::Sigmoid => Dual {
                value: (self.sigmoid)(a.value),
                slope: (self.sigmoid)(a.value) * (unit() - (self.sigmoid)(a.value)) * a.slope,
            },
            MapFn::Softplus => Dual {
                value: (self.softplus)(a.value),
                slope: (self.sigmoid)(a.value) * a.slope,
            },
            MapFn::WeightedSoftplusOfNegative(s) => times(
                self.scalar(s),
                Dual {
                    value: (self.softplus)(nil() - a.value),
                    slope: (self.sigmoid)(nil() - a.value) * (nil() - a.slope),
                },
            ),
            _ => unknown(),
        }
    }

    /// A function of two numbers.
    pub open spec fn combined(self, f: BinaryFn, a: Dual, b: Dual) -> Dual {
        match f {
            BinaryFn::Add => plus(a, b),
            BinaryFn::Sub => minus(a, b),
            BinaryFn::Mul => times(a, b),
            BinaryFn::Div => over(a, b),
            _ => unknown(),
        }
    }

    /// Expressions in real arithmetic.
    pub open spec fn reading(self) -> Reading<Dual> {
        Reading {
            undefined: unknown(),
            literal: |v: F32| level(number(v)),
            fill: self.letters,
            map: |f: MapFn, a: Dual| self.applied(f, a),
            combine: |f: BinaryFn, a: Dual, b: Dual| self.combined(f, a, b),
            dot: |a: Seq<Dual>, b: Seq<Dual>| unknown(),
            row: |f: RowFn, position: int, a: Seq<Dual>, i: int| unknown(),
            row_gradient: |f: RowFn, a: Seq<Dual>, g: Seq<Dual>, i: int| unknown(),
            same: |a: Dual, b: Dual| a.value == b.value,
            yes: level(unit()),
            no: level(nil()),
        }
    }

    /// An expression.
    pub open spec fn read(self, term: Term) -> Dual {
        self.reading().read(term)
    }

    /// The sum of numbers.
    pub open spec fn sum(self, values: Seq<Dual>) -> Dual {
        fold(self.reading().combiner(BinaryFn::Add), level(nil()), values)
    }

    /// The slopes are those along one of the outputs, targets stay, and the sigmoid of a
    /// negated number is what is missing to one.
    pub open spec fn along(self, outputs: Seq<Term>, targets: Seq<Term>, e: int) -> bool {
        &&& outputs.len() == targets.len()
        &&& forall|i: int|
            0 <= i < outputs.len() ==> (#[trigger] self.read(outputs[i])).slope == if i == e {
                unit()
            } else {
                nil()
            }
        &&& forall|i: int|
            0 <= i < targets.len() ==> (#[trigger] self.read(targets[i])).slope == nil()
        &&& forall|x: real| #[trigger]
            (self.sigmoid)(nil() - x) == unit() - (self.sigmoid)(x)
    }

    /// The mean of the losses of all rows.
    pub open spec fn mean(self, losses: Seq<Term>) -> Dual {
        let sum = self.sum(self.reading().read_all(losses));
        let count = losses.len() as int as real;
        Dual { value: sum.value / count, slope: sum.slope / count }
    }
}

/// Adding numbers does not mind how they are grouped, and zero changes nothing.
proof fn lemma_adding(c: Calculus)
    ensures
        monoid(c.reading().combiner(BinaryFn::Add), level(nil())),
        (c.reading().literal)(F32 { bits: 0 }) == level(nil()),
{
    lemma_numbers();
    let g = c.reading().combiner(BinaryFn::Add);
    let zero = level(nil());
    assert forall|a: Dual, b: Dual, d: Dual| #[trigger] g(g(a, b), d) == g(a, g(b, d)) by {
        assert(g(a, b) == plus(a, b));
        assert(g(b, d) == plus(b, d));
        assert(g(plus(a, b), d) == plus(plus(a, b), d));
        assert(g(a, plus(b, d)) == plus(a, plus(b, d)));
    }
    assert forall|a: Dual| #[trigger] g(zero, a) == a by {
        assert(g(zero, a) == plus(zero, a));
    }
    assert forall|a: Dual| #[trigger] g(a, zero) == a by {
        assert(g(a, zero) == plus(a, zero));
    }
}

/// A sum in which all but one number are level.
proof fn lemma_one_slope(c: Calculus, values: Seq<Dual>, at: int, slope: real)
    requires
        forall|i: int|
            0 <= i < values.len() ==> (#[trigger] values[i]).slope == if i == at {
                slope
            } else {
                nil()
            },
    ensures
        c.sum(values).slope == if 0 <= at < values.len() {
            slope
        } else {
            nil()
        },
    decreases values.len(),
{
    if values.len() > 0 {
        let fewer = values.drop_last();
        assert forall|i: int| 0 <= i < fewer.len() implies (#[trigger] fewer[i]).slope == if i == at {
            slope
        } else {
            nil()
        } by {
            assert(fewer[i] == values[i]);
        }
        lemma_one_slope(c, fewer, at, slope);
        assert(values.last() == values[values.len() - 1]);
        let g = c.reading().combiner(BinaryFn::Add);
        assert(g(c.sum(fewer), values.last()) == plus(c.sum(fewer), values.last()));
    }
}

/// A sum on the device is the sum.
proof fn lemma_total(c: Calculus, items: Seq<Term>)
    ensures
        c.read(total(items)) == c.sum(Seq::new(items.len(), |i: int| c.read(items[i]))),
{
    lemma_adding(c);
    let reading = c.reading();
    law_reductions_fold_their_items(
        reading,
        MapFn::Identity,
        BinaryFn::Add,
        F32 { bits: 0 },
        items,
    );
    assert(Seq::new(
        items.len(),
        |i: int| (reading.map)(MapFn::Identity, reading.read(items[i])),
    ) =~= Seq::new(items.len(), |i: int| c.read(items[i])));
}

/// The gradient before it is divided by the number of elements.
spec fn raw_gradient(
    loss: Loss,
    positive_weight: F32,
    outputs: Seq<Term>,
    targets: Seq<Term>,
) -> Seq<Term> {
    match loss {
        Loss::MeanSquaredError => zip(BinaryFn::Sub, outputs, targets),
        Loss::BinaryCrossEntropyWithLogits => cross_entropy_gradient(
            outputs,
            targets,
            positive_weight,
        ),
    }
}

/// The slope of the cross entropy of one element, along a variable that is the element's
/// logit or not.
proof fn lemma_cross_entropy_slope(
    p: real,
    t: real,
    x: real,
    w: real,
    softened: real,
    own: bool,
)
    ensures
        ({
            let d = if own {
                unit()
            } else {
                nil()
            };
            let q = unit() - p;
            let s = w - unit();
            let base = p * d - (d * t + x * nil());
            let weighted = nil() * softened + s * (q * (nil() - d));
            let more = weighted * t + (s * softened) * nil();
            base + more == if own {
                p * (t * s + unit()) - t * w
            } else {
                nil()
            }
        }),
{
    let z = 0int as real;
    let u = 1int as real;
    let s = w - u;
    let q = u - p;
    let other = s * softened;
    assert(x * z == z && z * softened == z && other * z == z) by (nonlinear_arith)
        requires
            z == 0int as real,
    ;
    if own {
        assert(p * u == p && u * t == t) by (nonlinear_arith)
            requires
                u == 1int as real,
        ;
        let minus = z - u;
        assert(q * minus == p - u) by (nonlinear_arith)
            requires
                q == u - p,
                minus == z - u,
                z == 0int as real,
                u == 1int as real,
        ;
        let k = p - u;
        let st = t * s;
        assert((s * k) * t == p * st - st) by (nonlinear_arith)
            requires
                k == p - u,
                st == t * s,
                u == 1int as real,
        ;
        assert(p * (st + u) == p * st + p && st == t * w - t) by (nonlinear_arith)
            requires
                st == t * s,
                s == w - u,
                u == 1int as real,
        ;
    } else {
        assert(p * z == z && z * t == z && q * z == z && s * z == z) by (nonlinear_arith)
            requires
                z == 0int as real,
        ;
    }
}

/// The slope of an element's loss.
#[verifier::spinoff_prover]
#[verifier::rlimit(60)]
proof fn lemma_element(
    c: Calculus,
    loss: Loss,
    positive_weight: F32,
    outputs: Seq<Term>,
    targets: Seq<Term>,
    e: int,
    i: int,
)
    requires
        c.along(outputs, targets, e),
        0 <= i < outputs.len(),
        0 <= e < outputs.len(),
    ensures
        c.read(loss.element_losses(outputs, targets, positive_weight)[i]).slope == if i == e {
            c.read(raw_gradient(loss, positive_weight, outputs, targets)[e]).value
        } else {
            nil()
        },
{
    reveal_with_fuel(Reading::read, 6);
    reveal_with_fuel(Calculus::scalar, 3);
    let x = c.read(outputs[i]).value;
    let t = c.read(targets[i]).value;
    let d = if i == e {
        unit()
    } else {
        nil()
    };
    assert(c.read(outputs[i]) == (Dual { value: x, slope: d }));
    assert(c.read(targets[i]) == (Dual { value: t, slope: nil() }));
    let p = (c.sigmoid)(x);
    assert((c.sigmoid)(nil() - x) == unit() - p);
    lemma_numbers();
    match loss {
        Loss::MeanSquaredError => {
            let gap = x - t;
            let z = 0int as real;
            let u = 1int as real;
            assert(gap * u == gap && gap * z == z) by (nonlinear_arith)
                requires
                    z == 0int as real,
                    u == 1int as real,
            ;
        },
        Loss::BinaryCrossEntropyWithLogits => {
            let softened = (c.softplus)(nil() - x);
            lemma_cross_entropy_slope(p, t, x, number(positive_weight), softened, i == e);
        },
    }
}

/// The row of an element: it lies in that row and in no other.
proof fn lemma_row_of(e: int, rows: int, cols: int, r: int)
    requires
        0 < cols,
        0 <= e < rows * cols,
        0 <= r < rows,
    ensures
        0 <= e / cols < rows,
        (0 <= e - r * cols < cols) == (r == e / cols),
        (r + 1) * cols == r * cols + cols,
        (r + 1) * cols <= rows * cols,
        0 <= r * cols,
{
    let at = e / cols;
    vstd::arithmetic::div_mod::lemma_fundamental_div_mod(e, cols);
    vstd::arithmetic::div_mod::lemma_div_pos_is_pos(e, cols);
    vstd::arithmetic::mul::lemma_mul_is_commutative(rows, cols);
    vstd::arithmetic::div_mod::lemma_multiply_divide_lt(e, cols, rows);
    vstd::arithmetic::mul::lemma_mul_is_commutative(cols, at);
    vstd::arithmetic::mul::lemma_mul_is_distributive_add_other_way(cols, r, 1);
    vstd::arithmetic::mul::lemma_mul_inequality(r + 1, rows, cols);
    vstd::arithmetic::mul::lemma_mul_nonnegative(r, cols);
    let k = e - r * cols;
    if 0 <= k < cols {
        vstd::arithmetic::div_mod::lemma_fundamental_div_mod_converse(e, cols, r, k);
    }
}

/// The slopes of the rows' losses: only the row of the element has one.
#[verifier::spinoff_prover]
#[verifier::rlimit(60)]
proof fn lemma_rows(
    c: Calculus,
    loss: Loss,
    positive_weight: F32,
    outputs: Seq<Term>,
    targets: Seq<Term>,
    rows: usize,
    cols: usize,
    e: int,
    r: int,
)
    requires
        rows > 0,
        cols > 0,
        outputs.len() == rows * cols,
        0 <= e < rows * cols,
        c.along(outputs, targets, e),
        0 <= r < rows,
    ensures
        0 <= e / (cols as int) < rows,
        c.read(loss.row_losses(outputs, targets, positive_weight, rows, cols)[r]).slope == if r == e
            / (cols as int) {
            c.read(raw_gradient(loss, positive_weight, outputs, targets)[e]).value * (unit() / (
            cols as int as real))
        } else {
            nil()
        },
{
    let elements = loss.element_losses(outputs, targets, positive_weight);
    assert(elements.len() == outputs.len());
    let raw = raw_gradient(loss, positive_weight, outputs, targets);
    let g = c.read(raw[e]).value;
    let share = unit() / (cols as int as real);
    lemma_row_of(e, rows as int, cols as int, r);
    let row = row_of(elements, cols as nat, r);
    let values = Seq::new(row.len(), |i: int| c.read(row[i]));
    let k = e - r * cols;
    assert forall|i: int| 0 <= i < values.len() implies (#[trigger] values[i]).slope == if i == k {
        g
    } else {
        nil()
    } by {
        assert(0 <= r * cols + i < rows * cols);
        lemma_element(c, loss, positive_weight, outputs, targets, e, r * cols + i);
    }
    lemma_one_slope(c, values, k, g);
    lemma_total(c, row);
    let losses = loss.row_losses(outputs, targets, positive_weight, rows, cols);
    assert(losses[r] == Term::Apply(
        MapFn::Scale(Scalar::Reciprocal(cols)),
        Box::new(total(row)),
    ));
    let sum = c.read(total(row));
    assert(c.read(losses[r]) == times(sum, level(share)));
    let z = 0int as real;
    let value = sum.value;
    assert(value * z == z && z * share == z) by (nonlinear_arith)
        requires
            z == 0int as real,
    ;
}

/// Products of counts as numbers.
proof fn lemma_counts(n: nat, m: nat)
    ensures
        (n * m) as int as real == (n as int as real) * (m as int as real),
    decreases n,
{
    let b = m as int as real;
    if n > 0 {
        let fewer = (n - 1) as nat;
        let a = fewer as int as real;
        lemma_counts(fewer, m);
        vstd::arithmetic::mul::lemma_mul_is_distributive_add_other_way(m as int, fewer as int, 1);
        assert(n * m == fewer * m + m);
        assert((n * m) as int as real == (fewer * m) as int as real + b);
        let one = 1int as real;
        assert((a + one) * b == a * b + b) by (nonlinear_arith)
            requires
                one == 1int as real,
        ;
        assert(n as int as real == a + one);
    } else {
        assert(n * m == 0) by {
            vstd::arithmetic::mul::lemma_mul_basics(m as int);
        }
        let zero = 0int as real;
        assert(zero * b == zero) by (nonlinear_arith)
            requires
                zero == 0int as real,
        ;
    }
}

/// The sum of the rows' slopes, each of them raised by the same amount.
proof fn lemma_raised_sum(c: Calculus, values: Seq<Dual>, at: int, slope: real, raise: real)
    requires
        forall|i: int|
            0 <= i < values.len() ==> (#[trigger] values[i]).slope == if i == at {
                slope + raise
            } else {
                raise
            },
    ensures
        c.sum(values).slope == (values.len() as int as real) * raise + if 0 <= at < values.len() {
            slope
        } else {
            nil()
        },
    decreases values.len(),
{
    if values.len() > 0 {
        let fewer = values.drop_last();
        assert forall|i: int| 0 <= i < fewer.len() implies (#[trigger] fewer[i]).slope == if i == at {
            slope + raise
        } else {
            raise
        } by {
            assert(fewer[i] == values[i]);
        }
        lemma_raised_sum(c, fewer, at, slope, raise);
        assert(values.last() == values[values.len() - 1]);
        let g = c.reading().combiner(BinaryFn::Add);
        assert(g(c.sum(fewer), values.last()) == plus(c.sum(fewer), values.last()));
        let n = fewer.len() as int as real;
        let m = values.len() as int as real;
        assert(m * raise == n * raise + raise) by (nonlinear_arith)
            requires
                m == n + unit(),
                unit() == 1int as real,
        ;
    } else {
        assert((0int as real) * raise == nil()) by (nonlinear_arith)
            requires
                nil() == 0int as real,
        ;
    }
}

/// A share divided among all rows, beside what every row has.
proof fn lemma_shared(g: real, raise: real, width: real, height: real)
    requires
        width > 0int as real,
        height > 0int as real,
    ensures
        (height * raise + g * (unit() / width)) / height == g * (unit() / (height * width)) + raise,
{
    let one = unit();
    let a = one / width;
    let b = one / height;
    let both = height * width;
    assert(width * a == one && height * b == one) by (nonlinear_arith)
        requires
            a == one / width,
            b == one / height,
            width > 0int as real,
            height > 0int as real,
    ;
    assert(both > 0int as real) by (nonlinear_arith)
        requires
            both == height * width,
            width > 0int as real,
            height > 0int as real,
    ;
    assert(one / both == a * b) by (nonlinear_arith)
        requires
            both == height * width,
            both > 0int as real,
            width * a == one,
            height * b == one,
            one == 1int as real,
    ;
    let top = height * raise + g * a;
    let share = g * (a * b);
    assert(height * (share + raise) == top) by (nonlinear_arith)
        requires
            top == height * raise + g * a,
            share == g * (a * b),
            height * b == one,
            one == 1int as real,
    ;
    let whole = share + raise;
    assert(top / height == whole) by (nonlinear_arith)
        requires
            height * whole == top,
            height > 0int as real,
    ;
}

/// The mean of rows' losses, each of them raised by the same amount.
#[verifier::spinoff_prover]
#[verifier::rlimit(60)]
proof fn lemma_mean(
    c: Calculus,
    loss: Loss,
    positive_weight: F32,
    outputs: Seq<Term>,
    targets: Seq<Term>,
    rows: usize,
    cols: usize,
    e: int,
    losses: Seq<Term>,
    raise: real,
)
    requires
        rows > 0,
        cols > 0,
        rows * cols <= usize::MAX,
        outputs.len() == rows * cols,
        0 <= e < rows * cols,
        c.along(outputs, targets, e),
        losses.len() == rows,
        forall|r: int|
            0 <= r < rows ==> (#[trigger] c.read(losses[r])).slope == c.read(
                loss.row_losses(outputs, targets, positive_weight, rows, cols)[r],
            ).slope + raise,
    ensures
        c.mean(losses).slope == c.read(
            loss.gradient(outputs, targets, positive_weight, (rows * cols) as usize)[e],
        ).value + raise,
{
    let raw = raw_gradient(loss, positive_weight, outputs, targets);
    let g = c.read(raw[e]).value;
    let width = cols as int as real;
    let height = rows as int as real;
    let share = g * (unit() / width);
    let at = e / (cols as int);
    let values = c.reading().read_all(losses);
    c.reading().lemma_read_all(losses);
    lemma_rows(c, loss, positive_weight, outputs, targets, rows, cols, e, 0);
    assert forall|r: int| 0 <= r < values.len() implies (#[trigger] values[r]).slope == if r == at {
        share + raise
    } else {
        raise
    } by {
        lemma_rows(c, loss, positive_weight, outputs, targets, rows, cols, e, r);
        assert(values[r] == c.read(losses[r]));
    }
    lemma_raised_sum(c, values, at, share, raise);
    let len = (rows * cols) as usize;
    assert(raw.len() == outputs.len());
    assert(loss.gradient(outputs, targets, positive_weight, len)[e] == Term::Apply(
        MapFn::Scale(Scalar::Reciprocal(len)),
        Box::new(raw[e]),
    ));
    let all = (rows * cols) as real;
    lemma_counts(rows as nat, cols as nat);
    assert(all == height * width);
    lemma_shared(g, raise, width, height);
}

/// The gradient is the derivative of the mean loss by every element of the output, for
/// targets of any kind.
pub proof fn law_gradients_are_derivatives(
    c: Calculus,
    loss: Loss,
    positive_weight: F32,
    outputs: Seq<Term>,
    targets: Seq<Term>,
    rows: usize,
    cols: usize,
    e: int,
)
    requires
        rows > 0,
        cols > 0,
        rows * cols <= usize::MAX,
        outputs.len() == rows * cols,
        0 <= e < rows * cols,
        c.along(outputs, targets, e),
    ensures
        c.mean(loss.row_losses(outputs, targets, positive_weight, rows, cols)).slope == c.read(
            loss.gradient(outputs, targets, positive_weight, (rows * cols) as usize)[e],
        ).value,
{
    let losses = loss.row_losses(outputs, targets, positive_weight, rows, cols);
    lemma_mean(c, loss, positive_weight, outputs, targets, rows, cols, e, losses, nil());
}

/// The overlap and both masses of the Dice coefficient, with their slopes.
#[verifier::spinoff_prover]
#[verifier::rlimit(60)]
proof fn lemma_masses(c: Calculus, outputs: Seq<Term>, targets: Seq<Term>, e: int)
    requires
        0 <= e < outputs.len(),
        c.along(outputs, targets, e),
    ensures
        ({
            let probabilities = apply(MapFn::Sigmoid, outputs);
            let p = (c.sigmoid)(c.read(outputs[e]).value);
            let t = c.read(targets[e]).value;
            let s = p * (unit() - p);
            let found = dice_downloads(probabilities, targets);
            &&& c.read(found[0][0]).slope == s * t
            &&& c.read(found[1][0]).slope == s
            &&& c.read(found[2][0]).slope == nil()
        }),
{
    let reading = c.reading();
    let probabilities = apply(MapFn::Sigmoid, outputs);
    let p = (c.sigmoid)(c.read(outputs[e]).value);
    let t = c.read(targets[e]).value;
    let s = p * (unit() - p);
    assert forall|i: int| 0 <= i < outputs.len() implies (#[trigger] c.read(
        probabilities[i],
    )).slope == if i == e {
        s
    } else {
        nil()
    } by {
        let a = c.read(outputs[i]);
        let q = (c.sigmoid)(a.value);
        assert(probabilities[i] == Term::Apply(MapFn::Sigmoid, Box::new(outputs[i])));
        assert(c.read(probabilities[i]) == c.applied(MapFn::Sigmoid, a));
        let u = q * (unit() - q);
        assert(u * unit() == u && u * nil() == nil()) by (nonlinear_arith)
            requires
                unit() == 1int as real,
                nil() == 0int as real,
        ;
    }
    lemma_adding(c);
    law_paired_reductions_fold_their_pairs(
        reading,
        BinaryFn::Mul,
        BinaryFn::Add,
        F32 { bits: 0 },
        probabilities,
        targets,
    );
    let pairs = Seq::new(
        probabilities.len(),
        |i: int|
            (reading.combine)(
                BinaryFn::Mul,
                reading.read(probabilities[i]),
                reading.read(targets[i]),
            ),
    );
    assert forall|i: int| 0 <= i < pairs.len() implies (#[trigger] pairs[i]).slope == if i == e {
        s * t
    } else {
        nil()
    } by {
        let a = c.read(probabilities[i]);
        let b = c.read(targets[i]);
        assert(pairs[i] == times(a, b));
        assert(a.slope * b.value + a.value * nil() == a.slope * b.value && nil() * b.value == nil())
            by (nonlinear_arith)
            requires
                nil() == 0int as real,
        ;
    }
    lemma_one_slope(c, pairs, e, s * t);
    let first = Seq::new(probabilities.len(), |i: int| c.read(probabilities[i]));
    lemma_total(c, probabilities);
    lemma_one_slope(c, first, e, s);
    let second = Seq::new(targets.len(), |i: int| c.read(targets[i]));
    lemma_total(c, targets);
    lemma_one_slope(c, second, -1, nil());
}

/// The slope of the penalty, by the quotient rule and by the gradient's formula.
proof fn lemma_penalty_slope(w: real, inverse: real, n: real, d: real, p: real, t: real)
    ensures
        ({
            let s = p * (unit() - p);
            let gap = (2int as real) * s * t * d - n * s;
            w * (nil() - gap * inverse) == ((t * ((nil() - 2int as real) * d) + n) * (w * inverse))
                * ((p * (nil() - unit()) + unit()) * p)
        }),
{
    let z = nil();
    let u = unit();
    let two = (2int as real);
    let s = p * (u - p);
    let tilt = (p * (z - u) + u) * p;
    assert(tilt == s) by (nonlinear_arith)
        requires
            tilt == (p * (z - u) + u) * p,
            s == p * (u - p),
            z == 0int as real,
            u == 1int as real,
    ;
    let k = two * (t * d) - n;
    let gap = two * s * t * d - n * s;
    assert(gap == s * k) by (nonlinear_arith)
        requires
            gap == two * s * t * d - n * s,
            k == two * (t * d) - n,
    ;
    let front = t * ((z - two) * d) + n;
    assert(front == z - k) by (nonlinear_arith)
        requires
            front == t * ((z - two) * d) + n,
            k == two * (t * d) - n,
            z == 0int as real,
    ;
    let scaled = w * inverse;
    let part = gap * inverse;
    assert(w * (z - part) == (front * scaled) * tilt) by (nonlinear_arith)
        requires
            part == gap * inverse,
            gap == s * k,
            front == z - k,
            scaled == w * inverse,
            tilt == s,
            z == 0int as real,
    ;
}

/// The slope of the penalty, given those of the overlap and the masses.
#[verifier::spinoff_prover]
#[verifier::rlimit(60)]
proof fn lemma_penalty(
    c: Calculus,
    dice_weight: F32,
    probabilities: Seq<Term>,
    targets: Seq<Term>,
    e: int,
    first: usize,
    p: real,
    t: real,
    s: real,
)
    requires
        first + 2 <= usize::MAX,
        0 <= e < probabilities.len(),
        probabilities.len() == targets.len(),
        c.read(probabilities[e]).value == p,
        c.read(targets[e]).value == t,
        s == p * (unit() - p),
        (c.downloaded)(first).slope == s * t,
        (c.downloaded)((first + 1) as usize).slope == s,
        (c.downloaded)((first + 2) as usize).slope == nil(),
        c.scalar(
            dice_denominator(
                Scalar::Downloaded((first + 1) as usize),
                Scalar::Downloaded((first + 2) as usize),
            ),
        ).value != nil(),
    ensures
        ({
            let numerator = dice_numerator(Scalar::Downloaded(first));
            let denominator = dice_denominator(
                Scalar::Downloaded((first + 1) as usize),
                Scalar::Downloaded((first + 2) as usize),
            );
            c.scalar(dice_penalty(dice_weight, numerator, denominator)).slope == c.read(
                dice_gradient(probabilities, targets, dice_weight, numerator, denominator)[e],
            ).value
        }),
{
    reveal_with_fuel(Reading::read, 6);
    reveal_with_fuel(Calculus::scalar, 7);
    lemma_numbers();
    lemma_small_numbers();
    let one = F32 { bits: ONE_BITS };
    let z = nil();
    let u = unit();
    let two = (2int as real);
    assert(number(F32 { bits: TWO_BITS }) == two && number(F32 { bits: MINUS_TWO_BITS }) == z - two
        && number(F32 { bits: MINUS_ONE_BITS }) == z - u) by {
        let v = one.value() as real;
        assert(((2 * one.value()) as real) / v == two && ((-2 * one.value()) as real) / v == z - two
            && ((-1 * one.value()) as real) / v == z - u) by (nonlinear_arith)
            requires
                v == one.value() as real,
                one.value() > 0,
                two == 2int as real,
                u == 1int as real,
                z == 0int as real,
        ;
    }
    let numerator = dice_numerator(Scalar::Downloaded(first));
    let denominator = dice_denominator(
        Scalar::Downloaded((first + 1) as usize),
        Scalar::Downloaded((first + 2) as usize),
    );
    let o = (c.downloaded)(first);
    let a = (c.downloaded)((first + 1) as usize);
    let b = (c.downloaded)((first + 2) as usize);
    let w = number(dice_weight);
    let n = c.scalar(numerator);
    let d = c.scalar(denominator);
    assert(n == plus(times(level(two), o), level(u)));
    assert(d == plus(plus(a, b), level(u)));
    assert(n.slope == two * s * t) by (nonlinear_arith)
        requires
            n.slope == (z * o.value + two * o.slope) + z,
            o.slope == s * t,
            z == 0int as real,
    ;
    assert(d.slope == s);
    let q = over(n, d);
    let penalty = c.scalar(dice_penalty(dice_weight, numerator, denominator));
    assert(penalty == times(level(w), minus(level(u), q)));
    let square = d.value * d.value;
    let inverse = u / square;
    assert(square != z && square * inverse == u) by (nonlinear_arith)
        requires
            square == d.value * d.value,
            inverse == u / square,
            d.value != z,
            z == 0int as real,
            u == 1int as real,
    ;
    let gap = n.slope * d.value - n.value * d.slope;
    assert(gap / square == gap * inverse) by (nonlinear_arith)
        requires
            square != z,
            inverse == u / square,
            z == 0int as real,
            u == 1int as real,
    ;
    assert(w / square == w * inverse) by (nonlinear_arith)
        requires
            square != z,
            inverse == u / square,
            z == 0int as real,
            u == 1int as real,
    ;
    assert(penalty.slope == z * (u - q.value) + w * (z - gap * inverse));
    let by_probability = (t * ((z - two) * d.value) + n.value) * (w * inverse);
    let tilt = (p * (z - u) + u) * p;
    let got = c.read(
        dice_gradient(probabilities, targets, dice_weight, numerator, denominator)[e],
    );
    assert(got.value == by_probability * tilt);
    lemma_penalty_slope(w, inverse, n.value, d.value, p, t);
    assert(z * (u - q.value) == z) by (nonlinear_arith)
        requires
            z == 0int as real,
    ;
}

/// With a Dice term too the gradient is the derivative of the mean loss. The overlap and the
/// masses are what was brought to the host, and the sum of the masses and one is not zero.
#[verifier::spinoff_prover]
#[verifier::rlimit(60)]
pub proof fn law_dice_gradients_are_derivatives(
    c: Calculus,
    loss: Loss,
    positive_weight: F32,
    dice_weight: F32,
    outputs: Seq<Term>,
    targets: Seq<Term>,
    rows: usize,
    cols: usize,
    e: int,
    first: usize,
)
    requires
        rows > 0,
        cols > 0,
        rows * cols <= usize::MAX,
        first + 2 <= usize::MAX,
        outputs.len() == rows * cols,
        0 <= e < rows * cols,
        c.along(outputs, targets, e),
        forall|k: int|
            0 <= k < 3 ==> #[trigger] (c.downloaded)((first + k) as usize) == c.read(
                dice_downloads(apply(MapFn::Sigmoid, outputs), targets)[k][0],
            ),
        c.scalar(
            dice_denominator(
                reduction_scalar(outputs.len(), (first + 1) as nat),
                reduction_scalar(outputs.len(), (first + 2) as nat),
            ),
        ).value != nil(),
    ensures
        ({
            let numerator = dice_numerator(reduction_scalar(outputs.len(), first as nat));
            let denominator = dice_denominator(
                reduction_scalar(outputs.len(), (first + 1) as nat),
                reduction_scalar(outputs.len(), (first + 2) as nat),
            );
            c.mean(
                apply(
                    MapFn::Shift(dice_penalty(dice_weight, numerator, denominator)),
                    loss.row_losses(outputs, targets, positive_weight, rows, cols),
                ),
            ).slope == c.read(
                zip(
                    BinaryFn::Add,
                    loss.gradient(outputs, targets, positive_weight, (rows * cols) as usize),
                    dice_gradient(
                        apply(MapFn::Sigmoid, outputs),
                        targets,
                        dice_weight,
                        numerator,
                        denominator,
                    ),
                )[e],
            ).value
        }),
{
    let probabilities = apply(MapFn::Sigmoid, outputs);
    let numerator = dice_numerator(Scalar::Downloaded(first));
    let denominator = dice_denominator(
        Scalar::Downloaded((first + 1) as usize),
        Scalar::Downloaded((first + 2) as usize),
    );
    let penalty = dice_penalty(dice_weight, numerator, denominator);
    let raise = c.scalar(penalty).slope;
    let p = (c.sigmoid)(c.read(outputs[e]).value);
    let t = c.read(targets[e]).value;
    lemma_masses(c, outputs, targets, e);
    assert((c.downloaded)((first + 0) as usize).slope == p * (unit() - p) * t);
    assert((c.downloaded)((first + 1) as usize).slope == p * (unit() - p));
    assert((c.downloaded)((first + 2) as usize).slope == nil());
    assert(probabilities[e] == Term::Apply(MapFn::Sigmoid, Box::new(outputs[e])));
    assert(c.read(probabilities[e]) == c.applied(MapFn::Sigmoid, c.read(outputs[e])));
    lemma_penalty(c, dice_weight, probabilities, targets, e, first, p, t, p * (unit() - p));
    let base = loss.row_losses(outputs, targets, positive_weight, rows, cols);
    let losses = apply(MapFn::Shift(penalty), base);
    assert forall|r: int| 0 <= r < rows implies (#[trigger] c.read(losses[r])).slope == c.read(
        base[r],
    ).slope + raise by {
        assert(losses[r] == Term::Apply(MapFn::Shift(penalty), Box::new(base[r])));
        assert(c.read(losses[r]) == c.applied(MapFn::Shift(penalty), c.read(base[r])));
    }
    lemma_mean(c, loss, positive_weight, outputs, targets, rows, cols, e, losses, raise);
    let gradient = loss.gradient(outputs, targets, positive_weight, (rows * cols) as usize);
    let more = dice_gradient(probabilities, targets, dice_weight, numerator, denominator);
    assert(gradient.len() == outputs.len());
    let both = zip(BinaryFn::Add, gradient, more);
    assert(both[e] == Term::Zip(BinaryFn::Add, Box::new(gradient[e]), Box::new(more[e])));
    assert(c.read(both[e]) == plus(c.read(gradient[e]), c.read(more[e])));
}

/// Losses and their gradient belong together: the gradient that comes with the losses of the
/// rows is the derivative of their mean, with a Dice term or without one.
#[verifier::spinoff_prover]
pub proof fn law_scored_gradients_are_derivatives(
    c: Calculus,
    loss: Loss,
    before: CudaRuntime,
    after: CudaRuntime,
    output: Matrix,
    target: Matrix,
    positive_weight: F32,
    dice_weight: F32,
    r: (Vector, Matrix),
    e: int,
)
    requires
        before.wf(),
        before.holds(output),
        output.rows > 0,
        output.cols > 0,
        0 <= e < output.rows * output.cols,
        dice_weight.value() >= 0,
        loss.scored(before, after, output, target, positive_weight, dice_weight, r),
        c.along(before.matrix(output), before.matrix(target), e),
        dice_weight.value() > 0 ==> ({
            let n = before.device@.downloads.len();
            let len = before.matrix(output).len();
            &&& n + 2 <= usize::MAX
            &&& forall|k: int|
                0 <= k < 3 ==> #[trigger] (c.downloaded)((n + k) as usize) == c.read(
                    after.device@.downloads[n + k][0],
                )
            &&& c.scalar(
                dice_denominator(reduction_scalar(len, n + 1), reduction_scalar(len, n + 2)),
            ).value != nil()
        }),
    ensures
        c.mean(after.vector(r.0)).slope == c.read(after.matrix(r.1)[e]).value,
{
    let outputs = before.matrix(output);
    let targets = before.matrix(target);
    let n = before.device@.downloads.len();
    assert(outputs.len() == output.rows * output.cols);
    assert(output.buffer.len == output.rows * output.cols);
    if dice_weight.value() == 0 {
        law_gradients_are_derivatives(
            c,
            loss,
            positive_weight,
            outputs,
            targets,
            output.rows,
            output.cols,
            e,
        );
    } else {
        let first = n as usize;
        let found = dice_downloads(apply(MapFn::Sigmoid, outputs), targets);
        assert forall|k: int| 0 <= k < 3 implies #[trigger] (c.downloaded)((first + k) as usize)
            == c.read(found[k][0]) by {
            assert(after.device@.downloads[n + k] == found[k]);
        }
        law_dice_gradients_are_derivatives(
            c,
            loss,
            positive_weight,
            dice_weight,
            outputs,
            targets,
            output.rows,
            output.cols,
            e,
            first,
        );
    }
}

} // verus!
