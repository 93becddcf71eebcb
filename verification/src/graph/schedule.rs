//! Learning rates that change over optimizer steps.

use vstd::prelude::*;

use crate::cuda::meaning::{lemma_numbers, number};
use crate::cuda::scalar::{Scalar, F32, ONE_BITS};
use crate::graph::config::LearnConfig;
use crate::net::derivative::{level, Calculus};

verus! {

/// How a rate moves from the start of a stage to its end.
#[derive(Clone, Copy, Debug, PartialEq, Eq, Structural)]
pub enum Decay {
    Linear,
    Exponential,
    Quadratic,
}

/// A stretch of steps over which the rate moves to its end.
#[derive(Clone, Copy, Debug, PartialEq, Eq, Structural)]
pub struct DecayStage {
    pub decay: Decay,
    pub steps: usize,
    pub end_rate: F32,
}

/// A learning rate. Inside a stage of a schedule it is `step` of `steps` along the way
/// from `start` to `end`. [`Rate::stands_for`] says which number that is, and
/// [`Rate::scalar`] how the driver computes it in single precision.
#[derive(Clone, Copy, Debug, PartialEq, Eq, Structural)]
pub enum Rate {
    /// A number, such as the rate after all stages.
    Held(F32),
    Between { decay: Decay, start: F32, end: F32, step: usize, steps: usize },
}

/// A number multiplied by itself.
pub open spec fn power(base: real, exponent: nat) -> real
    decreases exponent,
{
    if exponent == 0 {
        1int as real
    } else {
        base * power(base, (exponent - 1) as nat)
    }
}

impl Rate {
    /// Whether the rate is a number, in exact arithmetic. With the progress `step / steps`,
    /// a linear stage stands at `start + (end - start) * progress`, a quadratic one at
    /// `end + (start - end) * (1 - progress)^2`, and an exponential one at the positive
    /// number `start * (end / start)^progress`, given here by its power `steps`.
    pub open spec fn stands_for(self, value: real) -> bool {
        match self {
            Rate::Held(rate) => value == number(rate),
            Rate::Between { decay, start, end, step, steps } => {
                let a = number(start);
                let b = number(end);
                let progress = (step as int as real) / (steps as int as real);
                match decay {
                    Decay::Linear => value == a + (b - a) * progress,
                    Decay::Quadratic => {
                        let left = (1int as real) - progress;
                        value == b + (a - b) * (left * left)
                    },
                    Decay::Exponential => value > 0int as real && power(value, steps as nat)
                        * power(a, step as nat) == power(a, steps as nat) * power(b, step as nat),
                }
            },
        }
    }

    /// The rate as an expression.
    pub open spec fn expression(self) -> Scalar {
        match self {
            Rate::Held(rate) => Scalar::Literal(rate),
            Rate::Between { decay, start, end, step, steps } => {
                let progress = Scalar::Quotient(
                    Box::new(Scalar::Count(step)),
                    Box::new(Scalar::Count(steps)),
                );
                match decay {
                    Decay::Linear => Scalar::Sum(
                        Box::new(Scalar::Literal(start)),
                        Box::new(
                            Scalar::Product(
                                Box::new(
                                    Scalar::Difference(
                                        Box::new(Scalar::Literal(end)),
                                        Box::new(Scalar::Literal(start)),
                                    ),
                                ),
                                Box::new(progress),
                            ),
                        ),
                    ),
                    Decay::Exponential => Scalar::Product(
                        Box::new(Scalar::Literal(start)),
                        Box::new(
                            Scalar::Power(
                                Box::new(
                                    Scalar::Quotient(
                                        Box::new(Scalar::Literal(end)),
                                        Box::new(Scalar::Literal(start)),
                                    ),
                                ),
                                Box::new(progress),
                            ),
                        ),
                    ),
                    Decay::Quadratic => {
                        let left = Scalar::Difference(
                            Box::new(Scalar::Literal(F32 { bits: ONE_BITS })),
                            Box::new(progress),
                        );
                        Scalar::Sum(
                            Box::new(Scalar::Literal(end)),
                            Box::new(
                                Scalar::Product(
                                    Box::new(
                                        Scalar::Product(
                                            Box::new(
                                                Scalar::Difference(
                                                    Box::new(Scalar::Literal(start)),
                                                    Box::new(Scalar::Literal(end)),
                                                ),
                                            ),
                                            Box::new(left),
                                        ),
                                    ),
                                    Box::new(left),
                                ),
                            ),
                        )
                    },
                }
            },
        }
    }

    /// The rate as an expression that the driver evaluates.
    pub fn scalar(&self) -> (r: Scalar)
        ensures
            r == self.expression(),
    {
        match *self {
            Rate::Held(rate) => Scalar::Literal(rate),
            Rate::Between { decay, start, end, step, steps } => {
                let progress = Scalar::Quotient(
                    Box::new(Scalar::Count(step)),
                    Box::new(Scalar::Count(steps)),
                );
                let from = Scalar::Literal(start);
                let to = Scalar::Literal(end);
                match decay {
                    Decay::Linear => {
                        let way = Scalar::Difference(
                            Box::new(to),
                            Box::new(Scalar::Literal(start)),
                        );
                        let gone = Scalar::Product(Box::new(way), Box::new(progress));
                        Scalar::Sum(Box::new(from), Box::new(gone))
                    },
                    Decay::Exponential => {
                        let ratio = Scalar::Quotient(
                            Box::new(to),
                            Box::new(Scalar::Literal(start)),
                        );
                        let gone = Scalar::Power(Box::new(ratio), Box::new(progress));
                        Scalar::Product(Box::new(from), Box::new(gone))
                    },
                    Decay::Quadratic => {
                        let left = Scalar::Difference(
                            Box::new(Scalar::Literal(F32::one())),
                            Box::new(progress),
                        );
                        let way = Scalar::Difference(Box::new(from), Box::new(Scalar::Literal(end)));
                        let once = Scalar::Product(Box::new(way), Box::new(left.duplicate()));
                        let twice = Scalar::Product(Box::new(once), Box::new(left));
                        Scalar::Sum(Box::new(to), Box::new(twice))
                    },
                }
            },
        }
    }

    /// The rate is above zero.
    pub open spec fn positive(self) -> bool {
        &&& self.wf()
        &&& match self {
            Rate::Held(rate) => rate.finite() && rate.value() > 0,
            Rate::Between { decay, start, end, step, steps } => {
                &&& valid_rate(start)
                &&& valid_rate(end)
                &&& (start.value() > 0 && step < steps) || (end.value() > 0 && step > 0)
            },
        }
    }

    /// Whether the rate is above zero.
    pub fn is_positive(&self) -> (r: bool)
        ensures
            r == self.positive(),
    {
        match *self {
            Rate::Held(rate) => rate.is_finite_positive(),
            Rate::Between { decay, start, end, step, steps } => {
                let exponential = match decay {
                    Decay::Exponential => true,
                    _ => false,
                };
                let from = start.is_finite_positive();
                let to = end.is_finite_positive();
                0 < steps && step <= steps && (!exponential || (from && to)) && start.is_finite_non_negative()
                    && end.is_finite_non_negative() && ((from && step < steps) || (to && step > 0))
            },
        }
    }

    /// The number of steps is not zero, and exponential stages have positive ends.
    pub open spec fn wf(self) -> bool {
        match self {
            Rate::Held(_) => true,
            Rate::Between { decay, start, end, step, steps } => {
                &&& 0 < steps
                &&& step <= steps
                &&& decay is Exponential ==> start.value() > 0 && end.value() > 0
            },
        }
    }
}

/// Positive numbers have positive powers.
proof fn lemma_power_positive(base: real, exponent: nat)
    requires
        base > 0int as real,
    ensures
        power(base, exponent) > 0int as real,
    decreases exponent,
{
    if exponent > 0 {
        let rest = power(base, (exponent - 1) as nat);
        lemma_power_positive(base, (exponent - 1) as nat);
        assert(base * rest > 0int as real) by (nonlinear_arith)
            requires
                base > 0int as real,
                rest > 0int as real,
        ;
    }
}

/// The greater of two positive numbers has the greater powers.
proof fn lemma_power_grows(a: real, b: real, exponent: nat)
    requires
        a > 0int as real,
        a < b,
        exponent > 0,
    ensures
        power(a, exponent) < power(b, exponent),
    decreases exponent,
{
    let rest_a = power(a, (exponent - 1) as nat);
    let rest_b = power(b, (exponent - 1) as nat);
    lemma_power_positive(a, (exponent - 1) as nat);
    lemma_power_positive(b, (exponent - 1) as nat);
    if exponent > 1 {
        lemma_power_grows(a, b, (exponent - 1) as nat);
    }
    assert(a * rest_a < b * rest_b) by (nonlinear_arith)
        requires
            a > 0int as real,
            a < b,
            rest_a > 0int as real,
            rest_a <= rest_b,
    ;
}

/// Literals above zero stand for positive numbers.
proof fn lemma_positive_number(v: F32)
    requires
        v.value() > 0,
    ensures
        number(v) > 0int as real,
{
    lemma_numbers();
    let one = (F32 { bits: ONE_BITS }).value() as real;
    let value = v.value() as real;
    assert(value / one > 0int as real) by (nonlinear_arith)
        requires
            value > 0int as real,
            one > 0int as real,
    ;
}

/// A rate is one number.
pub proof fn law_a_rate_is_one_number(rate: Rate, v: real, w: real)
    requires
        rate.wf(),
        rate.stands_for(v),
        rate.stands_for(w),
    ensures
        v == w,
{
    if let Rate::Between { decay, start, end, step, steps } = rate {
        if decay is Exponential {
            lemma_positive_number(start);
            let scale = power(number(start), step as nat);
            lemma_power_positive(number(start), step as nat);
            let p = power(v, steps as nat);
            let q = power(w, steps as nat);
            assert(p == q) by (nonlinear_arith)
                requires
                    p * scale == q * scale,
                    scale > 0int as real,
            ;
            if v < w {
                lemma_power_grows(v, w, steps as nat);
            } else if w < v {
                lemma_power_grows(w, v, steps as nat);
            }
        }
    }
}

/// At the start of a stage the rate is the stage's start, at its end the stage's end.
pub proof fn law_stages_lead_from_start_to_end(decay: Decay, start: F32, end: F32, steps: usize)
    requires
        steps > 0,
        decay is Exponential ==> start.value() > 0 && end.value() > 0,
    ensures
        (Rate::Between { decay, start, end, step: 0, steps }).stands_for(number(start)),
        (Rate::Between { decay, start, end, step: steps, steps }).stands_for(number(end)),
{
    let a = number(start);
    let b = number(end);
    let count = steps as int as real;
    let none = (0int as real) / count;
    let all = count / count;
    assert(none == 0int as real && all == 1int as real) by (nonlinear_arith)
        requires
            count > 0int as real,
            none == (0int as real) / count,
            all == count / count,
    ;
    assert(a == a + (b - a) * none && b == a + (b - a) * all) by (nonlinear_arith)
        requires
            none == 0int as real,
            all == 1int as real,
    ;
    let first = (1int as real) - none;
    let last = (1int as real) - all;
    assert(a == b + (a - b) * (first * first) && b == b + (a - b) * (last * last))
        by (nonlinear_arith)
        requires
            first == 1int as real,
            last == 0int as real,
    ;
    if decay is Exponential {
        lemma_positive_number(start);
        lemma_positive_number(end);
        let p = power(a, steps as nat);
        let q = power(b, steps as nat);
        assert(p * (1int as real) == p * (1int as real) && q * p == p * q) by (nonlinear_arith);
    }
}

/// Powers of a product.
proof fn lemma_power_product(a: real, b: real, exponent: nat)
    ensures
        power(a * b, exponent) == power(a, exponent) * power(b, exponent),
    decreases exponent,
{
    if exponent > 0 {
        let rest_a = power(a, (exponent - 1) as nat);
        let rest_b = power(b, (exponent - 1) as nat);
        lemma_power_product(a, b, (exponent - 1) as nat);
        assert((a * b) * (rest_a * rest_b) == (a * rest_a) * (b * rest_b)) by (nonlinear_arith);
    } else {
        assert((1int as real) * (1int as real) == 1int as real) by (nonlinear_arith);
    }
}

/// A calculus raises a number to the fraction `step / steps`: the power `steps` of what it
/// finds is the number's power `step`.
pub open spec fn raises(c: Calculus, base: real, step: usize, steps: usize) -> bool {
    let root = (c.power)(base, (step as int as real) / (steps as int as real));
    root > 0int as real && power(root, steps as nat) == power(base, step as nat)
}

/// In exact arithmetic the expression of a rate is the number that the rate stands for.
pub proof fn law_rates_are_computed(c: Calculus, rate: Rate)
    requires
        rate.wf(),
        rate matches Rate::Between { decay: Decay::Exponential, start, end, step, steps }
            ==> raises(c, number(end) / number(start), step, steps),
    ensures
        rate.stands_for(c.scalar(rate.expression()).value),
{
    reveal_with_fuel(Calculus::scalar, 6);
    lemma_numbers();
    if let Rate::Between { decay, start, end, step, steps } = rate {
        let a = number(start);
        let b = number(end);
        let n = step as int as real;
        let m = steps as int as real;
        let progress = n / m;
        let fraction = Scalar::Quotient(
            Box::new(Scalar::Count(step)),
            Box::new(Scalar::Count(steps)),
        );
        let zero = 0int as real;
        assert(c.scalar(fraction) == level(progress)) by {
            assert((zero * m - n * zero) / (m * m) == zero) by (nonlinear_arith)
                requires
                    zero == 0int as real,
                    m > zero,
            ;
        }
        match decay {
            Decay::Linear => {},
            Decay::Quadratic => {
                let left = (1int as real) - progress;
                assert(((a - b) * left) * left == (a - b) * (left * left)) by (nonlinear_arith);
            },
            Decay::Exponential => {
                lemma_positive_number(start);
                let ratio = b / a;
                assert((zero * a - b * zero) / (a * a) == zero && ratio * a == b)
                    by (nonlinear_arith)
                    requires
                        zero == 0int as real,
                        a > zero,
                        ratio == b / a,
                ;
                let root = (c.power)(ratio, progress);
                let value = a * root;
                assert(value > zero) by (nonlinear_arith)
                    requires
                        zero == 0int as real,
                        a > zero,
                        root > zero,
                        value == a * root,
                ;
                lemma_power_product(a, root, steps as nat);
                lemma_power_product(ratio, a, step as nat);
                let x = power(a, steps as nat);
                let y = power(ratio, step as nat);
                let z = power(a, step as nat);
                assert((x * y) * z == x * (y * z)) by (nonlinear_arith);
            },
        }
    }
}

/// A positive rate is a positive number.
pub proof fn law_positive_rates_are_positive(rate: Rate, v: real)
    requires
        rate.positive(),
        rate.stands_for(v),
    ensures
        v > 0int as real,
{
    let zero = 0int as real;
    match rate {
        Rate::Held(held) => {
            lemma_positive_number(held);
        },
        Rate::Between { decay, start, end, step, steps } => {
            let a = number(start);
            let b = number(end);
            let n = step as int as real;
            let m = steps as int as real;
            let t = n / m;
            let one = 1int as real;
            assert(zero <= t && t <= one && (step < steps ==> t < one) && (step > 0 ==> t > zero))
                by (nonlinear_arith)
                requires
                    zero == 0int as real,
                    one == 1int as real,
                    m > zero,
                    n >= zero,
                    n <= m,
                    step < steps ==> n < m,
                    step > 0 ==> n > zero,
                    t == n / m,
            ;
            lemma_numbers();
            if start.value() > 0 {
                lemma_positive_number(start);
            } else {
                lemma_zero_number(start);
            }
            if end.value() > 0 {
                lemma_positive_number(end);
            } else {
                lemma_zero_number(end);
            }
            assert(decay is Linear ==> v > zero) by {
                lemma_mixture(a, b, t);
                assert(a * (one - t) + b * t == a + (b - a) * t) by (nonlinear_arith)
                    requires
                        one == 1int as real,
                ;
            }
            assert(decay is Quadratic ==> v > zero) by {
                let left = one - t;
                let share = one - left * left;
                assert(zero <= share && share <= one && (t < one ==> share < one) && (t > zero
                    ==> share > zero)) by (nonlinear_arith)
                    requires
                        zero == 0int as real,
                        one == 1int as real,
                        left == one - t,
                        share == one - left * left,
                        zero <= t,
                        t <= one,
                ;
                lemma_mixture(a, b, share);
                assert(a * (one - share) + b * share == b + (a - b) * (left * left))
                    by (nonlinear_arith)
                    requires
                        one == 1int as real,
                        share == one - left * left,
                ;
            }
        },
    }
}

/// Literals at zero stand for zero.
proof fn lemma_zero_number(v: F32)
    requires
        v.value() == 0,
    ensures
        number(v) == 0int as real,
{
    lemma_numbers();
    let one = (F32 { bits: ONE_BITS }).value() as real;
    assert((0int as real) / one == 0int as real) by (nonlinear_arith)
        requires
            one > 0int as real,
    ;
}

/// A mixture of two numbers that has a share of a positive one.
proof fn lemma_mixture(a: real, b: real, t: real)
    requires
        a >= 0int as real,
        b >= 0int as real,
        0int as real <= t,
        t <= 1int as real,
        (a > 0int as real && t < 1int as real) || (b > 0int as real && t > 0int as real),
    ensures
        a * ((1int as real) - t) + b * t > 0int as real,
{
    let rest = (1int as real) - t;
    assert(a * rest >= 0int as real && (a > 0int as real && rest > 0int as real ==> a * rest
        > 0int as real)) by (nonlinear_arith)
        requires
            a >= 0int as real,
            rest >= 0int as real,
    ;
    assert(b * t >= 0int as real && (b > 0int as real && t > 0int as real ==> b * t
        > 0int as real)) by (nonlinear_arith)
        requires
            b >= 0int as real,
            t >= 0int as real,
    ;
}

/// Sequence of continuous learning-rate stages.
#[derive(Debug, PartialEq, Eq)]
pub struct LearningRateScheduler {
    pub initial_rate: F32,
    pub stages: Vec<DecayStage>,
    pub step: usize,
}

/// Rates that a schedule accepts.
pub open spec fn valid_rate(rate: F32) -> bool {
    rate.finite() && rate.value() >= 0
}

/// The steps of the first stages.
pub open spec fn elapsed(stages: Seq<DecayStage>, n: int) -> int
    decreases n,
{
    if n <= 0 {
        0
    } else {
        elapsed(stages, n - 1) + stages[n - 1].steps
    }
}

/// The rate at which a stage starts: the end of the stage before it.
pub open spec fn start_rate(initial: F32, stages: Seq<DecayStage>, n: int) -> F32 {
    if n <= 0 {
        initial
    } else {
        stages[n - 1].end_rate
    }
}

/// Whether a step falls into a stage. A step on a boundary ends a stage.
pub open spec fn falls_into(stages: Seq<DecayStage>, step: int, n: int) -> bool {
    &&& 0 <= n < stages.len()
    &&& elapsed(stages, n) < step || n == 0
    &&& step <= elapsed(stages, n + 1)
}

/// The elapsed steps grow from stage to stage.
proof fn lemma_elapsed_grows(stages: Seq<DecayStage>, n: int, m: int)
    requires
        0 <= n <= m <= stages.len(),
    ensures
        0 <= elapsed(stages, n) <= elapsed(stages, m),
    decreases m,
{
    if n < m {
        lemma_elapsed_grows(stages, n, m - 1);
    } else if m > 0 {
        lemma_elapsed_grows(stages, n - 1, m - 1);
    }
}

impl Clone for LearningRateScheduler {
    fn clone(&self) -> (r: LearningRateScheduler)
        ensures
            r.same_as(*self),
    {
        let mut stages: Vec<DecayStage> = Vec::new();
        let mut i: usize = 0;
        while i < self.stages.len()
            invariant
                i <= self.stages@.len(),
                stages@ == self.stages@.take(i as int),
            decreases self.stages@.len() - i,
        {
            stages.push(self.stages[i]);
            i = i + 1;
        }
        assert(stages@ =~= self.stages@);
        LearningRateScheduler { initial_rate: self.initial_rate, stages, step: self.step }
    }
}

impl LearningRateScheduler {
    /// Whether two schedulers have the same stages and stand at the same step.
    pub open spec fn same_as(self, other: LearningRateScheduler) -> bool {
        &&& self.initial_rate == other.initial_rate
        &&& self.stages@ == other.stages@
        &&& self.step == other.step
    }

    /// Every rate is valid, every stage has steps, and exponential stages have
    /// positive ends.
    pub open spec fn wf(self) -> bool {
        &&& valid_rate(self.initial_rate)
        &&& forall|i: int|
            #![trigger self.stages@[i]]
            0 <= i < self.stages@.len() ==> {
                &&& self.stages@[i].steps > 0
                &&& valid_rate(self.stages@[i].end_rate)
                &&& self.stages@[i].decay is Exponential ==> start_rate(
                    self.initial_rate,
                    self.stages@,
                    i,
                ).value() > 0 && self.stages@[i].end_rate.value() > 0
            }
    }

    /// The rate at a step.
    pub open spec fn describes(self, step: int, rate: Rate) -> bool {
        match rate {
            Rate::Held(value) => {
                &&& step > elapsed(self.stages@, self.stages@.len() as int)
                    || self.stages@.len() == 0
                &&& value == start_rate(
                    self.initial_rate,
                    self.stages@,
                    self.stages@.len() as int,
                )
            },
            Rate::Between { decay, start, end, step: at, steps } => {
                exists|n: int| #[trigger]
                    falls_into(self.stages@, step, n) && decay == self.stages@[n].decay && end
                        == self.stages@[n].end_rate && steps == self.stages@[n].steps && start
                        == start_rate(self.initial_rate, self.stages@, n) && at == step - elapsed(
                        self.stages@,
                        n,
                    )
            },
        }
    }

    pub fn new(initial_rate: F32) -> (r: LearningRateScheduler)
        requires
            valid_rate(initial_rate),
        ensures
            r.initial_rate == initial_rate,
            r.stages@.len() == 0,
            r.step == 0,
            r.wf(),
    {
        LearningRateScheduler { initial_rate, stages: Vec::new(), step: 0 }
    }

    /// Adds a stage.
    pub fn then(self, decay: Decay, steps: usize, end_rate: F32) -> (r: LearningRateScheduler)
        requires
            self.wf(),
            steps > 0,
            valid_rate(end_rate),
            decay is Exponential ==> start_rate(
                self.initial_rate,
                self.stages@,
                self.stages@.len() as int,
            ).value() > 0 && end_rate.value() > 0,
        ensures
            r.initial_rate == self.initial_rate,
            r.stages@ == self.stages@.push(DecayStage { decay, steps, end_rate }),
            r.step == self.step,
            r.wf(),
    {
        self.with_stage(decay, steps, end_rate)
    }

    /// A schedule with one stage more.
    fn with_stage(self, decay: Decay, steps: usize, end_rate: F32) -> (r: LearningRateScheduler)
        requires
            self.wf(),
            steps > 0,
            valid_rate(end_rate),
            decay is Exponential ==> start_rate(
                self.initial_rate,
                self.stages@,
                self.stages@.len() as int,
            ).value() > 0 && end_rate.value() > 0,
        ensures
            r.initial_rate == self.initial_rate,
            r.stages@ == self.stages@.push(DecayStage { decay, steps, end_rate }),
            r.step == self.step,
            r.wf(),
    {
        let ghost before = self.stages@;
        let mut stages = self.stages;
        stages.push(DecayStage { decay, steps, end_rate });
        proof {
            assert forall|i: int| #![trigger stages@[i]] 0 <= i < stages@.len() implies {
                &&& stages@[i].steps > 0
                &&& valid_rate(stages@[i].end_rate)
                &&& stages@[i].decay is Exponential ==> start_rate(
                    self.initial_rate,
                    stages@,
                    i,
                ).value() > 0 && stages@[i].end_rate.value() > 0
            } by {
                if i < before.len() {
                    assert(stages@[i] == before[i]);
                }
                if i > 0 {
                    assert(stages@[i - 1] == before[i - 1]);
                }
            }
        }
        LearningRateScheduler { initial_rate: self.initial_rate, stages, step: self.step }
    }

    pub fn linear(self, steps: usize, end_rate: F32) -> (r: LearningRateScheduler)
        requires
            self.wf(),
            steps > 0,
            valid_rate(end_rate),
        ensures
            r.initial_rate == self.initial_rate,
            r.stages@ == self.stages@.push(
                DecayStage { decay: Decay::Linear, steps, end_rate },
            ),
            r.step == self.step,
            r.wf(),
    {
        self.with_stage(Decay::Linear, steps, end_rate)
    }

    pub fn exponential(self, steps: usize, end_rate: F32) -> (r: LearningRateScheduler)
        requires
            self.wf(),
            steps > 0,
            valid_rate(end_rate),
            start_rate(self.initial_rate, self.stages@, self.stages@.len() as int).value() > 0,
            end_rate.value() > 0,
        ensures
            r.initial_rate == self.initial_rate,
            r.stages@ == self.stages@.push(
                DecayStage { decay: Decay::Exponential, steps, end_rate },
            ),
            r.step == self.step,
            r.wf(),
    {
        self.with_stage(Decay::Exponential, steps, end_rate)
    }

    pub fn quadratic(self, steps: usize, end_rate: F32) -> (r: LearningRateScheduler)
        requires
            self.wf(),
            steps > 0,
            valid_rate(end_rate),
        ensures
            r.initial_rate == self.initial_rate,
            r.stages@ == self.stages@.push(
                DecayStage { decay: Decay::Quadratic, steps, end_rate },
            ),
            r.step == self.step,
            r.wf(),
    {
        self.with_stage(Decay::Quadratic, steps, end_rate)
    }

    /// The rate of the current step.
    pub fn current(&self) -> (r: Rate)
        ensures
            self.describes(self.step as int, r),
    {
        self.rate_at(self.step)
    }

    pub fn current_step(&self) -> (r: usize)
        ensures
            r == self.step,
    {
        self.step
    }

    /// The rate of a step.
    pub fn rate_at(&self, step: usize) -> (r: Rate)
        ensures
            self.describes(step as int, r),
    {
        let ghost all = self.stages@;
        let mut left: usize = step;
        let mut start: F32 = self.initial_rate;
        let mut index: usize = 0;
        while index < self.stages.len()
            invariant
                index <= all.len(),
                all == self.stages@,
                left == step - elapsed(all, index as int),
                start == start_rate(self.initial_rate, all, index as int),
                index > 0 ==> left > 0,
            decreases all.len() - index,
        {
            let stage = self.stages[index];
            if left <= stage.steps {
                assert(falls_into(all, step as int, index as int));
                return Rate::Between {
                    decay: stage.decay,
                    start,
                    end: stage.end_rate,
                    step: left,
                    steps: stage.steps,
                };
            }
            left = left - stage.steps;
            start = stage.end_rate;
            index = index + 1;
        }
        Rate::Held(start)
    }

    /// Advances after one optimizer step and returns the next step's rate.
    pub fn advance(&mut self) -> (r: Rate)
        ensures
            final(self).initial_rate == old(self).initial_rate,
            final(self).stages == old(self).stages,
            final(self).step == if old(self).step == usize::MAX {
                usize::MAX
            } else {
                (old(self).step + 1) as usize
            },
            final(self).describes(final(self).step as int, r),
    {
        if self.step < usize::MAX {
            self.step = self.step + 1;
        }
        self.current()
    }

    pub fn reset(&mut self)
        ensures
            final(self).initial_rate == old(self).initial_rate,
            final(self).stages == old(self).stages,
            final(self).step == 0,
    {
        self.step = 0;
    }

    pub fn stages(&self) -> (r: &Vec<DecayStage>)
        ensures
            *r == self.stages,
    {
        &self.stages
    }
}

/// A step has one rate.
pub proof fn law_a_step_has_one_rate(schedule: LearningRateScheduler, step: int, a: Rate, b: Rate)
    requires
        schedule.wf(),
        step >= 0,
        schedule.describes(step, a),
        schedule.describes(step, b),
    ensures
        a == b,
{
    let stages = schedule.stages@;
    assert forall|n: int, m: int|
        #![trigger falls_into(stages, step, n), falls_into(stages, step, m)]
        falls_into(stages, step, n) && falls_into(stages, step, m) implies n == m by {
        if n < m {
            lemma_elapsed_grows(stages, n + 1, m);
        }
        if m < n {
            lemma_elapsed_grows(stages, m + 1, n);
        }
    }
    assert forall|n: int| #[trigger] falls_into(stages, step, n) implies step <= elapsed(
        stages,
        stages.len() as int,
    ) by {
        lemma_elapsed_grows(stages, n + 1, stages.len() as int);
    }
}

/// Stages are continuous: on the boundary after a stage the rate has gone all
/// the way to that stage's end, which is where the next stage starts. The number of the
/// rate there is the number at which the next stage sets out.
pub proof fn law_stages_are_continuous(schedule: LearningRateScheduler, n: int, rate: Rate)
    requires
        schedule.wf(),
        0 <= n < schedule.stages@.len(),
        schedule.describes(elapsed(schedule.stages@, n + 1), rate),
    ensures
        rate == (Rate::Between {
            decay: schedule.stages@[n].decay,
            start: start_rate(schedule.initial_rate, schedule.stages@, n),
            end: schedule.stages@[n].end_rate,
            step: schedule.stages@[n].steps,
            steps: schedule.stages@[n].steps,
        }),
        start_rate(schedule.initial_rate, schedule.stages@, n + 1)
            == schedule.stages@[n].end_rate,
        forall|v: real|
            #[trigger] rate.stands_for(v) <==> v == number(schedule.stages@[n].end_rate),
        n + 1 < schedule.stages@.len() ==> forall|v: real|
            (#[trigger] (Rate::Between {
                decay: schedule.stages@[n + 1].decay,
                start: schedule.stages@[n].end_rate,
                end: schedule.stages@[n + 1].end_rate,
                step: 0,
                steps: schedule.stages@[n + 1].steps,
            }).stands_for(v)) <==> rate.stands_for(v),
{
    let stages = schedule.stages@;
    let step = elapsed(stages, n + 1);
    assert(stages[n].steps > 0);
    assert(falls_into(stages, step, n));
    let other = Rate::Between {
        decay: stages[n].decay,
        start: start_rate(schedule.initial_rate, stages, n),
        end: stages[n].end_rate,
        step: stages[n].steps,
        steps: stages[n].steps,
    };
    lemma_elapsed_grows(stages, 0, n + 1);
    assert(schedule.describes(step, other));
    law_a_step_has_one_rate(schedule, step, rate, other);
    let meeting = number(stages[n].end_rate);
    law_stages_lead_from_start_to_end(
        stages[n].decay,
        start_rate(schedule.initial_rate, stages, n),
        stages[n].end_rate,
        stages[n].steps,
    );
    assert forall|v: real| #[trigger] rate.stands_for(v) implies v == meeting by {
        law_a_rate_is_one_number(rate, v, meeting);
    }
    if n + 1 < stages.len() {
        assert(stages[n + 1].steps > 0);
        law_stages_lead_from_start_to_end(
            stages[n + 1].decay,
            stages[n].end_rate,
            stages[n + 1].end_rate,
            stages[n + 1].steps,
        );
        let next = Rate::Between {
            decay: stages[n + 1].decay,
            start: stages[n].end_rate,
            end: stages[n + 1].end_rate,
            step: 0,
            steps: stages[n + 1].steps,
        };
        assert(next.wf());
        assert forall|v: real| #[trigger] next.stands_for(v) implies v == meeting by {
            law_a_rate_is_one_number(next, v, meeting);
        }
    }
}

/// After the last stage its end is held.
pub proof fn law_the_last_rate_is_held(schedule: LearningRateScheduler, step: int, rate: Rate)
    requires
        schedule.wf(),
        step > elapsed(schedule.stages@, schedule.stages@.len() as int),
        schedule.describes(step, rate),
    ensures
        rate == Rate::Held(
            start_rate(
                schedule.initial_rate,
                schedule.stages@,
                schedule.stages@.len() as int,
            ),
        ),
{
    let stages = schedule.stages@;
    assert forall|n: int| #[trigger] falls_into(stages, step, n) implies false by {
        lemma_elapsed_grows(stages, n + 1, stages.len() as int);
    }
}

/// Powers with a sum as their exponent.
proof fn lemma_power_sum(base: real, n: nat, m: nat)
    ensures
        power(base, n + m) == power(base, n) * power(base, m),
    decreases n,
{
    let rest = power(base, m);
    if n > 0 {
        let fewer = power(base, (n - 1) as nat);
        lemma_power_sum(base, (n - 1) as nat, m);
        assert((n + m - 1) as nat == (n - 1) as nat + m);
        assert(base * (fewer * rest) == (base * fewer) * rest) by (nonlinear_arith);
    } else {
        assert((1int as real) * rest == rest) by (nonlinear_arith);
    }
}

/// How a rate moves. On a linear way it is the mean of both ends, weighted by the steps that
/// are gone and left. On a quadratic one its distance to the end goes with the square of the
/// steps that are left. On an exponential one it is the geometric mean of both ends, with the
/// same weights.
#[verifier::spinoff_prover]
pub proof fn law_rates_move_as_their_decay_says(
    decay: Decay,
    start: F32,
    end: F32,
    step: usize,
    steps: usize,
    v: real,
)
    requires
        (Rate::Between { decay, start, end, step, steps }).wf(),
        (Rate::Between { decay, start, end, step, steps }).stands_for(v),
    ensures
        ({
            let a = number(start);
            let b = number(end);
            let gone = step as int as real;
            let left = (steps - step) as real;
            let all = steps as int as real;
            &&& decay is Linear ==> v * all == a * left + b * gone
            &&& decay is Quadratic ==> (v - b) * (all * all) == (a - b) * (left * left)
            &&& decay is Exponential ==> v > 0int as real && power(v, steps as nat) == power(
                a,
                (steps - step) as nat,
            ) * power(b, step as nat)
        }),
{
    let a = number(start);
    let b = number(end);
    let gone = step as int as real;
    let left = (steps - step) as real;
    let all = steps as int as real;
    let t = gone / all;
    assert(t * all == gone) by (nonlinear_arith)
        requires
            t == gone / all,
            all > 0int as real,
    ;
    match decay {
        Decay::Linear => {
            let way = b - a;
            assert(way * t * all == way * gone) by (nonlinear_arith)
                requires
                    t * all == gone,
            ;
            assert(v * all == a * all + way * t * all) by (nonlinear_arith)
                requires
                    v == a + way * t,
            ;
            assert(a * all + way * gone == a * left + b * gone) by (nonlinear_arith)
                requires
                    way == b - a,
                    all == left + gone,
            ;
        },
        Decay::Quadratic => {
            let rest = (1int as real) - t;
            assert(rest * all == left) by (nonlinear_arith)
                requires
                    rest == (1int as real) - t,
                    t * all == gone,
                    all == left + gone,
            ;
            assert((rest * rest) * (all * all) == left * left) by (nonlinear_arith)
                requires
                    rest * all == left,
            ;
            let way = a - b;
            let square = rest * rest;
            let whole = all * all;
            assert(way * square * whole == way * (left * left)) by (nonlinear_arith)
                requires
                    square * whole == left * left,
            ;
            assert((v - b) * whole == way * square * whole) by (nonlinear_arith)
                requires
                    v == b + way * square,
            ;
        },
        Decay::Exponential => {
            lemma_positive_number(start);
            let p = power(v, steps as nat);
            let q = power(a, step as nat);
            let r = power(a, (steps - step) as nat);
            let s = power(b, step as nat);
            lemma_power_positive(a, step as nat);
            lemma_power_sum(a, (steps - step) as nat, step as nat);
            assert(power(a, steps as nat) == r * q);
            assert((r * q) * s == (r * s) * q) by (nonlinear_arith);
            let u = r * s;
            assert(p == u) by (nonlinear_arith)
                requires
                    p * q == u * q,
                    q > 0int as real,
            ;
        },
    }
}

/// A rate between valid ends that is a positive number counts as positive.
pub proof fn law_rates_above_zero_are_positive(rate: Rate, v: real)
    requires
        rate.wf(),
        rate matches Rate::Held(held) ==> valid_rate(held),
        rate matches Rate::Between { decay, start, end, step, steps } ==> valid_rate(start)
            && valid_rate(end),
        rate.stands_for(v),
        v > 0int as real,
    ensures
        rate.positive(),
{
    let zero = 0int as real;
    lemma_numbers();
    match rate {
        Rate::Held(held) => {
            if held.value() == 0 {
                lemma_zero_number(held);
            }
        },
        Rate::Between { decay, start, end, step, steps } => {
            if !rate.positive() {
                let a = number(start);
                let b = number(end);
                let gone = step as int as real;
                let left = (steps - step) as real;
                let all = steps as int as real;
                assert(start.value() == 0 || step == steps);
                assert(end.value() == 0 || step == 0);
                if start.value() == 0 {
                    lemma_zero_number(start);
                }
                if end.value() == 0 {
                    lemma_zero_number(end);
                }
                law_rates_move_as_their_decay_says(decay, start, end, step, steps, v);
                assert(a == zero || left == zero);
                assert(b == zero || gone == zero);
                if decay is Linear {
                    assert(a * left == zero && b * gone == zero) by (nonlinear_arith)
                        requires
                            zero == 0int as real,
                            a == zero || left == zero,
                            b == zero || gone == zero,
                    ;
                    assert(v * all > zero) by (nonlinear_arith)
                        requires
                            v > zero,
                            all > zero,
                            zero == 0int as real,
                    ;
                } else if decay is Quadratic {
                    let w = all * all;
                    let l = left * left;
                    assert(w > zero) by (nonlinear_arith)
                        requires
                            zero == 0int as real,
                            w == all * all,
                            all > zero,
                    ;
                    if gone == zero {
                        assert(l == w);
                        assert(v == a) by (nonlinear_arith)
                            requires
                                (v - b) * w == (a - b) * w,
                                w > zero,
                                zero == 0int as real,
                        ;
                    } else {
                        assert((a - b) * l == zero) by (nonlinear_arith)
                            requires
                                zero == 0int as real,
                                l == left * left,
                                b == zero,
                                a == zero || left == zero,
                        ;
                        assert(v * w > zero) by (nonlinear_arith)
                            requires
                                zero == 0int as real,
                                v > zero,
                                w > zero,
                        ;
                    }
                }
            }
        },
    }
}

/// The settings of an optimizer step are accepted just where there is a batch, the rate is
/// above zero, and the momentum is a number from zero up to one, without one.
pub proof fn law_settings_are_valid(config: LearnConfig, v: real)
    requires
        config.learning_rate.wf(),
        config.learning_rate matches Rate::Held(held) ==> valid_rate(held),
        config.learning_rate matches Rate::Between { decay, start, end, step, steps }
            ==> valid_rate(start) && valid_rate(end),
        config.learning_rate.stands_for(v),
    ensures
        config.valid() <==> {
            &&& config.batch_len > 0
            &&& v > 0int as real
            &&& config.momentum.finite()
            &&& number(config.momentum) >= 0int as real
            &&& number(config.momentum) < 1int as real
        },
{
    if config.learning_rate.positive() {
        law_positive_rates_are_positive(config.learning_rate, v);
    }
    if v > 0int as real {
        law_rates_above_zero_are_positive(config.learning_rate, v);
    }
    lemma_numbers();
    let one = (F32 { bits: ONE_BITS }).value() as real;
    let value = config.momentum.value() as real;
    let share = number(config.momentum);
    assert((share >= 0int as real) == (value >= 0int as real) && (share < 1int as real) == (value
        < one)) by (nonlinear_arith)
        requires
            share == value / one,
            one > 0int as real,
    ;
}

/// Stages follow one another: a step inside a stage counts from where the stages before it
/// have led, and its rate lies between what the stage before it ended with and the stage's own
/// end. The first stage sets out from the initial rate.
pub proof fn law_stages_follow_one_another(
    schedule: LearningRateScheduler,
    n: int,
    at: usize,
    rate: Rate,
)
    requires
        schedule.wf(),
        0 <= n < schedule.stages@.len(),
        at <= schedule.stages@[n].steps,
        at > 0 || n == 0,
        schedule.describes(elapsed(schedule.stages@, n) + at, rate),
    ensures
        elapsed(schedule.stages@, 0) == 0,
        elapsed(schedule.stages@, n + 1) == elapsed(schedule.stages@, n)
            + schedule.stages@[n].steps,
        rate == (Rate::Between {
            decay: schedule.stages@[n].decay,
            start: if n == 0 {
                schedule.initial_rate
            } else {
                schedule.stages@[n - 1].end_rate
            },
            end: schedule.stages@[n].end_rate,
            step: at,
            steps: schedule.stages@[n].steps,
        }),
{
    let stages = schedule.stages@;
    let step = elapsed(stages, n) + at;
    lemma_elapsed_grows(stages, 0, n);
    assert(falls_into(stages, step, n));
    let other = Rate::Between {
        decay: stages[n].decay,
        start: start_rate(schedule.initial_rate, stages, n),
        end: stages[n].end_rate,
        step: at,
        steps: stages[n].steps,
    };
    assert(schedule.describes(step, other));
    law_a_step_has_one_rate(schedule, step, rate, other);
}

/// A schedule without stages holds its initial rate.
pub proof fn law_schedules_without_stages_hold_their_rate(
    schedule: LearningRateScheduler,
    step: int,
    rate: Rate,
)
    requires
        schedule.stages@.len() == 0,
        schedule.describes(step, rate),
    ensures
        rate == Rate::Held(schedule.initial_rate),
{
}

} // verus!
