//! Losses and their gradients.

use vstd::prelude::*;

use crate::cuda::algebra::{apply, row_totals, total, zip, Term};
use crate::cuda::container::{Matrix, Vector};
use crate::cuda::exact::Exact;
use crate::cuda::ops::{BinaryFn, MapFn};
use crate::cuda::runtime::{chosen, CudaRuntime};
use crate::cuda::scalar::{Scalar, F32, MINUS_ONE_BITS, MINUS_TWO_BITS, ONE_BITS, TWO_BITS};

verus! {

broadcast use crate::cuda::runtime::group_streams;

/// What a network is trained to make small.
#[derive(Clone, Copy, Debug, PartialEq, Eq, Structural)]
pub enum Loss {
    MeanSquaredError,
    /// Numerically stable binary cross-entropy. Model outputs are logits;
    /// sigmoid is applied only when producing probabilities.
    BinaryCrossEntropyWithLogits,
}

/// A literal by its bits.
pub open spec fn literal(bits: u32) -> Scalar {
    Scalar::Literal(F32 { bits })
}

/// Whether a number is one.
pub open spec fn is_one(v: F32) -> bool {
    !v.nan() && v.value() == (F32 { bits: ONE_BITS }).value()
}

/// The weight of positive targets minus one.
pub open spec fn surplus(positive_weight: F32) -> Scalar {
    Scalar::Difference(Box::new(Scalar::Literal(positive_weight)), Box::new(literal(ONE_BITS)))
}

/// Softplus of the logit minus the product of logit and target, which is a
/// stable form of the cross-entropy. Positive targets that count more than
/// once add the surplus times the target times softplus of the negated logit.
pub open spec fn cross_entropy(output: Seq<Term>, target: Seq<Term>, positive_weight: F32) -> Seq<Term> {
    let base = zip(
        BinaryFn::Sub,
        apply(MapFn::Softplus, output),
        zip(BinaryFn::Mul, output, target),
    );
    if is_one(positive_weight) {
        base
    } else {
        zip(
            BinaryFn::Add,
            base,
            zip(
                BinaryFn::Mul,
                apply(MapFn::WeightedSoftplusOfNegative(surplus(positive_weight)), output),
                target,
            ),
        )
    }
}

/// `sigmoid(logit) * (1 - target + weight * target) - weight * target`, which
/// holds for hard and soft targets.
pub open spec fn cross_entropy_gradient(
    output: Seq<Term>,
    target: Seq<Term>,
    positive_weight: F32,
) -> Seq<Term> {
    let probability = apply(MapFn::Sigmoid, output);
    if is_one(positive_weight) {
        zip(BinaryFn::Sub, probability, target)
    } else {
        zip(
            BinaryFn::Sub,
            zip(
                BinaryFn::Mul,
                probability,
                apply(
                    MapFn::Shift(literal(ONE_BITS)),
                    apply(MapFn::Scale(surplus(positive_weight)), target),
                ),
            ),
            apply(MapFn::Scale(Scalar::Literal(positive_weight)), target),
        )
    }
}

/// What the host sees of a reduction: zero for no elements, else a download.
pub open spec fn reduction_scalar(len: nat, download: nat) -> Scalar {
    if len == 0 {
        literal(0)
    } else {
        Scalar::Downloaded(download as usize)
    }
}

/// Twice the overlap plus one.
pub open spec fn dice_numerator(overlap: Scalar) -> Scalar {
    Scalar::Sum(
        Box::new(Scalar::Product(Box::new(literal(TWO_BITS)), Box::new(overlap))),
        Box::new(literal(ONE_BITS)),
    )
}

/// The sum of both masses plus one.
pub open spec fn dice_denominator(predicted: Scalar, wanted: Scalar) -> Scalar {
    Scalar::Sum(
        Box::new(Scalar::Sum(Box::new(predicted), Box::new(wanted))),
        Box::new(literal(ONE_BITS)),
    )
}

/// The weighted distance of the Dice coefficient from one.
pub open spec fn dice_penalty(dice_weight: F32, numerator: Scalar, denominator: Scalar) -> Scalar {
    Scalar::Product(
        Box::new(Scalar::Literal(dice_weight)),
        Box::new(
            Scalar::Difference(
                Box::new(literal(ONE_BITS)),
                Box::new(Scalar::Quotient(Box::new(numerator), Box::new(denominator))),
            ),
        ),
    )
}

/// `weight * (numerator - 2 * target * denominator) / denominator^2`, the
/// derivative by the probability, times `p * (1 - p)`.
pub open spec fn dice_gradient(
    probabilities: Seq<Term>,
    target: Seq<Term>,
    dice_weight: F32,
    numerator: Scalar,
    denominator: Scalar,
) -> Seq<Term> {
    let by_probability = apply(
        MapFn::Scale(
            Scalar::Quotient(
                Box::new(Scalar::Literal(dice_weight)),
                Box::new(Scalar::Product(Box::new(denominator), Box::new(denominator))),
            ),
        ),
        apply(
            MapFn::Shift(numerator),
            apply(
                MapFn::Scale(
                    Scalar::Product(Box::new(literal(MINUS_TWO_BITS)), Box::new(denominator)),
                ),
                target,
            ),
        ),
    );
    let slope = zip(
        BinaryFn::Mul,
        apply(
            MapFn::Shift(literal(ONE_BITS)),
            apply(MapFn::Scale(literal(MINUS_ONE_BITS)), probabilities),
        ),
        probabilities,
    );
    zip(BinaryFn::Mul, by_probability, slope)
}

/// What the Dice term brings to the host: the overlap and both masses.
pub open spec fn dice_downloads(probabilities: Seq<Term>, target: Seq<Term>) -> Seq<Seq<Term>> {
    if probabilities.len() == 0 {
        Seq::empty()
    } else {
        seq![
            seq![
                Term::ZipReduce(
                    BinaryFn::Mul,
                    BinaryFn::Add,
                    F32 { bits: 0 },
                    probabilities,
                    target,
                ),
            ],
            seq![total(probabilities)],
            seq![total(target)],
        ]
    }
}

/// Whether a loss accepts an output, a target and a weight.
pub open spec fn comparable(
    runtime: CudaRuntime,
    output: Matrix,
    target: Matrix,
    positive_weight: F32,
) -> bool {
    &&& runtime.holds(output)
    &&& runtime.holds(target)
    &&& output.rows == target.rows
    &&& output.cols == target.cols
    &&& positive_weight.finite()
    &&& positive_weight.value() > 0
}

/// Whether shapes and weight are acceptable to a loss.
pub fn validate_binary_loss_inputs(output: &Matrix, target: &Matrix, positive_weight: F32) -> (r: bool)
    ensures
        r == (output.rows == target.rows && output.cols == target.cols && positive_weight.finite()
            && positive_weight.value() > 0),
{
    output.rows() == target.rows() && output.cols() == target.cols()
        && positive_weight.is_finite_positive()
}

impl Loss {
    /// The loss of every element.
    pub open spec fn element_losses(
        self,
        output: Seq<Term>,
        target: Seq<Term>,
        positive_weight: F32,
    ) -> Seq<Term> {
        match self {
            Loss::MeanSquaredError => apply(
                MapFn::HalfSquare,
                zip(BinaryFn::Sub, output, target),
            ),
            Loss::BinaryCrossEntropyWithLogits => cross_entropy(output, target, positive_weight),
        }
    }

    /// The mean loss of every row.
    pub open spec fn row_losses(
        self,
        output: Seq<Term>,
        target: Seq<Term>,
        positive_weight: F32,
        rows: usize,
        cols: usize,
    ) -> Seq<Term> {
        apply(
            MapFn::Scale(Scalar::Reciprocal(cols)),
            row_totals(
                self.element_losses(output, target, positive_weight),
                rows as nat,
                cols as nat,
            ),
        )
    }

    /// The gradient of the mean loss.
    pub open spec fn gradient(
        self,
        output: Seq<Term>,
        target: Seq<Term>,
        positive_weight: F32,
        count: usize,
    ) -> Seq<Term> {
        apply(
            MapFn::Scale(Scalar::Reciprocal(count)),
            match self {
                Loss::MeanSquaredError => zip(BinaryFn::Sub, output, target),
                Loss::BinaryCrossEntropyWithLogits => cross_entropy_gradient(
                    output,
                    target,
                    positive_weight,
                ),
            },
        )
    }

    /// What a loss with its gradient leaves behind: two new containers that
    /// hold the mean loss of every row and the gradient by the output. A Dice
    /// weight above zero brings three sums to the host, adds the weighted Dice
    /// loss to every row and its gradient to the gradient.
    pub open spec fn scored(
        self,
        before: CudaRuntime,
        after: CudaRuntime,
        output: Matrix,
        target: Matrix,
        positive_weight: F32,
        dice_weight: F32,
        r: (Vector, Matrix),
    ) -> bool {
        &&& after.wf()
        &&& after.holds_vector(r.0)
        &&& after.holds(r.1)
        &&& r.0.buffer.len == output.rows
        &&& r.1.rows == output.rows
        &&& r.1.cols == output.cols
        &&& r.0.buffer.id != r.1.buffer.id
        &&& !before.live@.contains(r.0.buffer.id)
        &&& !before.live@.contains(r.1.buffer.id)
        &&& after.live@ == before.live@.insert(r.0.buffer.id).insert(
                r.1.buffer.id,
            )
        &&& after.keeps(before, Set::empty())
        &&& after.ran_on(before, chosen(None))
        &&& dice_weight.value() == 0 ==> after.device@.downloads == before.device@.downloads && after.vector(r.0) == self.row_losses(
                before.matrix(output),
                before.matrix(target),
                positive_weight,
                output.rows,
                output.cols,
            ) && after.matrix(r.1) == self.gradient(
                before.matrix(output),
                before.matrix(target),
                positive_weight,
                output.buffer.len,
            )
        &&& dice_weight.value() > 0 ==> after.device@.downloads == before.device@.downloads + dice_downloads(
                apply(MapFn::Sigmoid, before.matrix(output)),
                before.matrix(target),
            ) && ({
                let n = before.device@.downloads.len();
                let len = before.matrix(output).len();
                let numerator = dice_numerator(reduction_scalar(len, n));
                let denominator = dice_denominator(
                    reduction_scalar(len, n + 1),
                    reduction_scalar(len, n + 2),
                );
                &&& after.vector(r.0) == apply(
                    MapFn::Shift(dice_penalty(dice_weight, numerator, denominator)),
                    self.row_losses(
                        before.matrix(output),
                        before.matrix(target),
                        positive_weight,
                        output.rows,
                        output.cols,
                    ),
                )
                &&& after.matrix(r.1) == zip(
                    BinaryFn::Add,
                    self.gradient(
                        before.matrix(output),
                        before.matrix(target),
                        positive_weight,
                        output.buffer.len,
                    ),
                    dice_gradient(
                        apply(MapFn::Sigmoid, before.matrix(output)),
                        before.matrix(target),
                        dice_weight,
                        numerator,
                        denominator,
                    ),
                )
            })
    }

    /// Turns outputs into predictions: logits become probabilities.
    pub fn activate_output(self, output: &mut Matrix, runtime: &mut CudaRuntime)
        requires
            old(runtime).wf(),
            old(runtime).holds(*old(output)),
        ensures
            *final(output) == *old(output),
            self is MeanSquaredError ==> *final(runtime) == *old(runtime),
            self is BinaryCrossEntropyWithLogits ==> final(runtime).changed(
                *old(runtime),
                old(output).buffer.id,
                None,
            ) && final(runtime).matrix(*old(output)) == apply(
                MapFn::Sigmoid,
                old(runtime).matrix(*old(output)),
            ),
            self is BinaryCrossEntropyWithLogits ==> forall|c: Exact, i: int|
                0 <= i < old(runtime).matrix(*old(output)).len() ==> #[trigger] c.value(
                    final(runtime).matrix(*old(output))[i],
                ) == (c.sigmoid)(c.value(old(runtime).matrix(*old(output))[i])),
    {
        match self {
            Loss::BinaryCrossEntropyWithLogits => {
                output.sigmoid(runtime, None);
            },
            Loss::MeanSquaredError => {},
        }
    }

    /// The mean loss of every row.
    pub fn loss_rows(self, output: &Matrix, target: &Matrix, positive_weight: F32, runtime: &mut CudaRuntime) -> (r:
        Vector)
        requires
            old(runtime).wf(),
            comparable(*old(runtime), *output, *target, positive_weight),
            output.rows <= u32::MAX,
            output.rows > 0 ==> output.cols > 0,
        ensures
            final(runtime).grown(*old(runtime), r.buffer.id, None),
            final(runtime).holds_vector(r),
            r.buffer.len == output.rows,
            final(runtime).vector(r) == self.row_losses(
                old(runtime).matrix(*output),
                old(runtime).matrix(*target),
                positive_weight,
                output.rows,
                output.cols,
            ),
    {
        let ghost before = *runtime;
        let mut loss = runtime.clone_matrix(output, None);
        let ghost id = loss.buffer.id;
        match self {
            Loss::MeanSquaredError => {
                loss.binary_assign(target, BinaryFn::Sub, runtime, None);
                loss.for_each(runtime, MapFn::HalfSquare, None);
            },
            Loss::BinaryCrossEntropyWithLogits => {
                loss.for_each(runtime, MapFn::Softplus, None);
                let product = runtime.matrix_mul(output, target, None);
                let ghost s1 = *runtime;
                loss.binary_assign(&product, BinaryFn::Sub, runtime, None);
                let ghost s2 = *runtime;
                runtime.recycle_matrix(product);
                let ghost s3 = *runtime;
                proof {
                    assert(s3.ran_on(s2, chosen(None)));
                    assert(s3.live@ =~= before.live@.insert(id));
                }
                if !positive_weight.equals(F32::one()) {
                    let mut positive = runtime.clone_matrix(output, None);
                    positive.for_each(
                        runtime,
                        MapFn::WeightedSoftplusOfNegative(
                            Scalar::Difference(
                                Box::new(Scalar::Literal(positive_weight)),
                                Box::new(Scalar::Literal(F32::one())),
                            ),
                        ),
                        None,
                    );
                    positive.binary_assign(target, BinaryFn::Mul, runtime, None);
                    let ghost s4 = *runtime;
                    loss.binary_assign(&positive, BinaryFn::Add, runtime, None);
                    let ghost s5 = *runtime;
                    runtime.recycle_matrix(positive);
                    proof {
                        assert(runtime.ran_on(s5, chosen(None)));
                        assert(runtime.live@ =~= before.live@.insert(id));
                        assert(s4.matrix(loss) == s3.matrix(loss));
                    }
                }
            },
        }
        let ghost s6 = *runtime;
        proof {
            assert(s6.matrix(loss) == self.element_losses(
                before.matrix(*output),
                before.matrix(*target),
                positive_weight,
            ));
        }
        let cols: usize = loss.cols();
        let mut rows = runtime.matrix_sum_rows(&loss, None);
        rows.scale(Scalar::Reciprocal(cols), runtime, None);
        let ghost s7 = *runtime;
        runtime.recycle_matrix(loss);
        proof {
            assert(runtime.ran_on(s7, chosen(None)));
            assert(runtime.live@ =~= before.live@.insert(rows.buffer.id));
        }
        rows
    }

    /// The gradient of the mean loss by the output.
    pub fn output_gradient(
        self,
        output: &Matrix,
        target: &Matrix,
        positive_weight: F32,
        runtime: &mut CudaRuntime,
    ) -> (r: Matrix)
        requires
            old(runtime).wf(),
            comparable(*old(runtime), *output, *target, positive_weight),
        ensures
            final(runtime).grown(*old(runtime), r.buffer.id, None),
            final(runtime).holds(r),
            r.rows == output.rows,
            r.cols == output.cols,
            final(runtime).matrix(r) == self.gradient(
                old(runtime).matrix(*output),
                old(runtime).matrix(*target),
                positive_weight,
                output.buffer.len,
            ),
    {
        let ghost before = *runtime;
        proof {
            runtime.lemma_whole(output.buffer);
        }
        let mut gradient = runtime.clone_matrix(output, None);
        let ghost id = gradient.buffer.id;
        match self {
            Loss::MeanSquaredError => {
                gradient.binary_assign(target, BinaryFn::Sub, runtime, None);
            },
            Loss::BinaryCrossEntropyWithLogits => {
                gradient.sigmoid(runtime, None);
                let ghost s1 = *runtime;
                if positive_weight.equals(F32::one()) {
                    gradient.binary_assign(target, BinaryFn::Sub, runtime, None);
                } else {
                    let mut weights = runtime.clone_matrix(target, None);
                    weights.scale(
                        Scalar::Difference(
                            Box::new(Scalar::Literal(positive_weight)),
                            Box::new(Scalar::Literal(F32::one())),
                        ),
                        runtime,
                        None,
                    );
                    weights.add_scalar(Scalar::Literal(F32::one()), runtime, None);
                    let ghost s2 = *runtime;
                    gradient.binary_assign(&weights, BinaryFn::Mul, runtime, None);
                    let ghost s3 = *runtime;
                    runtime.recycle_matrix(weights);
                    let ghost s4 = *runtime;
                    proof {
                        assert(s4.ran_on(s3, chosen(None)));
                        assert(s4.live@ =~= before.live@.insert(id));
                        assert(s2.matrix(gradient) == s1.matrix(gradient));
                    }
                    let mut weighted_target = runtime.clone_matrix(target, None);
                    weighted_target.scale(Scalar::Literal(positive_weight), runtime, None);
                    let ghost s5 = *runtime;
                    gradient.binary_assign(&weighted_target, BinaryFn::Sub, runtime, None);
                    let ghost s6 = *runtime;
                    runtime.recycle_matrix(weighted_target);
                    proof {
                        assert(runtime.ran_on(s6, chosen(None)));
                        assert(runtime.live@ =~= before.live@.insert(id));
                        assert(s5.matrix(gradient) == s4.matrix(gradient));
                    }
                }
            },
        }
        gradient.scale(
            Scalar::Reciprocal(output.rows() * output.cols()),
            runtime,
            None,
        );
        gradient
    }

    /// The mean loss of every row and the gradient by the output. A Dice
    /// weight above zero adds the weighted Dice loss to every row and its
    /// gradient to the gradient.
    #[verifier::rlimit(40)]
    pub fn loss_and_output_gradient(
        self,
        output: &Matrix,
        target: &Matrix,
        positive_weight: F32,
        dice_weight: F32,
        runtime: &mut CudaRuntime,
    ) -> (r: (Vector, Matrix))
        requires
            old(runtime).wf(),
            comparable(*old(runtime), *output, *target, positive_weight),
            output.rows <= u32::MAX,
            output.rows > 0 ==> output.cols > 0,
            dice_weight.finite(),
            dice_weight.value() >= 0,
            dice_weight.value() > 0 ==> self is BinaryCrossEntropyWithLogits,
        ensures
            self.scored(
                *old(runtime),
                *final(runtime),
                *output,
                *target,
                positive_weight,
                dice_weight,
                r,
            ),
    {
        let ghost before = *runtime;
        let ghost n = before.device@.downloads.len();
        proof {
            runtime.lemma_whole(output.buffer);
            runtime.lemma_whole(target.buffer);
        }
        let mut loss_rows = self.loss_rows(output, target, positive_weight, runtime);
        let ghost r1 = *runtime;
        let mut gradient = self.output_gradient(output, target, positive_weight, runtime);
        let ghost r2 = *runtime;
        if dice_weight.equals(F32::zero()) {
            return (loss_rows, gradient);
        }
        let mut probabilities = runtime.clone_matrix(output, None);
        let ghost r3 = *runtime;
        probabilities.sigmoid(runtime, None);
        let ghost r4 = *runtime;
        let ghost p = r4.matrix(probabilities);
        let ghost t = before.matrix(*target);
        proof {
            assert(p == apply(MapFn::Sigmoid, before.matrix(*output)));
            assert(r4.matrix(*target) == t);
        }
        let overlap = probabilities.zip_map_reduce(
            target,
            runtime,
            F32::zero(),
            BinaryFn::Mul,
            BinaryFn::Add,
            None,
        );
        let ghost r5 = *runtime;
        let predicted = probabilities.sum(runtime, None);
        let ghost r6 = *runtime;
        let wanted = target.sum(runtime, None);
        let ghost r7 = *runtime;
        proof {
            assert(r5.matrix(probabilities) == p);
            assert(r6.matrix(*target) == t);
            assert(overlap == reduction_scalar(p.len(), n));
            assert(predicted == reduction_scalar(p.len(), n + 1));
            assert(wanted == reduction_scalar(p.len(), n + 2));
            assert(r7.device@.downloads =~= before.device@.downloads + dice_downloads(p, t));
            r4.lemma_ran_on_nothing(chosen(None));
            assert(r7.ran_on(r4, chosen(None)));
            assert(r7.matrix(probabilities) == p);
            assert(r7.matrix(*target) == t);
            assert(r7.vector(loss_rows) == r1.vector(loss_rows));
            assert(r7.matrix(gradient) == r2.matrix(gradient));
            assert(r7.live@ == r4.live@);
        }
        let numerator = Scalar::Sum(
            Box::new(
                Scalar::Product(
                    Box::new(Scalar::Literal(F32 { bits: TWO_BITS })),
                    Box::new(overlap),
                ),
            ),
            Box::new(Scalar::Literal(F32::one())),
        );
        let denominator = Scalar::Sum(
            Box::new(Scalar::Sum(Box::new(predicted), Box::new(wanted))),
            Box::new(Scalar::Literal(F32::one())),
        );
        let penalty = Scalar::Product(
            Box::new(Scalar::Literal(dice_weight)),
            Box::new(
                Scalar::Difference(
                    Box::new(Scalar::Literal(F32::one())),
                    Box::new(
                        Scalar::Quotient(
                            Box::new(numerator.duplicate()),
                            Box::new(denominator.duplicate()),
                        ),
                    ),
                ),
            ),
        );
        loss_rows.add_scalar(penalty, runtime, None);
        let ghost r8 = *runtime;
        let slope = Loss::dice_terms(
            &probabilities,
            target,
            dice_weight,
            numerator,
            denominator,
            runtime,
        );
        let ghost r9 = *runtime;
        gradient.binary_assign(&slope, BinaryFn::Add, runtime, None);
        let ghost r10 = *runtime;
        runtime.recycle_matrix(probabilities);
        let ghost r11 = *runtime;
        runtime.recycle_matrix(slope);
        proof {
            assert(r11.ran_on(r10, chosen(None)));
            assert(runtime.ran_on(r11, chosen(None)));
            assert(r9.matrix(gradient) == r2.matrix(gradient));
            assert(runtime.live@ =~= before.live@.insert(loss_rows.buffer.id).insert(
                gradient.buffer.id,
            ));
        }
        (loss_rows, gradient)
    }

    /// The gradient of the Dice term by the logits, as a new matrix.
    fn dice_terms(
        probabilities: &Matrix,
        target: &Matrix,
        dice_weight: F32,
        numerator: Scalar,
        denominator: Scalar,
        runtime: &mut CudaRuntime,
    ) -> (r: Matrix)
        requires
            old(runtime).wf(),
            old(runtime).holds(*probabilities),
            old(runtime).holds(*target),
            probabilities.rows == target.rows,
            probabilities.cols == target.cols,
        ensures
            final(runtime).grown(*old(runtime), r.buffer.id, None),
            final(runtime).holds(r),
            r.rows == target.rows,
            r.cols == target.cols,
            final(runtime).matrix(r) == dice_gradient(
                old(runtime).matrix(*probabilities),
                old(runtime).matrix(*target),
                dice_weight,
                numerator,
                denominator,
            ),
    {
        let ghost before = *runtime;
        let mut dice = runtime.clone_matrix(target, None);
        let ghost id = dice.buffer.id;
        dice.scale(
            Scalar::Product(
                Box::new(Scalar::Literal(F32 { bits: MINUS_TWO_BITS })),
                Box::new(denominator.duplicate()),
            ),
            runtime,
            None,
        );
        dice.add_scalar(numerator, runtime, None);
        dice.scale(
            Scalar::Quotient(
                Box::new(Scalar::Literal(dice_weight)),
                Box::new(
                    Scalar::Product(Box::new(denominator.duplicate()), Box::new(denominator)),
                ),
            ),
            runtime,
            None,
        );
        let ghost s1 = *runtime;
        let mut slope = runtime.clone_matrix(probabilities, None);
        slope.scale(Scalar::Literal(F32 { bits: MINUS_ONE_BITS }), runtime, None);
        slope.add_scalar(Scalar::Literal(F32::one()), runtime, None);
        slope.binary_assign(probabilities, BinaryFn::Mul, runtime, None);
        let ghost s2 = *runtime;
        dice.binary_assign(&slope, BinaryFn::Mul, runtime, None);
        let ghost s3 = *runtime;
        runtime.recycle_matrix(slope);
        proof {
            assert(runtime.ran_on(s3, chosen(None)));
            assert(runtime.live@ =~= before.live@.insert(id));
            assert(s2.matrix(dice) == s1.matrix(dice));
        }
        dice
    }
}

} // verus!
