//! What the parts of a transformer block are, in exact arithmetic.

use vstd::prelude::*;

use super::attention::law_projections_are_affine_and_activated;
use crate::cuda::algebra::{zip, Term};
use crate::cuda::arith::lemma_position_in_range;
use crate::cuda::container::norm::NORM_EPSILON_BITS;
use crate::cuda::exact::{
    lemma_row_apply, lemma_sum_add, lemma_sum_constant, lemma_sum_equal, lemma_sum_scale, numbers,
    sum, Exact,
};
use crate::cuda::meaning::Reading;
use crate::cuda::ops::{BinaryFn, RowFn};
use crate::cuda::runtime::CudaRuntime;
use crate::cuda::scalar::F32;
use crate::net::node::SingleType;
use crate::net::transformer::inference::InferenceTransformer;
use crate::net::transformer::position::PositionEncoding;
use crate::net::transformer::NormType;

verus! {

/// What an encoding adds to an element: nothing, or the value that stands at its place.
pub open spec fn position_number(
    c: Exact,
    encoding: PositionEncoding,
    runtime: CudaRuntime,
    i: int,
) -> real {
    match encoding {
        PositionEncoding::Identity => 0int as real,
        PositionEncoding::Additive(values) => c.value(runtime.matrix(values)[i]),
    }
}

/// An encoded element is the element and what stands at its place, added.
pub proof fn law_positions_are_added(
    c: Exact,
    encoding: PositionEncoding,
    runtime: CudaRuntime,
    x: Seq<Term>,
    i: int,
)
    requires
        0 <= i < x.len(),
    ensures
        encoding.image(runtime, x).len() == x.len(),
        encoding is Identity ==> c.value(encoding.image(runtime, x)[i]) == c.value(x[i]),
        encoding matches PositionEncoding::Additive(values) ==> c.value(
            encoding.image(runtime, x)[i],
        ) == c.value(x[i]) + c.value(runtime.matrix(values)[i]),
        c.value(encoding.image(runtime, x)[i]) == c.value(x[i]) + position_number(
            c,
            encoding,
            runtime,
            i,
        ),
{
    reveal_with_fuel(Reading::read, 3);
}

/// The mean of the first values of a function of an index.
pub open spec fn mean(n: nat, f: spec_fn(int) -> real) -> real {
    sum(n, f) / (n as int as real)
}

/// What is left of numbers without their mean adds up to nothing.
pub proof fn lemma_deviations(n: nat, f: spec_fn(int) -> real)
    requires
        n > 0,
    ensures
        sum(n, |k: int| f(k) - mean(n, f)) == 0int as real,
{
    let m = mean(n, f);
    let less = (0int as real) - m;
    let g = |k: int| less;
    lemma_sum_add(n, f, g);
    lemma_sum_constant(n, less);
    lemma_sum_equal(n, g, |k: int| less);
    lemma_sum_equal(n, |k: int| f(k) + g(k), |k: int| f(k) - mean(n, f));
    let s = sum(n, f);
    let count = n as int as real;
    assert(s + count * less == 0int as real) by (nonlinear_arith)
        requires
            count > 0int as real,
            m == s / count,
            less == (0int as real) - m,
    ;
}

/// Numbers without their mean, times the one factor that layer normalisation has for them.
pub open spec fn layer_normalised(
    c: Exact,
    n: nat,
    before: spec_fn(int) -> real,
    after: spec_fn(int) -> real,
) -> bool {
    forall|k: int|
        0 <= k < n ==> #[trigger] after(k) == (before(k) - mean(n, before)) * (c.factor)(
            RowFn::LayerNorm(F32 { bits: NORM_EPSILON_BITS }),
            Seq::new(n, before),
        )
}

/// Numbers times the one factor that root-mean-square normalisation has for them.
pub open spec fn rms_normalised(
    c: Exact,
    n: nat,
    before: spec_fn(int) -> real,
    after: spec_fn(int) -> real,
) -> bool {
    forall|k: int|
        0 <= k < n ==> #[trigger] after(k) == before(k) * (c.factor)(
            RowFn::RmsNorm(F32 { bits: NORM_EPSILON_BITS }),
            Seq::new(n, before),
        )
}

/// The numbers of a row.
pub open spec fn row_numbers(c: Exact, a: Seq<Term>, cols: int, row: int) -> spec_fn(int) -> real {
    |k: int| c.entry(a, cols, row, k)
}

/// A row after layer normalisation: the row without its mean, scaled. It adds up to nothing.
pub proof fn law_layer_normalisation_centres_rows(
    c: Exact,
    a: Seq<Term>,
    rows: nat,
    cols: nat,
    row: int,
)
    requires
        a.len() == rows * cols,
        0 <= row < rows,
        cols > 0,
    ensures
        SingleType::LayerNorm.image(a, rows, cols).len() == a.len(),
        layer_normalised(
            c,
            cols,
            row_numbers(c, a, cols as int, row),
            row_numbers(c, SingleType::LayerNorm.image(a, rows, cols), cols as int, row),
        ),
        sum(cols, row_numbers(c, SingleType::LayerNorm.image(a, rows, cols), cols as int, row))
            == 0int as real,
{
    let made = SingleType::LayerNorm.image(a, rows, cols);
    let f = RowFn::LayerNorm(F32 { bits: NORM_EPSILON_BITS });
    let before = row_numbers(c, a, cols as int, row);
    let after = row_numbers(c, made, cols as int, row);
    let q = Seq::new(cols, |k: int| c.read(a[row * cols + k]));
    assert(numbers(q) =~= Seq::new(cols, before));
    let values = |k: int| q[k].value;
    lemma_sum_equal(cols, values, before);
    let factor = (c.factor)(f, Seq::new(cols, before));
    let off = |k: int| before(k) - mean(cols, before);
    assert forall|k: int| 0 <= k < cols implies #[trigger] after(k) == off(k) * factor by {
        lemma_row_apply(c, f, a, rows, cols, row, k);
        lemma_sum_equal(q.len(), |j: int| q[j].value, values);
    }
    lemma_sum_equal(cols, after, |k: int| off(k) * factor);
    lemma_sum_scale(cols, off, factor);
    lemma_deviations(cols, before);
    lemma_sum_equal(cols, off, |k: int| before(k) - mean(cols, before));
    let zero = 0int as real;
    assert(zero * factor == zero) by (nonlinear_arith)
        requires
            zero == 0int as real,
    ;
}

/// A row after root-mean-square normalisation: the row, scaled.
pub proof fn law_rms_normalisation_scales_rows(
    c: Exact,
    a: Seq<Term>,
    rows: nat,
    cols: nat,
    row: int,
)
    requires
        a.len() == rows * cols,
        0 <= row < rows,
    ensures
        SingleType::RmsNorm.image(a, rows, cols).len() == a.len(),
        rms_normalised(
            c,
            cols,
            row_numbers(c, a, cols as int, row),
            row_numbers(c, SingleType::RmsNorm.image(a, rows, cols), cols as int, row),
        ),
{
    let made = SingleType::RmsNorm.image(a, rows, cols);
    let f = RowFn::RmsNorm(F32 { bits: NORM_EPSILON_BITS });
    let before = row_numbers(c, a, cols as int, row);
    let after = row_numbers(c, made, cols as int, row);
    let q = Seq::new(cols, |k: int| c.read(a[row * cols + k]));
    assert(numbers(q) =~= Seq::new(cols, before));
    let factor = (c.factor)(f, Seq::new(cols, before));
    assert forall|k: int| 0 <= k < cols implies #[trigger] after(k) == before(k) * factor by {
        lemma_row_apply(c, f, a, rows, cols, row, k);
    }
}

/// A normalised row of two matrices added.
pub open spec fn normalised(
    c: Exact,
    norm_type: NormType,
    n: nat,
    before: spec_fn(int) -> real,
    after: spec_fn(int) -> real,
) -> bool {
    &&& norm_type is Layer ==> layer_normalised(c, n, before, after) && sum(n, after)
        == 0int as real
    &&& norm_type is Rms ==> rms_normalised(c, n, before, after)
}

/// The numbers of two rows, added.
pub open spec fn added_numbers(
    c: Exact,
    a: Seq<Term>,
    b: Seq<Term>,
    cols: int,
    row: int,
) -> spec_fn(int) -> real {
    |k: int| c.entry(a, cols, row, k) + c.entry(b, cols, row, k)
}

/// A residual and a normalisation after it.
pub proof fn law_residuals_are_added_and_normalised(
    c: Exact,
    norm_type: NormType,
    a: Seq<Term>,
    b: Seq<Term>,
    rows: nat,
    cols: nat,
    row: int,
)
    requires
        a.len() == rows * cols,
        0 <= row < rows,
        cols > 0,
    ensures
        norm_type.spec_op().image(zip(BinaryFn::Add, a, b), rows, cols).len() == a.len(),
        normalised(
            c,
            norm_type,
            cols,
            added_numbers(c, a, b, cols as int, row),
            row_numbers(
                c,
                norm_type.spec_op().image(zip(BinaryFn::Add, a, b), rows, cols),
                cols as int,
                row,
            ),
        ),
{
    let s = zip(BinaryFn::Add, a, b);
    let before = added_numbers(c, a, b, cols as int, row);
    let same = row_numbers(c, s, cols as int, row);
    assert forall|k: int| 0 <= k < cols implies #[trigger] same(k) == before(k) by {
        lemma_position_in_range(row, k, rows as int, cols as int);
        reveal_with_fuel(Reading::read, 2);
    }
    lemma_sum_equal(cols, same, before);
    assert(Seq::new(cols, same) =~= Seq::new(cols, before));
    match norm_type {
        NormType::Layer => {
            law_layer_normalisation_centres_rows(c, s, rows, cols, row);
            let after = row_numbers(c, SingleType::LayerNorm.image(s, rows, cols), cols as int, row);
            assert forall|k: int| 0 <= k < cols implies #[trigger] after(k) == (before(k) - mean(
                cols,
                before,
            )) * (c.factor)(
                RowFn::LayerNorm(F32 { bits: NORM_EPSILON_BITS }),
                Seq::new(cols, before),
            ) by {
                assert(same(k) == before(k));
            }
        },
        NormType::Rms => {
            law_rms_normalisation_scales_rows(c, s, rows, cols, row);
            let after = row_numbers(c, SingleType::RmsNorm.image(s, rows, cols), cols as int, row);
            assert forall|k: int| 0 <= k < cols implies #[trigger] after(k) == before(k) * (
            c.factor)(RowFn::RmsNorm(F32 { bits: NORM_EPSILON_BITS }), Seq::new(cols, before)) by {
                assert(same(k) == before(k));
            }
        },
    }
}

/// A block: what attention makes of the encoded input is added to that input and
/// normalised; what the stack makes of the result is added to the result and normalised; the
/// output layer comes last. The normalisation is the one that the block was set up with.
pub proof fn law_blocks_add_and_normalise<const HEADS: usize, const MASKED: bool>(
    c: Exact,
    block: InferenceTransformer<HEADS, MASKED>,
    runtime: CudaRuntime,
    x: Seq<Term>,
    rows: usize,
    row: int,
)
    requires
        x.len() == rows * block.attention.width(),
        0 <= row < rows,
        block.attention.width() > 0,
    ensures
        ({
            let width = block.attention.width() as int;
            let ex = block.fcs.executor;
            let p = block.position_encoding.image(runtime, x);
            let a = block.attention.image(runtime, p, rows, p, rows, MASKED);
            let m = block.middle(runtime, x, rows);
            let f = ex.stage(runtime, m, rows as nat, ex.layers@.len() as int);
            let e = block.encoded(runtime, x, rows);
            &&& m.len() == x.len()
            &&& e.len() == x.len()
            &&& normalised(
                c,
                block.norm_type,
                width as nat,
                added_numbers(c, p, a, width, row),
                row_numbers(c, m, width, row),
            )
            &&& normalised(
                c,
                block.norm_type,
                width as nat,
                added_numbers(c, m, f, width, row),
                row_numbers(c, e, width, row),
            )
            &&& block.shaped() && block.norm_type is Layer
                ==> block.attention_normalization.op is LayerNorm
                && block.feed_forward_normalization.op is LayerNorm
            &&& block.shaped() && block.norm_type is Rms
                ==> block.attention_normalization.op is RmsNorm
                && block.feed_forward_normalization.op is RmsNorm
        }),
{
    let cols = block.attention.width() as nat;
    let ex = block.fcs.executor;
    let p = block.position_encoding.image(runtime, x);
    let a = block.attention.image(runtime, p, rows, p, rows, MASKED);
    let m = block.middle(runtime, x, rows);
    let f = ex.stage(runtime, m, rows as nat, ex.layers@.len() as int);
    assert(p.len() == x.len());
    law_residuals_are_added_and_normalised(c, block.norm_type, p, a, rows as nat, cols, row);
    law_residuals_are_added_and_normalised(c, block.norm_type, m, f, rows as nat, cols, row);
}

/// The output of a block is the output layer of its encoded rows.
pub proof fn law_blocks_end_in_their_output_layer<const HEADS: usize, const MASKED: bool>(
    c: Exact,
    block: InferenceTransformer<HEADS, MASKED>,
    runtime: CudaRuntime,
    x: Seq<Term>,
    rows: usize,
    row: int,
    col: int,
)
    requires
        0 <= row < rows,
        0 <= col < block.output_matrix.weights.cols,
    ensures
        c.entry(
            block.image(runtime, x, rows),
            block.output_matrix.weights.cols as int,
            row,
            col,
        ) == c.activation(
            block.output_matrix.activation,
            sum(
                block.output_matrix.weights.rows as nat,
                |k: int|
                    c.entry(
                        block.encoded(runtime, x, rows),
                        block.output_matrix.weights.rows as int,
                        row,
                        k,
                    ) * c.entry(
                        runtime.matrix(block.output_matrix.weights),
                        block.output_matrix.weights.cols as int,
                        k,
                        col,
                    ),
            ) + (match block.output_matrix.bias {
                Some(b) => c.value(runtime.vector(b)[col]),
                None => 0int as real,
            }),
        ),
{
    let encoded = block.encoded(runtime, x, rows);
    let layer = block.output_matrix;
    law_projections_are_affine_and_activated(c, layer, runtime, encoded, rows as nat, row, col);
    lemma_sum_equal(
        layer.weights.rows as nat,
        |k: int|
            c.entry(encoded, layer.weights.rows as int, row, k) * c.entry(
                runtime.matrix(layer.weights),
                layer.weights.cols as int,
                k,
                col,
            ),
        |k: int|
            c.entry(
                block.encoded(runtime, x, rows),
                block.output_matrix.weights.rows as int,
                row,
                k,
            ) * c.entry(
                runtime.matrix(block.output_matrix.weights),
                block.output_matrix.weights.cols as int,
                k,
                col,
            ),
    );
}

} // verus!
