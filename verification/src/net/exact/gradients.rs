//! How gradients pass attention and blocks, in exact arithmetic.

use vstd::prelude::*;

use super::attention::{law_heads_weigh_their_values, lemma_score, matched};
use super::blocks::{added_numbers, row_numbers};
use super::stacks::weighed;
use super::{
    law_affine_terms_are_sums, law_gradients_pass_activations, law_input_gradients_are_sums,
};
use crate::cuda::algebra::{row_gradient, row_of, transpose_batches, zip, Term};
use crate::cuda::arith::{lemma_position_in_range, lemma_row_col};
use crate::cuda::container::norm::NORM_EPSILON_BITS;
use crate::cuda::container::{values_of, Matrix};
use crate::cuda::exact::{
    law_stacked_transposes_swap_rows_and_columns, lemma_sum_equal, numbers, sum, Exact,
};
use crate::cuda::meaning::Reading;
use crate::cuda::ops::{BinaryFn, RowFn};
use crate::cuda::runtime::CudaRuntime;
use crate::cuda::scalar::F32;
use crate::net::linear::{Linear, LinearTrainingNode};
use crate::net::node::SingleType;
use crate::net::transformer::attention::head_scores;
use crate::net::transformer::attention::training::{
    attention_gradients, score_gradient, TrainingAttention,
};
use crate::net::transformer::training::TrainingTransformer;
use crate::net::transformer::NormType;

verus! {

/// The place of a weight: the head's query row, then the key.
pub open spec fn place(rows: nat, head: int, row: int, j: int) -> int {
    (head * rows + row) * rows + j
}

/// The gradient of a score: what the weight's gradient has over the mean gradient of its row,
/// times the weight and the scale. The gradient of a weight is what the output's gradient and
/// the value multiply to, over the columns of the head.
#[verifier::spinoff_prover]
#[verifier::rlimit(60)]
pub proof fn law_scores_get_their_gradients(
    c: Exact,
    value: Seq<Term>,
    probabilities: Seq<Term>,
    gradient: Seq<Term>,
    heads: nat,
    rows: nat,
    head_width: usize,
    head: int,
    row: int,
    j: int,
)
    requires
        0 <= head < heads,
        0 <= row < rows,
        0 <= j < rows,
        probabilities.len() == heads * rows * rows,
    ensures
        score_gradient(value, probabilities, gradient, heads, rows, head_width).len() == heads
            * rows * rows,
        c.value(
            score_gradient(value, probabilities, gradient, heads, rows, head_width)[place(
                rows,
                head,
                row,
                j,
            )],
        ) == c.value(probabilities[place(rows, head, row, j)]) * (matched(
            c,
            gradient,
            value,
            heads,
            head_width as nat,
            head,
            row,
            j,
        ) - sum(
            rows,
            |k: int|
                c.value(probabilities[place(rows, head, row, k)]) * matched(
                    c,
                    gradient,
                    value,
                    heads,
                    head_width as nat,
                    head,
                    row,
                    k,
                ),
        )) * (c.inverse_root)(head_width),
{
    let line = head * rows + row;
    let at = place(rows, head, row, j);
    let w = head_width as nat;
    let scores = head_scores(gradient, value, heads, rows, rows, w);
    lemma_score(c, gradient, value, heads, rows, rows, w, head, row, j);
    lemma_row_col(line, j, rows as int);
    let inner = row_gradient(RowFn::Softmax, probabilities, scores, rows);
    let saved = row_of(probabilities, rows, line);
    let back = row_of(scores, rows, line);
    assert(inner[at] == Term::RowGradient(RowFn::Softmax, saved, back, j));
    c.reading().lemma_read_all(saved);
    c.reading().lemma_read_all(back);
    let u = c.reading().read_all(saved);
    let v = c.reading().read_all(back);
    let f = |k: int| u[k].value * v[k].value;
    let g = |k: int|
        c.value(probabilities[place(rows, head, row, k)]) * matched(
            c,
            gradient,
            value,
            heads,
            w,
            head,
            row,
            k,
        );
    assert forall|k: int| 0 <= k < rows implies #[trigger] f(k) == g(k) by {
        lemma_score(c, gradient, value, heads, rows, rows, w, head, row, k);
        assert(u[k] == c.read(saved[k]));
        assert(v[k] == c.read(back[k]));
    }
    lemma_sum_equal(rows, f, g);
    lemma_sum_equal(rows, |k: int| u[k].value * v[k].value, f);
    lemma_sum_equal(
        rows,
        g,
        |k: int|
            c.value(probabilities[place(rows, head, row, k)]) * matched(
                c,
                gradient,
                value,
                heads,
                head_width as nat,
                head,
                row,
                k,
            ),
    );
    assert(u[j] == c.read(saved[j]));
    assert(v[j] == c.read(back[j]));
    let all = score_gradient(value, probabilities, gradient, heads, rows, head_width);
    assert(c.value(inner[at]) == c.row_slope(RowFn::Softmax, u, v, j));
    assert(c.value(all[at]) == c.value(inner[at]) * (c.inverse_root)(head_width)) by {
        reveal_with_fuel(Reading::read, 2);
    }
}

/// A stack of square matrices, mirrored: rows and columns change places within each head.
proof fn lemma_mirrored(a: Seq<Term>, heads: nat, rows: nat, head: int, row: int, j: int)
    requires
        0 <= head < heads,
        0 <= row < rows,
        0 <= j < rows,
    ensures
        transpose_batches(a, heads, rows, rows)[place(rows, head, j, row)] == a[place(
            rows,
            head,
            row,
            j,
        )],
{
    law_stacked_transposes_swap_rows_and_columns(a, heads, rows, rows, head, row, j);
    assert((head * rows + j) * rows + row == head * (rows * rows) + j * rows + row)
        by (nonlinear_arith);
    assert((head * rows + row) * rows + j == head * (rows * rows) + row * rows + j)
        by (nonlinear_arith);
}

/// The gradients that attention hands to queries, keys and values, in every column of every
/// head: a query gets its scores' gradients times the keys, a key the gradients of the scores
/// that it took part in times the queries, a value the output's gradients times the weights
/// that it had.
pub proof fn law_attention_hands_gradients_back(
    c: Exact,
    query: Seq<Term>,
    key: Seq<Term>,
    value: Seq<Term>,
    probabilities: Seq<Term>,
    gradient: Seq<Term>,
    heads: nat,
    rows: nat,
    head_width: usize,
    head: int,
    row: int,
    x: int,
)
    requires
        0 <= head < heads,
        0 <= row < rows,
        0 <= x < head_width,
    ensures
        ({
            let width = (heads * head_width) as int;
            let col = head * head_width + x;
            let scores = score_gradient(value, probabilities, gradient, heads, rows, head_width);
            let g = attention_gradients(
                query,
                key,
                value,
                probabilities,
                gradient,
                heads,
                rows,
                head_width,
            );
            &&& c.entry(g.query, width, row, col) == sum(
                rows,
                |j: int| c.value(scores[place(rows, head, row, j)]) * c.entry(key, width, j, col),
            )
            &&& c.entry(g.key, width, row, col) == sum(
                rows,
                |r: int| c.value(scores[place(rows, head, r, row)]) * c.entry(query, width, r, col),
            )
            &&& c.entry(g.value, width, row, col) == sum(
                rows,
                |r: int|
                    c.value(probabilities[place(rows, head, r, row)]) * c.entry(
                        gradient,
                        width,
                        r,
                        col,
                    ),
            )
        }),
{
    let w = head_width as nat;
    let width = (heads * head_width) as int;
    let col = head * head_width + x;
    let scores = score_gradient(value, probabilities, gradient, heads, rows, head_width);
    let turned = transpose_batches(scores, heads, rows, rows);
    let mirrored = transpose_batches(probabilities, heads, rows, rows);
    law_heads_weigh_their_values(c, scores, key, heads, rows, rows, w, head, row, x);
    law_heads_weigh_their_values(c, turned, query, heads, rows, rows, w, head, row, x);
    law_heads_weigh_their_values(c, mirrored, gradient, heads, rows, rows, w, head, row, x);
    lemma_sum_equal(
        rows,
        |j: int|
            c.value(scores[(head * rows + row) * rows + j]) * c.entry(
                key,
                (heads * w) as int,
                j,
                head * w + x,
            ),
        |j: int| c.value(scores[place(rows, head, row, j)]) * c.entry(key, width, j, col),
    );
    let f = |r: int|
        c.value(turned[(head * rows + row) * rows + r]) * c.entry(
            query,
            (heads * w) as int,
            r,
            head * w + x,
        );
    let g = |r: int| c.value(scores[place(rows, head, r, row)]) * c.entry(query, width, r, col);
    assert forall|r: int| 0 <= r < rows implies #[trigger] f(r) == g(r) by {
        lemma_mirrored(scores, heads, rows, head, r, row);
    }
    lemma_sum_equal(rows, f, g);
    lemma_sum_equal(
        rows,
        |j: int|
            c.value(turned[(head * rows + row) * rows + j]) * c.entry(
                query,
                (heads * w) as int,
                j,
                head * w + x,
            ),
        f,
    );
    lemma_sum_equal(
        rows,
        g,
        |r: int| c.value(scores[place(rows, head, r, row)]) * c.entry(query, width, r, col),
    );
    let p = |r: int|
        c.value(mirrored[(head * rows + row) * rows + r]) * c.entry(
            gradient,
            (heads * w) as int,
            r,
            head * w + x,
        );
    let q = |r: int|
        c.value(probabilities[place(rows, head, r, row)]) * c.entry(gradient, width, r, col);
    assert forall|r: int| 0 <= r < rows implies #[trigger] p(r) == q(r) by {
        lemma_mirrored(probabilities, heads, rows, head, r, row);
    }
    lemma_sum_equal(rows, p, q);
    lemma_sum_equal(
        rows,
        |j: int|
            c.value(mirrored[(head * rows + row) * rows + j]) * c.entry(
                gradient,
                (heads * w) as int,
                j,
                head * w + x,
            ),
        p,
    );
    lemma_sum_equal(
        rows,
        q,
        |r: int|
            c.value(probabilities[place(rows, head, r, row)]) * c.entry(gradient, width, r, col),
    );
}

/// Passing a gradient back through a layer: times the activation's derivative at what the
/// layer adds up of its input, and back along the weights.
pub proof fn law_layers_pass_gradients_back(
    c: Exact,
    layer: Linear,
    runtime: CudaRuntime,
    input: Matrix,
    upstream: Seq<Term>,
    row: int,
    k: int,
)
    requires
        input.cols == layer.weights.rows,
        upstream.len() == input.rows * layer.weights.cols,
        0 <= row < input.rows,
        0 <= k < layer.weights.rows,
    ensures
        layer.through(runtime, input, upstream).len() == input.rows * layer.weights.rows,
        layer.inner_gradient(runtime, input, upstream).len() == upstream.len(),
        forall|j: int|
            0 <= j < layer.weights.cols ==> #[trigger] c.entry(
                layer.inner_gradient(runtime, input, upstream),
                layer.weights.cols as int,
                row,
                j,
            ) == c.entry(upstream, layer.weights.cols as int, row, j) * c.slope(
                layer.activation,
                weighed(c, layer, runtime, runtime.matrix(input), row, j),
            ),
        c.entry(
            layer.through(runtime, input, upstream),
            layer.weights.rows as int,
            row,
            k,
        ) == sum(
            layer.weights.cols as nat,
            |j: int|
                c.entry(
                    layer.inner_gradient(runtime, input, upstream),
                    layer.weights.cols as int,
                    row,
                    j,
                ) * c.entry(runtime.matrix(layer.weights), layer.weights.cols as int, k, j),
        ),
{
    let rows = input.rows as nat;
    let inner = layer.weights.rows as nat;
    let cols = layer.weights.cols as nat;
    let w = runtime.matrix(layer.weights);
    let x = runtime.matrix(input);
    let sums = layer.affine_of(runtime, input, None);
    let g = layer.inner_gradient(runtime, input, upstream);
    assert forall|j: int| 0 <= j < layer.weights.cols implies #[trigger] c.entry(
        g,
        layer.weights.cols as int,
        row,
        j,
    ) == c.entry(upstream, layer.weights.cols as int, row, j) * c.slope(
        layer.activation,
        weighed(c, layer, runtime, runtime.matrix(input), row, j),
    ) by {
        law_affine_terms_are_sums(
            c,
            x,
            w,
            layer.bias_terms(runtime),
            None,
            rows,
            inner,
            cols,
            row,
            j,
        );
        lemma_sum_equal(
            inner,
            |i: int| c.entry(x, inner as int, row, i) * c.entry(w, cols as int, i, j),
            |i: int|
                c.entry(x, layer.weights.rows as int, row, i) * c.entry(
                    runtime.matrix(layer.weights),
                    layer.weights.cols as int,
                    i,
                    j,
                ),
        );
        lemma_position_in_range(row, j, rows as int, cols as int);
        law_gradients_pass_activations(c, layer.activation, sums, upstream, row * cols + j);
    }
    law_input_gradients_are_sums(c, g, w, rows, inner, cols, row, k);
    lemma_sum_equal(
        cols,
        |j: int| c.entry(g, cols as int, row, j) * c.entry(w, cols as int, k, j),
        |j: int|
            c.entry(
                layer.inner_gradient(runtime, input, upstream),
                layer.weights.cols as int,
                row,
                j,
            ) * c.entry(runtime.matrix(layer.weights), layer.weights.cols as int, k, j),
    );
}

/// A layer that is trained passes gradients back in the same way, with the input that it kept.
pub proof fn law_trained_layers_pass_gradients_back(
    c: Exact,
    node: LinearTrainingNode,
    runtime: CudaRuntime,
    gradient: Matrix,
    row: int,
    col: int,
)
    requires
        node.input_cache is Some,
        node.input_cache->0.cols == node.linear.weights.rows,
        node.input_cache->0.rows == gradient.rows,
        gradient.cols == node.linear.weights.cols,
        runtime.matrix(gradient).len() == gradient.rows * gradient.cols,
        0 <= row < gradient.rows,
        0 <= col < gradient.cols,
        node.linear.weights.rows > 0,
    ensures
        c.entry(
            node.inner_gradient(runtime, gradient),
            gradient.cols as int,
            row,
            col,
        ) == c.entry(runtime.matrix(gradient), gradient.cols as int, row, col) * c.slope(
            node.linear.activation,
            weighed(
                c,
                node.linear,
                runtime,
                runtime.matrix(node.input_cache->0),
                row,
                col,
            ),
        ),
{
    let input = node.input_cache->0;
    law_layers_pass_gradients_back(
        c,
        node.linear,
        runtime,
        input,
        runtime.matrix(gradient),
        row,
        0,
    );
    let g = node.linear.inner_gradient(runtime, input, runtime.matrix(gradient));
    assert(node.inner_gradient(runtime, gradient) == g);
    assert(c.entry(g, node.linear.weights.cols as int, row, col) == c.entry(
        runtime.matrix(gradient),
        node.linear.weights.cols as int,
        row,
        col,
    ) * c.slope(
        node.linear.activation,
        weighed(c, node.linear, runtime, runtime.matrix(input), row, col),
    ));
}

/// The gradient of attention's input is what comes back through the three projections, added.
pub proof fn law_projections_add_their_gradients<const HEADS: usize>(
    c: Exact,
    attention: TrainingAttention<HEADS>,
    runtime: CudaRuntime,
    gradient: Seq<Term>,
    i: int,
)
    requires
        ({
            let l = attention.attention.qkv.layers;
            let rows = attention.state->0.input.rows;
            0 <= i < rows * l.query.weights.rows
        }),
    ensures
        ({
            let l = attention.attention.qkv.layers;
            let input = attention.state->0.input;
            let g = attention.projection_gradients(runtime, gradient);
            c.value(attention.input_gradient(runtime, gradient)[i]) == c.value(
                l.query.through(runtime, input, g.query)[i],
            ) + c.value(l.key.through(runtime, input, g.key)[i]) + c.value(
                l.value.through(runtime, input, g.value)[i],
            )
        }),
{
    reveal_with_fuel(Reading::read, 3);
}

/// A gradient after a normalisation, passed back: what the derivative of the normalisation
/// makes of the numbers that were normalised and the gradient.
pub open spec fn passed_back(
    c: Exact,
    norm_type: NormType,
    n: nat,
    saved: spec_fn(int) -> real,
    gradient: spec_fn(int) -> real,
    result: spec_fn(int) -> real,
) -> bool {
    let f = match norm_type {
        NormType::Layer => RowFn::LayerNorm(F32 { bits: NORM_EPSILON_BITS }),
        NormType::Rms => RowFn::RmsNorm(F32 { bits: NORM_EPSILON_BITS }),
    };
    forall|k: int|
        0 <= k < n ==> #[trigger] result(k) == (c.row_gradient)(
            f,
            Seq::new(n, saved),
            Seq::new(n, gradient),
            k,
        )
}

/// A normalisation's gradient, row by row.
pub proof fn law_normalisations_pass_gradients_back(
    c: Exact,
    norm_type: NormType,
    saved: Seq<Term>,
    gradient: Seq<Term>,
    rows: nat,
    cols: nat,
    row: int,
)
    requires
        saved.len() == rows * cols,
        0 <= row < rows,
    ensures
        passed_back(
            c,
            norm_type,
            cols,
            row_numbers(c, saved, cols as int, row),
            row_numbers(c, gradient, cols as int, row),
            row_numbers(
                c,
                norm_type.spec_op().pullback(saved, gradient, rows, cols),
                cols as int,
                row,
            ),
        ),
        norm_type is Layer ==> norm_type.spec_op() == SingleType::LayerNorm,
        norm_type is Rms ==> norm_type.spec_op() == SingleType::RmsNorm,
        norm_type.spec_op().pullback(saved, gradient, rows, cols).len() == saved.len(),
{
    let f = match norm_type {
        NormType::Layer => RowFn::LayerNorm(F32 { bits: NORM_EPSILON_BITS }),
        NormType::Rms => RowFn::RmsNorm(F32 { bits: NORM_EPSILON_BITS }),
    };
    let made = norm_type.spec_op().pullback(saved, gradient, rows, cols);
    assert(made == row_gradient(f, saved, gradient, cols));
    let a = row_of(saved, cols, row);
    let b = row_of(gradient, cols, row);
    c.reading().lemma_read_all(a);
    c.reading().lemma_read_all(b);
    let u = c.reading().read_all(a);
    let v = c.reading().read_all(b);
    assert forall|k: int| 0 <= k < cols implies (#[trigger] u[k]).value == c.entry(
        saved,
        cols as int,
        row,
        k,
    ) by {
        assert(u[k] == c.read(a[k]));
    }
    assert forall|k: int| 0 <= k < cols implies (#[trigger] v[k]).value == c.entry(
        gradient,
        cols as int,
        row,
        k,
    ) by {
        assert(v[k] == c.read(b[k]));
    }
    let first = Seq::new(cols, row_numbers(c, saved, cols as int, row));
    let second = Seq::new(cols, row_numbers(c, gradient, cols as int, row));
    assert(numbers(u) =~= first);
    assert(numbers(v) =~= second);
    let result = row_numbers(c, made, cols as int, row);
    assert forall|k: int| 0 <= k < cols implies #[trigger] result(k) == (c.row_gradient)(
        f,
        first,
        second,
        k,
    ) by {
        lemma_position_in_range(row, k, rows as int, cols as int);
        lemma_row_col(row, k, cols as int);
        assert(made[row * cols + k] == Term::RowGradient(f, a, b, k));
    }
}

/// How a block passes a gradient back: through the output layer and the second normalisation;
/// then both past and through the stack, added, and through the first normalisation; then
/// both past and through the attention, added.
pub proof fn law_blocks_pass_gradients_back<const HEADS: usize, const MASKED: bool>(
    c: Exact,
    block: TrainingTransformer<HEADS, MASKED>,
    runtime: CudaRuntime,
    gradient: Seq<Term>,
    rows: usize,
    row: int,
    col: int,
)
    requires
        block.sound(runtime),
        runtime.matrix(block.second.normalization.cache->0.matrix()).len() == rows * block.width(),
        runtime.matrix(block.first.normalization.cache->0.matrix()).len() == rows * block.width(),
        0 <= row < rows,
        0 <= col < block.width(),
    ensures
        ({
            let width = block.width() as int;
            let arrived = block.output_matrix.through(
                runtime,
                block.cache->0.encoded,
                gradient,
            );
            let second = block.second_gradient(runtime, gradient, rows);
            let past = block.second.fcs.executor.upstream(
                runtime,
                values_of(runtime, block.second.fcs.layer_inputs@),
                rows as nat,
                second,
                0,
            );
            let first = block.first_gradient(runtime, gradient, rows);
            &&& passed_back(
                c,
                block.norm_type,
                width as nat,
                row_numbers(
                    c,
                    runtime.matrix(block.second.normalization.cache->0.matrix()),
                    width,
                    row,
                ),
                row_numbers(c, arrived, width, row),
                row_numbers(c, second, width, row),
            )
            &&& passed_back(
                c,
                block.norm_type,
                width as nat,
                row_numbers(
                    c,
                    runtime.matrix(block.first.normalization.cache->0.matrix()),
                    width,
                    row,
                ),
                added_numbers(c, second, past, width, row),
                row_numbers(c, first, width, row),
            )
            &&& c.entry(
                block.input_gradient(runtime, gradient, rows),
                width,
                row,
                col,
            ) == c.entry(first, width, row, col) + c.entry(
                block.first.attention.input_gradient(runtime, first),
                width,
                row,
                col,
            )
            &&& block.norm_type is Layer ==> block.first.normalization.node.op is LayerNorm
                && block.second.normalization.node.op is LayerNorm
            &&& block.norm_type is Rms ==> block.first.normalization.node.op is RmsNorm
                && block.second.normalization.node.op is RmsNorm
        }),
{
    let cols = block.width() as nat;
    let width = block.width() as int;
    let n = rows as nat;
    let arrived = block.output_matrix.through(runtime, block.cache->0.encoded, gradient);
    let second = block.second_gradient(runtime, gradient, rows);
    let past = block.second.fcs.executor.upstream(
        runtime,
        values_of(runtime, block.second.fcs.layer_inputs@),
        n,
        second,
        0,
    );
    let first = block.first_gradient(runtime, gradient, rows);
    let kept2 = runtime.matrix(block.second.normalization.cache->0.matrix());
    let kept1 = runtime.matrix(block.first.normalization.cache->0.matrix());
    law_normalisations_pass_gradients_back(c, block.norm_type, kept2, arrived, n, cols, row);
    let joined = zip(BinaryFn::Add, second, past);
    law_normalisations_pass_gradients_back(c, block.norm_type, kept1, joined, n, cols, row);
    let both = added_numbers(c, second, past, width, row);
    let same = row_numbers(c, joined, width, row);
    let saved = row_numbers(c, kept1, width, row);
    let result = row_numbers(c, first, width, row);
    let f = match block.norm_type {
        NormType::Layer => RowFn::LayerNorm(F32 { bits: NORM_EPSILON_BITS }),
        NormType::Rms => RowFn::RmsNorm(F32 { bits: NORM_EPSILON_BITS }),
    };
    assert(Seq::new(cols, same) =~= Seq::new(cols, both)) by {
        assert forall|k: int| 0 <= k < cols implies #[trigger] same(k) == both(k) by {
            lemma_position_in_range(row, k, rows as int, width);
            reveal_with_fuel(Reading::read, 2);
        }
    }
    assert forall|k: int| 0 <= k < cols implies #[trigger] result(k) == (c.row_gradient)(
        f,
        Seq::new(cols, saved),
        Seq::new(cols, both),
        k,
    ) by {}
    lemma_position_in_range(row, col, rows as int, width);
    reveal_with_fuel(Reading::read, 2);
}

} // verus!
