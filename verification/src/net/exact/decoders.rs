//! Blocks whose queries see no later key look back only.

use vstd::prelude::*;

use super::attention::{exponentials, law_decoders_look_back, lemma_same_projections, same_rows};
use super::blocks::{
    added_numbers, law_positions_are_added, law_residuals_are_added_and_normalised, mean,
    row_numbers,
};
use super::stacks::{law_stacks_compute_layer_by_layer, linked, weighed};
use crate::cuda::algebra::{zip, Term};
use crate::cuda::arith::lemma_position_in_range;
use crate::cuda::exact::{lemma_sum_equal, Exact};
use crate::cuda::ops::BinaryFn;
use crate::cuda::runtime::CudaRuntime;
use crate::net::linear::Linear;
use crate::net::mlp::MlpExecutor;
use crate::net::transformer::inference::InferenceDecoder;
use crate::net::transformer::position::PositionEncoding;
use crate::net::transformer::NormType;

verus! {

/// Encodings of the same rows are the same.
proof fn lemma_same_positions(
    c: Exact,
    encoding: PositionEncoding,
    runtime: CudaRuntime,
    x: Seq<Term>,
    y: Seq<Term>,
    rows: int,
    cols: int,
    last: int,
)
    requires
        0 <= last < rows,
        x.len() == rows * cols,
        y.len() == rows * cols,
        same_rows(c, x, y, cols, last),
    ensures
        same_rows(c, encoding.image(runtime, x), encoding.image(runtime, y), cols, last),
{
    assert forall|r: int, k: int|
        0 <= r <= last && 0 <= k < cols implies c.entry(encoding.image(runtime, x), cols, r, k)
        == c.entry(encoding.image(runtime, y), cols, r, k) by {
        lemma_position_in_range(r, k, rows, cols);
        law_positions_are_added(c, encoding, runtime, x, r * cols + k);
        law_positions_are_added(c, encoding, runtime, y, r * cols + k);
        assert(c.entry(x, cols, r, k) == c.entry(y, cols, r, k));
    }
}

/// Residuals of the same rows, normalised, are the same.
proof fn lemma_same_residuals(
    c: Exact,
    norm_type: NormType,
    a: Seq<Term>,
    b: Seq<Term>,
    a2: Seq<Term>,
    b2: Seq<Term>,
    rows: nat,
    cols: nat,
    last: int,
)
    requires
        0 <= last < rows,
        cols > 0,
        a.len() == rows * cols,
        a2.len() == rows * cols,
        same_rows(c, a, a2, cols as int, last),
        same_rows(c, b, b2, cols as int, last),
    ensures
        same_rows(
            c,
            norm_type.spec_op().image(zip(BinaryFn::Add, a, b), rows, cols),
            norm_type.spec_op().image(zip(BinaryFn::Add, a2, b2), rows, cols),
            cols as int,
            last,
        ),
{
    let s = norm_type.spec_op().image(zip(BinaryFn::Add, a, b), rows, cols);
    let t = norm_type.spec_op().image(zip(BinaryFn::Add, a2, b2), rows, cols);
    let n = cols as int;
    assert forall|r: int, k: int| 0 <= r <= last && 0 <= k < n implies c.entry(s, n, r, k)
        == c.entry(t, n, r, k) by {
        law_residuals_are_added_and_normalised(c, norm_type, a, b, rows, cols, r);
        law_residuals_are_added_and_normalised(c, norm_type, a2, b2, rows, cols, r);
        let f = added_numbers(c, a, b, n, r);
        let g = added_numbers(c, a2, b2, n, r);
        assert forall|i: int| 0 <= i < n implies #[trigger] f(i) == g(i) by {
            assert(c.entry(a, n, r, i) == c.entry(a2, n, r, i));
            assert(c.entry(b, n, r, i) == c.entry(b2, n, r, i));
        }
        lemma_sum_equal(cols, f, g);
        assert(mean(cols, f) == mean(cols, g));
        assert(Seq::new(cols, f) =~= Seq::new(cols, g));
        let u = row_numbers(c, s, n, r);
        let v = row_numbers(c, t, n, r);
        assert(f(k) == g(k));
        assert(u(k) == v(k)) by {
            match norm_type {
                NormType::Layer => {},
                NormType::Rms => {},
            }
        }
    }
}

/// What a layer adds up of the same rows is the same.
proof fn lemma_same_weighed(
    c: Exact,
    layer: Linear,
    runtime: CudaRuntime,
    x: Seq<Term>,
    y: Seq<Term>,
    last: int,
    row: int,
    col: int,
)
    requires
        0 <= row <= last,
        same_rows(c, x, y, layer.weights.rows as int, last),
    ensures
        weighed(c, layer, runtime, x, row, col) == weighed(c, layer, runtime, y, row, col),
{
    let n = layer.weights.rows as nat;
    let f = |k: int|
        c.entry(x, layer.weights.rows as int, row, k) * c.entry(
            runtime.matrix(layer.weights),
            layer.weights.cols as int,
            k,
            col,
        );
    let g = |k: int|
        c.entry(y, layer.weights.rows as int, row, k) * c.entry(
            runtime.matrix(layer.weights),
            layer.weights.cols as int,
            k,
            col,
        );
    assert forall|k: int| 0 <= k < n implies #[trigger] f(k) == g(k) by {
        assert(c.entry(x, n as int, row, k) == c.entry(y, n as int, row, k));
    }
    lemma_sum_equal(n, f, g);
    lemma_sum_equal(
        n,
        |k: int|
            c.entry(x, layer.weights.rows as int, row, k) * c.entry(
                runtime.matrix(layer.weights),
                layer.weights.cols as int,
                k,
                col,
            ),
        f,
    );
    lemma_sum_equal(
        n,
        |k: int|
            c.entry(y, layer.weights.rows as int, row, k) * c.entry(
                runtime.matrix(layer.weights),
                layer.weights.cols as int,
                k,
                col,
            ),
        g,
    );
}

/// A residual leads from a width to the same width.
pub open spec fn residual_fits(stack: MlpExecutor) -> bool {
    stack.res_range matches Some(range) ==> stack.width(range.0 as int) == stack.width(
        range.1 as int,
    )
}

/// What a stack makes of the same rows is the same.
proof fn lemma_same_stages(
    c: Exact,
    stack: MlpExecutor,
    runtime: CudaRuntime,
    x: Seq<Term>,
    y: Seq<Term>,
    rows: nat,
    i: int,
    last: int,
)
    requires
        stack.shaped(),
        linked(stack),
        residual_fits(stack),
        0 <= i <= stack.layers@.len(),
        0 <= last < rows,
        same_rows(c, x, y, stack.width(0) as int, last),
    ensures
        same_rows(
            c,
            stack.stage(runtime, x, rows, i),
            stack.stage(runtime, y, rows, i),
            stack.width(i) as int,
            last,
        ),
    decreases i,
{
    if i > 0 {
        let layer = stack.layers@[i - 1];
        let a = stack.stage(runtime, x, rows, i - 1);
        let b = stack.stage(runtime, y, rows, i - 1);
        lemma_same_stages(c, stack, runtime, x, y, rows, i - 1, last);
        assert(stack.width(i - 1) == layer.weights.rows) by {
            if i > 1 {
                assert(stack.layers@[i - 2].weights.cols == stack.layers@[i - 2
                    + 1].weights.rows);
            }
        }
        if let Some(range) = stack.res_range {
            if range.1 == i {
                lemma_same_stages(c, stack, runtime, x, y, rows, range.0 as int, last);
            }
        }
        let n = layer.weights.cols as int;
        let s = stack.stage(runtime, x, rows, i);
        let t = stack.stage(runtime, y, rows, i);
        assert forall|r: int, k: int| 0 <= r <= last && 0 <= k < n implies c.entry(s, n, r, k)
            == c.entry(t, n, r, k) by {
            law_stacks_compute_layer_by_layer(c, stack, runtime, x, rows, i - 1, r, k);
            law_stacks_compute_layer_by_layer(c, stack, runtime, y, rows, i - 1, r, k);
            lemma_same_weighed(c, layer, runtime, a, b, last, r, k);
            if let Some(range) = stack.res_range {
                if range.1 == i {
                    let p = stack.stage(runtime, x, rows, range.0 as int);
                    let q = stack.stage(runtime, y, rows, range.0 as int);
                    assert(c.entry(p, n, r, k) == c.entry(q, n, r, k));
                }
            }
        }
    }
}

/// A decoder looks back: the output of a row, in every column, depends on the rows of the
/// input up to that one alone. Whatever stands in later rows changes nothing.
pub proof fn law_decoder_blocks_look_back<const HEADS: usize>(
    c: Exact,
    block: InferenceDecoder<HEADS>,
    runtime: CudaRuntime,
    x: Seq<Term>,
    y: Seq<Term>,
    rows: usize,
    row: int,
    col: int,
)
    requires
        exponentials(c),
        block.shaped(),
        block.attention.qkv.layers.query.weights.rows == block.attention.width(),
        block.attention.qkv.layers.key.weights.rows == block.attention.width(),
        block.attention.qkv.layers.value.weights.rows == block.attention.width(),
        linked(block.fcs.executor),
        residual_fits(block.fcs.executor),
        block.fcs.executor.width(0) == block.attention.width(),
        block.fcs.executor.width(block.fcs.executor.layers@.len() as int)
            == block.attention.width(),
        block.output_matrix.weights.rows == block.attention.width(),
        x.len() == rows * block.attention.width(),
        y.len() == rows * block.attention.width(),
        0 <= row < rows,
        0 <= col < block.output_matrix.weights.cols,
        block.attention.width() > 0,
        same_rows(c, x, y, block.attention.width() as int, row),
    ensures
        c.entry(
            block.image(runtime, x, rows),
            block.output_matrix.weights.cols as int,
            row,
            col,
        ) == c.entry(
            block.image(runtime, y, rows),
            block.output_matrix.weights.cols as int,
            row,
            col,
        ),
{
    let n = rows as nat;
    let width = block.attention.width() as int;
    let cols = width as nat;
    let ex = block.fcs.executor;
    let p = block.position_encoding.image(runtime, x);
    let q = block.position_encoding.image(runtime, y);
    assert(p.len() == x.len() && q.len() == y.len());
    lemma_same_positions(
        c,
        block.position_encoding,
        runtime,
        x,
        y,
        rows as int,
        width,
        row,
    );
    let a = block.attention.image(runtime, p, rows, p, rows, true);
    let b = block.attention.image(runtime, q, rows, q, rows, true);
    assert(same_rows(c, a, b, width, row)) by {
        assert forall|r: int, k: int| 0 <= r <= row && 0 <= k < width implies c.entry(
            a,
            width,
            r,
            k,
        ) == c.entry(b, width, r, k) by {
            assert(same_rows(c, p, q, width, r)) by {
                assert forall|s: int, j: int| 0 <= s <= r && 0 <= j < width implies c.entry(
                    p,
                    width,
                    s,
                    j,
                ) == c.entry(q, width, s, j) by {}
            }
            law_decoders_look_back(c, block.attention, runtime, p, q, rows, r, k);
        }
    }
    lemma_same_residuals(c, block.norm_type, p, a, q, b, n, cols, row);
    let m = block.middle(runtime, x, rows);
    let o = block.middle(runtime, y, rows);
    law_residuals_are_added_and_normalised(c, block.norm_type, p, a, n, cols, row);
    law_residuals_are_added_and_normalised(c, block.norm_type, q, b, n, cols, row);
    lemma_same_stages(c, ex, runtime, m, o, n, ex.layers@.len() as int, row);
    let f = ex.stage(runtime, m, n, ex.layers@.len() as int);
    let g = ex.stage(runtime, o, n, ex.layers@.len() as int);
    lemma_same_residuals(c, block.norm_type, m, f, o, g, n, cols, row);
    lemma_same_projections(
        c,
        block.output_matrix,
        runtime,
        block.encoded(runtime, x, rows),
        block.encoded(runtime, y, rows),
        n,
        row,
    );
}

} // verus!
