//! What attention makes of its inputs and what a training pass keeps, in exact arithmetic.

use vstd::prelude::*;

use super::attention::{law_attention_weighs_values, law_weights_are_shares, regard};
use super::blocks::{
    added_numbers, law_positions_are_added, law_residuals_are_added_and_normalised,
    normalised, position_number, row_numbers,
};
use super::gradients::place;
use crate::cuda::algebra::Term;
use crate::cuda::arith::lemma_position_in_range;
use crate::cuda::exact::{lemma_sum_equal, sum, Exact};
use crate::cuda::meaning::Reading;
use crate::cuda::runtime::CudaRuntime;
use crate::net::transformer::attention::{projected, Attention};
use crate::net::transformer::training::TrainingTransformer;

verus! {

/// Attention weighs the projected values by how the projected queries match the projected
/// keys. Queries come from the one input, keys and values from the other, each through its
/// own layer.
pub proof fn law_attention_projects_its_inputs<const HEADS: usize>(
    c: Exact,
    attention: Attention<HEADS>,
    runtime: CudaRuntime,
    queries: Seq<Term>,
    rows: usize,
    keys_values: Seq<Term>,
    keys: usize,
    masked: bool,
    head: int,
    row: int,
    x: int,
)
    requires
        0 <= head < HEADS,
        0 <= row < rows,
        0 <= x < attention.qkv.layers.query.weights.cols / HEADS,
    ensures
        ({
            let l = attention.qkv.layers;
            let head_width = l.query.weights.cols / HEADS;
            let width = HEADS * head_width;
            let col = head * head_width + x;
            let q = projected(l.query, runtime, queries, rows as nat);
            let k = projected(l.key, runtime, keys_values, keys as nat);
            let v = projected(l.value, runtime, keys_values, keys as nat);
            c.entry(
                attention.image(runtime, queries, rows, keys_values, keys, masked),
                width,
                row,
                col,
            ) == sum(
                keys as nat,
                |j: int|
                    (regard(c, q, k, HEADS as nat, head_width, masked, head, row, j) / sum(
                        keys as nat,
                        |i: int| regard(c, q, k, HEADS as nat, head_width, masked, head, row, i),
                    )) * c.entry(v, width, j, col),
            )
        }),
{
    let l = attention.qkv.layers;
    let head_width = l.query.weights.cols / HEADS;
    let width = HEADS * head_width;
    let col = head * head_width + x;
    let q = projected(l.query, runtime, queries, rows as nat);
    let k = projected(l.key, runtime, keys_values, keys as nat);
    let v = projected(l.value, runtime, keys_values, keys as nat);
    law_attention_weighs_values(
        c,
        q,
        k,
        v,
        HEADS as nat,
        rows,
        keys as nat,
        head_width,
        masked,
        head,
        row,
        x,
    );
    let total = sum(
        keys as nat,
        |i: int| regard(c, q, k, HEADS as nat, head_width, masked, head, row, i),
    );
    let f = |j: int|
        (regard(c, q, k, HEADS as nat, head_width, masked, head, row, j) / total) * c.entry(
            v,
            width,
            j,
            col,
        );
    lemma_sum_equal(
        keys as nat,
        |j: int|
            (regard(c, q, k, HEADS as nat, head_width, masked, head, row, j) / sum(
                keys as nat,
                |i: int| regard(c, q, k, HEADS as nat, head_width, masked, head, row, i),
            )) * c.entry(v, (HEADS as nat * head_width) as int, j, head * head_width + x),
        f,
    );
    lemma_sum_equal(
        keys as nat,
        f,
        |j: int|
            (regard(c, q, k, HEADS as nat, head_width, masked, head, row, j) / sum(
                keys as nat,
                |i: int| regard(c, q, k, HEADS as nat, head_width, masked, head, row, i),
            )) * c.entry(v, width, j, col),
    );
}

/// What a forward pass keeps for the backward pass: the encoded input, the weights of
/// attention, what each normalisation was given, and the rows that went into the output layer.
pub proof fn law_passes_keep_what_gradients_need<const HEADS: usize, const MASKED: bool>(
    c: Exact,
    start: TrainingTransformer<HEADS, MASKED>,
    end: TrainingTransformer<HEADS, MASKED>,
    before: CudaRuntime,
    after: CudaRuntime,
    x: Seq<Term>,
    rows: usize,
    row: int,
    col: int,
)
    requires
        end.remembers(start, before, after, x, rows),
        start.sound(before),
        end.first.attention.state->0.input.rows == rows,
        x.len() == rows * start.width(),
        0 <= row < rows,
        0 <= col < start.width(),
    ensures
        ({
            let width = start.width() as int;
            let ex = start.second.fcs.executor;
            let state = end.first.attention.state->0;
            let p = after.matrix(state.input);
            let a = start.first.attention.attention.image(before, p, rows, p, rows, MASKED);
            let m = start.first.image(before, p, rows, MASKED);
            let f = ex.stage(before, m, rows as nat, ex.layers@.len() as int);
            let first = after.matrix(end.first.normalization.cache->0.matrix());
            let second = after.matrix(end.second.normalization.cache->0.matrix());
            let encoded = after.matrix(end.cache->0.encoded);
            &&& c.entry(p, width, row, col) == c.entry(x, width, row, col) + position_number(
                c,
                start.position_encoding,
                before,
                row * width + col,
            )
            &&& c.entry(first, width, row, col) == c.entry(p, width, row, col) + c.entry(
                a,
                width,
                row,
                col,
            )
            &&& normalised(
                c,
                start.norm_type,
                width as nat,
                added_numbers(c, p, a, width, row),
                row_numbers(c, m, width, row),
            )
            &&& c.entry(second, width, row, col) == c.entry(m, width, row, col) + c.entry(
                f,
                width,
                row,
                col,
            )
            &&& normalised(
                c,
                start.norm_type,
                width as nat,
                added_numbers(c, m, f, width, row),
                row_numbers(c, encoded, width, row),
            )
        }),
{
    let width = start.width() as int;
    let ex = start.second.fcs.executor;
    let state = end.first.attention.state->0;
    let p = after.matrix(state.input);
    let a = start.first.attention.attention.image(before, p, rows, p, rows, MASKED);
    let m = start.first.image(before, p, rows, MASKED);
    let f = ex.stage(before, m, rows as nat, ex.layers@.len() as int);
    lemma_position_in_range(row, col, rows as int, width);
    law_positions_are_added(c, start.position_encoding, before, x, row * width + col);
    law_residuals_are_added_and_normalised(
        c,
        start.norm_type,
        p,
        a,
        rows as nat,
        width as nat,
        row,
    );
    law_residuals_are_added_and_normalised(
        c,
        start.norm_type,
        m,
        f,
        rows as nat,
        width as nat,
        row,
    );
    reveal_with_fuel(Reading::read, 2);
}

/// The weights that a forward pass keeps are those of the queries and keys that it keeps.
pub proof fn law_passes_keep_their_weights<const HEADS: usize, const MASKED: bool>(
    c: Exact,
    start: TrainingTransformer<HEADS, MASKED>,
    end: TrainingTransformer<HEADS, MASKED>,
    before: CudaRuntime,
    after: CudaRuntime,
    x: Seq<Term>,
    rows: usize,
    head: int,
    row: int,
    j: int,
)
    requires
        end.remembers(start, before, after, x, rows),
        end.first.attention.state->0.input.rows == rows,
        0 <= head < HEADS,
        0 <= row < rows,
        0 <= j < rows,
    ensures
        ({
            let state = end.first.attention.state->0;
            let head_width = start.width() / HEADS;
            let q = after.matrix(state.query);
            let k = after.matrix(state.key);
            c.value(after.matrix(state.probabilities)[place(rows as nat, head, row, j)]) == regard(
                c,
                q,
                k,
                HEADS as nat,
                head_width,
                MASKED,
                head,
                row,
                j,
            ) / sum(
                rows as nat,
                |i: int| regard(c, q, k, HEADS as nat, head_width, MASKED, head, row, i),
            )
        }),
{
    let state = end.first.attention.state->0;
    let head_width = start.width() / HEADS;
    let q = after.matrix(state.query);
    let k = after.matrix(state.key);
    law_weights_are_shares(
        c,
        q,
        k,
        HEADS as nat,
        rows,
        rows as nat,
        head_width,
        MASKED,
        head,
        row,
        j,
    );
    lemma_sum_equal(
        rows as nat,
        |i: int| regard(c, q, k, HEADS as nat, head_width, MASKED, head, row, i),
        |i: int|
            regard(
                c,
                after.matrix(state.query),
                after.matrix(state.key),
                HEADS as nat,
                start.width() / HEADS,
                MASKED,
                head,
                row,
                i,
            ),
    );
}

} // verus!
