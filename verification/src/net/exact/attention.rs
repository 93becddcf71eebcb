//! What attention computes, in exact arithmetic.

use vstd::prelude::*;

use super::{law_activations_apply_to_elements, law_affine_terms_are_sums, or_zero};
use crate::cuda::algebra::{apply, row_apply, Term};
use crate::cuda::arith::{lemma_position_in_range, lemma_row_col};
use crate::cuda::exact::{
    law_inner_products_are_sums, lemma_row_apply, lemma_sum_equal, plain, sum, Exact,
};
use crate::cuda::ops::{MapFn, RowFn};
use crate::cuda::runtime::CudaRuntime;
use crate::cuda::scalar::Scalar;
use crate::net::linear::{affine_terms, Linear};
use crate::net::transformer::attention::{
    attended, attention_weights, head_scores, head_values, projected, Attention,
};

verus! {

/// A query times a key, over the columns of one head.
pub open spec fn matched(
    c: Exact,
    query: Seq<Term>,
    key: Seq<Term>,
    heads: nat,
    head_width: nat,
    head: int,
    row: int,
    j: int,
) -> real {
    sum(
        head_width,
        |x: int|
            c.entry(query, (heads * head_width) as int, row, head * head_width + x) * c.entry(
                key,
                (heads * head_width) as int,
                j,
                head * head_width + x,
            ),
    )
}

/// An element of the scores.
pub proof fn lemma_score(
    c: Exact,
    query: Seq<Term>,
    key: Seq<Term>,
    heads: nat,
    rows: nat,
    keys: nat,
    head_width: nat,
    head: int,
    row: int,
    j: int,
)
    requires
        0 <= head < heads,
        0 <= row < rows,
        0 <= j < keys,
    ensures
        head_scores(query, key, heads, rows, keys, head_width).len() == heads * rows * keys,
        0 <= (head * rows + row) * keys + j < heads * rows * keys,
        c.value(
            head_scores(query, key, heads, rows, keys, head_width)[(head * rows + row) * keys + j],
        ) == matched(c, query, key, heads, head_width, head, row, j),
{
    let width = (heads * head_width) as int;
    let at = head * head_width;
    let line = head * rows + row;
    lemma_position_in_range(head, row, heads as int, rows as int);
    lemma_position_in_range(line, j, (heads * rows) as int, keys as int);
    lemma_row_col(line, j, keys as int);
    lemma_row_col(head, row, rows as int);
    let a = Seq::new(head_width, |x: int| query[row * width + at + x]);
    let b = Seq::new(head_width, |x: int| key[j * width + at + x]);
    let scores = head_scores(query, key, heads, rows, keys, head_width);
    assert(scores[line * keys + j] == Term::Dot(a, b)) by {
        let e = line * keys + j;
        assert(e / (keys as int) == line && e % (keys as int) == j);
        assert(line / (rows as int) == head && line % (rows as int) == row);
        assert(scores[e] == Term::Dot(
            Seq::new(
                head_width,
                |x: int|
                    query[((e / (keys as int)) % (rows as int)) * (heads * head_width) + ((e / (
                    keys as int)) / (rows as int)) * head_width + x],
            ),
            Seq::new(
                head_width,
                |x: int|
                    key[(e % (keys as int)) * (heads * head_width) + ((e / (keys as int)) / (
                    rows as int)) * head_width + x],
            ),
        ));
        assert(Seq::new(
            head_width,
            |x: int|
                query[((e / (keys as int)) % (rows as int)) * (heads * head_width) + ((e / (
                keys as int)) / (rows as int)) * head_width + x],
        ) =~= a);
        assert(Seq::new(
            head_width,
            |x: int|
                key[(e % (keys as int)) * (heads * head_width) + ((e / (keys as int)) / (
                rows as int)) * head_width + x],
        ) =~= b);
    }
    law_inner_products_are_sums(c, a, b);
    let f = |x: int| c.value(a[x]) * c.value(b[x]);
    let g = |x: int|
        c.entry(query, (heads * head_width) as int, row, head * head_width + x) * c.entry(
            key,
            (heads * head_width) as int,
            j,
            head * head_width + x,
        );
    assert forall|x: int| 0 <= x < head_width implies #[trigger] f(x) == g(x) by {
        assert(row * width + at + x == row * width + (at + x));
        assert(j * width + at + x == j * width + (at + x));
    }
    lemma_sum_equal(head_width, f, g);
    lemma_sum_equal(head_width, |k: int| c.value(a[k]) * c.value(b[k]), f);
}

/// How much a key counts for a query before the weights are made to add up to one: the
/// exponential of their product, scaled by the root of the head's width. Where later keys are
/// hidden, they do not count.
pub open spec fn regard(
    c: Exact,
    query: Seq<Term>,
    key: Seq<Term>,
    heads: nat,
    head_width: usize,
    masked: bool,
    head: int,
    row: int,
    j: int,
) -> real {
    if masked && j > row {
        0int as real
    } else {
        (c.exp)(
            matched(c, query, key, heads, head_width as nat, head, row, j) * (c.inverse_root)(
                head_width,
            ),
        )
    }
}

/// The weight of a key for a query in a head is its share of what all keys count. A hidden key
/// has no weight, in every head.
#[verifier::spinoff_prover]
#[verifier::rlimit(60)]
pub proof fn law_weights_are_shares(
    c: Exact,
    query: Seq<Term>,
    key: Seq<Term>,
    heads: nat,
    rows: usize,
    keys: nat,
    head_width: usize,
    masked: bool,
    head: int,
    row: int,
    j: int,
)
    requires
        0 <= head < heads,
        0 <= row < rows,
        0 <= j < keys,
    ensures
        attention_weights(query, key, heads, rows, keys, head_width, masked).len() == heads * rows
            * keys,
        c.value(
            attention_weights(query, key, heads, rows, keys, head_width, masked)[(head * rows + row)
                * keys + j],
        ) == regard(c, query, key, heads, head_width, masked, head, row, j) / sum(
            keys,
            |k: int| regard(c, query, key, heads, head_width, masked, head, row, k),
        ),
{
    let line = head * rows + row;
    let lines = heads * (rows as nat);
    let scores = head_scores(query, key, heads, rows as nat, keys, head_width as nat);
    let scale = MapFn::Scale(Scalar::InverseRoot(head_width));
    let scaled = apply(scale, scores);
    let visible = if masked {
        row_apply(RowFn::CausalMask(rows), scaled, keys)
    } else {
        scaled
    };
    lemma_position_in_range(head, row, heads as int, rows as int);
    lemma_score(c, query, key, heads, rows as nat, keys, head_width as nat, head, row, j);
    let seen = Seq::new(keys, |k: int| c.read(visible[line * keys + k]));
    lemma_row_apply(c, RowFn::Softmax, visible, lines, keys, line, j);
    let before = Seq::new(keys, |k: int| c.read(scaled[line * keys + k]));
    let counted = |k: int| regard(c, query, key, heads, head_width, masked, head, row, k);
    let shown = |k: int| c.exponential(seen[k]);
    assert forall|k: int| 0 <= k < keys implies #[trigger] shown(k) == counted(k) by {
        lemma_score(c, query, key, heads, rows as nat, keys, head_width as nat, head, row, k);
        let at = line * keys + k;
        assert(scaled[at] == Term::Apply(scale, Box::new(scores[at])));
        assert(c.read(scaled[at]) == plain(
            matched(c, query, key, heads, head_width as nat, head, row, k) * (c.inverse_root)(
                head_width,
            ),
        ));
        if masked {
            lemma_row_apply(c, RowFn::CausalMask(rows), scaled, lines, keys, line, k);
            lemma_row_col(head, row, rows as int);
            assert(before[k] == c.read(scaled[at]));
        }
    }
    lemma_sum_equal(keys, shown, counted);
    lemma_sum_equal(keys, |k: int| c.exponential(seen[k]), shown);
    lemma_sum_equal(
        keys,
        counted,
        |k: int| regard(c, query, key, heads, head_width, masked, head, row, k),
    );
    assert(shown(j) == counted(j));
    assert(seen =~= Seq::new(keys, |k: int| c.read(visible[line * keys + k])));
}

/// Exponentials are positive.
pub open spec fn exponentials(c: Exact) -> bool {
    forall|x: real| #[trigger] (c.exp)(x) > 0int as real
}

/// A sum of numbers that are not negative, the first of them positive.
proof fn lemma_positive_sum(n: nat, f: spec_fn(int) -> real)
    requires
        n > 0,
        f(0) > 0int as real,
        forall|k: int| 0 <= k < n ==> #[trigger] f(k) >= 0int as real,
    ensures
        sum(n, f) > 0int as real,
    decreases n,
{
    if n > 1 {
        lemma_positive_sum((n - 1) as nat, f);
        assert(f(n - 1) >= 0int as real);
    } else {
        assert(sum(0, f) == 0int as real);
        assert(sum(1, f) == sum(0, f) + f(0));
    }
}

/// What all keys count is positive: the first key is never hidden.
proof fn lemma_regard(
    c: Exact,
    query: Seq<Term>,
    key: Seq<Term>,
    heads: nat,
    keys: nat,
    head_width: usize,
    masked: bool,
    head: int,
    row: int,
)
    requires
        exponentials(c),
        0 <= row,
        keys > 0,
    ensures
        sum(keys, |k: int| regard(c, query, key, heads, head_width, masked, head, row, k))
            > 0int as real,
{
    let f = |k: int| regard(c, query, key, heads, head_width, masked, head, row, k);
    assert(f(0) > 0int as real);
    assert forall|k: int| 0 <= k < keys implies #[trigger] f(k) >= 0int as real by {}
    lemma_positive_sum(keys, f);
}

/// The weights of a query are not negative and add up to one, in every head; a key that comes
/// after the query's row has none where later rows are hidden.
#[verifier::spinoff_prover]
pub proof fn law_weights_are_a_distribution(
    c: Exact,
    query: Seq<Term>,
    key: Seq<Term>,
    heads: nat,
    rows: usize,
    keys: nat,
    head_width: usize,
    masked: bool,
    head: int,
    row: int,
)
    requires
        exponentials(c),
        0 <= head < heads,
        0 <= row < rows,
        keys > 0,
    ensures
        sum(
            keys,
            |j: int|
                c.value(
                    attention_weights(query, key, heads, rows, keys, head_width, masked)[(head
                        * rows + row) * keys + j],
                ),
        ) == 1int as real,
        forall|j: int|
            #![trigger attention_weights(query, key, heads, rows, keys, head_width, masked)[(head
                * rows + row) * keys + j]]
            0 <= j < keys ==> {
                let weight = c.value(
                    attention_weights(query, key, heads, rows, keys, head_width, masked)[(head
                        * rows + row) * keys + j],
                );
                &&& weight >= 0int as real
                &&& masked && j > row ==> weight == 0int as real
            },
{
    let weights = attention_weights(query, key, heads, rows, keys, head_width, masked);
    let line = head * rows + row;
    let f = |k: int| regard(c, query, key, heads, head_width, masked, head, row, k);
    let whole = sum(keys, f);
    lemma_regard(c, query, key, heads, keys, head_width, masked, head, row);
    lemma_sum_equal(
        keys,
        f,
        |k: int| regard(c, query, key, heads, head_width, masked, head, row, k),
    );
    let one = 1int as real;
    let zero = 0int as real;
    let share = one / whole;
    assert(share * whole == one && share > zero) by (nonlinear_arith)
        requires
            share == one / whole,
            whole > zero,
            zero == 0int as real,
            one == 1int as real,
    ;
    let scaled = |k: int| f(k) * share;
    let found = |j: int| c.value(weights[line * keys + j]);
    assert forall|j: int| 0 <= j < keys implies #[trigger] found(j) == scaled(j) && found(j) >= zero
        && (masked && j > row ==> found(j) == zero) by {
        law_weights_are_shares(
            c,
            query,
            key,
            heads,
            rows,
            keys,
            head_width,
            masked,
            head,
            row,
            j,
        );
        let part = f(j);
        super::lemma_quotient(part, whole);
        assert(part >= zero);
        assert(part * share >= zero && (part == zero ==> part * share == zero))
            by (nonlinear_arith)
            requires
                part >= zero,
                share > zero,
                zero == 0int as real,
        ;
    }
    lemma_sum_equal(keys, found, scaled);
    lemma_sum_equal(keys, |j: int| c.value(weights[line * keys + j]), found);
    crate::cuda::exact::lemma_sum_scale(keys, f, share);
    lemma_sum_equal(keys, scaled, |k: int| f(k) * share);
    assert(whole * share == share * whole) by (nonlinear_arith);
    assert forall|j: int| #![trigger weights[line * keys + j]] 0 <= j < keys implies {
        let weight = c.value(weights[line * keys + j]);
        &&& weight >= zero
        &&& masked && j > row ==> weight == zero
    } by {
        assert(found(j) == scaled(j));
    }
}

/// Values weighted by probabilities, each head with its own columns.
pub proof fn law_heads_weigh_their_values(
    c: Exact,
    probabilities: Seq<Term>,
    value: Seq<Term>,
    heads: nat,
    rows: nat,
    keys: nat,
    head_width: nat,
    head: int,
    row: int,
    x: int,
)
    requires
        0 <= head < heads,
        0 <= row < rows,
        0 <= x < head_width,
    ensures
        head_values(probabilities, value, heads, rows, keys, head_width).len() == rows * (heads
            * head_width),
        c.entry(
            head_values(probabilities, value, heads, rows, keys, head_width),
            (heads * head_width) as int,
            row,
            head * head_width + x,
        ) == sum(
            keys,
            |j: int|
                c.value(probabilities[(head * rows + row) * keys + j]) * c.entry(
                    value,
                    (heads * head_width) as int,
                    j,
                    head * head_width + x,
                ),
        ),
{
    let width = (heads * head_width) as int;
    let col = head * head_width + x;
    lemma_position_in_range(head, x, heads as int, head_width as int);
    lemma_position_in_range(row, col, rows as int, width);
    lemma_row_col(row, col, width);
    lemma_row_col(head, x, head_width as int);
    let a = Seq::new(keys, |j: int| probabilities[(head * rows + row) * keys + j]);
    let b = Seq::new(keys, |j: int| value[j * width + col]);
    let all = head_values(probabilities, value, heads, rows, keys, head_width);
    assert(all[row * width + col] == Term::Dot(a, b)) by {
        let e = row * width + col;
        assert(e / width == row && e % width == col && col / (head_width as int) == head);
        assert(Seq::new(
            keys,
            |j: int|
                probabilities[(((e % width) / (head_width as int)) * rows + e / width) * keys + j],
        ) =~= a);
        assert(Seq::new(keys, |j: int| value[j * (heads * head_width) + e % width]) =~= b);
    }
    law_inner_products_are_sums(c, a, b);
    lemma_sum_equal(
        keys,
        |k: int| c.value(a[k]) * c.value(b[k]),
        |j: int|
            c.value(probabilities[(head * rows + row) * keys + j]) * c.entry(
                value,
                (heads * head_width) as int,
                j,
                head * head_width + x,
            ),
    );
}

/// Attention gives, in every column of every head, the mean of the values, each weighted by
/// its key's share for the query.
#[verifier::spinoff_prover]
pub proof fn law_attention_weighs_values(
    c: Exact,
    query: Seq<Term>,
    key: Seq<Term>,
    value: Seq<Term>,
    heads: nat,
    rows: usize,
    keys: nat,
    head_width: usize,
    masked: bool,
    head: int,
    row: int,
    x: int,
)
    requires
        0 <= head < heads,
        0 <= row < rows,
        0 <= x < head_width,
    ensures
        c.entry(
            attended(query, key, value, heads, rows, keys, head_width, masked),
            (heads * head_width) as int,
            row,
            head * head_width + x,
        ) == sum(
            keys,
            |j: int|
                (regard(c, query, key, heads, head_width, masked, head, row, j) / sum(
                    keys,
                    |k: int| regard(c, query, key, heads, head_width, masked, head, row, k),
                )) * c.entry(value, (heads * head_width) as int, j, head * head_width + x),
        ),
{
    let weights = attention_weights(query, key, heads, rows, keys, head_width, masked);
    law_heads_weigh_their_values(
        c,
        weights,
        value,
        heads,
        rows as nat,
        keys,
        head_width as nat,
        head,
        row,
        x,
    );
    let width = (heads * head_width) as int;
    let col = head * head_width + x;
    let f = |j: int| c.value(weights[(head * rows + row) * keys + j]) * c.entry(value, width, j, col);
    let g = |j: int|
        (regard(c, query, key, heads, head_width, masked, head, row, j) / sum(
            keys,
            |k: int| regard(c, query, key, heads, head_width, masked, head, row, k),
        )) * c.entry(value, width, j, col);
    assert forall|j: int| 0 <= j < keys implies #[trigger] f(j) == g(j) by {
        law_weights_are_shares(
            c,
            query,
            key,
            heads,
            rows,
            keys,
            head_width,
            masked,
            head,
            row,
            j,
        );
    }
    lemma_sum_equal(keys, f, g);
    lemma_sum_equal(
        keys,
        |j: int|
            c.value(weights[(head * (rows as nat) + row) * keys + j]) * c.entry(
                value,
                (heads * (head_width as nat)) as int,
                j,
                head * (head_width as nat) + x,
            ),
        f,
    );
    lemma_sum_equal(
        keys,
        g,
        |j: int|
            (regard(c, query, key, heads, head_width, masked, head, row, j) / sum(
                keys,
                |k: int| regard(c, query, key, heads, head_width, masked, head, row, k),
            )) * c.entry(value, (heads * head_width) as int, j, head * head_width + x),
    );
}

/// Two matrices hold the same numbers in their first rows.
pub open spec fn same_rows(c: Exact, a: Seq<Term>, b: Seq<Term>, cols: int, last: int) -> bool {
    forall|r: int, k: int|
        #![trigger c.entry(a, cols, r, k)]
        #![trigger c.entry(b, cols, r, k)]
        0 <= r <= last && 0 <= k < cols ==> c.entry(a, cols, r, k) == c.entry(b, cols, r, k)
}

/// Where later rows are hidden, what attention gives in a row, in all columns of all heads,
/// depends on the rows up to that one alone.
#[verifier::spinoff_prover]
#[verifier::rlimit(60)]
pub proof fn law_masked_attention_looks_back(
    c: Exact,
    query: Seq<Term>,
    key: Seq<Term>,
    value: Seq<Term>,
    other_query: Seq<Term>,
    other_key: Seq<Term>,
    other_value: Seq<Term>,
    heads: nat,
    rows: usize,
    keys: nat,
    head_width: usize,
    head: int,
    row: int,
    x: int,
)
    requires
        exponentials(c),
        0 <= head < heads,
        0 <= row < rows,
        keys > 0,
        0 <= x < head_width,
        same_rows(c, query, other_query, (heads * head_width) as int, row),
        same_rows(c, key, other_key, (heads * head_width) as int, row),
        same_rows(c, value, other_value, (heads * head_width) as int, row),
    ensures
        c.entry(
            attended(query, key, value, heads, rows, keys, head_width, true),
            (heads * head_width) as int,
            row,
            head * head_width + x,
        ) == c.entry(
            attended(other_query, other_key, other_value, heads, rows, keys, head_width, true),
            (heads * head_width) as int,
            row,
            head * head_width + x,
        ),
{
    let width = (heads * head_width) as int;
    let col = head * head_width + x;
    lemma_position_in_range(head, x, heads as int, head_width as int);
    let f = |j: int| regard(c, query, key, heads, head_width, true, head, row, j);
    let g = |j: int| regard(c, other_query, other_key, heads, head_width, true, head, row, j);
    assert forall|j: int| 0 <= j < keys implies #[trigger] f(j) == g(j) by {
        if j <= row {
            lemma_same_matches(
                c,
                query,
                key,
                other_query,
                other_key,
                heads,
                head_width as nat,
                head,
                row,
                j,
            );
        }
    }
    lemma_sum_equal(keys, f, g);
    let whole = sum(keys, f);
    lemma_regard(c, query, key, heads, keys, head_width, true, head, row);
    lemma_sum_equal(
        keys,
        f,
        |k: int| regard(c, query, key, heads, head_width, true, head, row, k),
    );
    lemma_sum_equal(
        keys,
        g,
        |k: int| regard(c, other_query, other_key, heads, head_width, true, head, row, k),
    );
    let p = |j: int|
        (regard(c, query, key, heads, head_width, true, head, row, j) / sum(
            keys,
            |k: int| regard(c, query, key, heads, head_width, true, head, row, k),
        )) * c.entry(value, width, j, col);
    let q = |j: int|
        (regard(c, other_query, other_key, heads, head_width, true, head, row, j) / sum(
            keys,
            |k: int| regard(c, other_query, other_key, heads, head_width, true, head, row, k),
        )) * c.entry(other_value, width, j, col);
    assert forall|j: int| 0 <= j < keys implies #[trigger] p(j) == q(j) by {
        assert(f(j) == g(j));
        let weight = f(j) / whole;
        let a = c.entry(value, width, j, col);
        let b = c.entry(other_value, width, j, col);
        if j > row {
            let zero = 0int as real;
            assert(zero / whole == zero) by (nonlinear_arith)
                requires
                    whole > zero,
                    zero == 0int as real,
            ;
            assert(zero * a == zero && zero * b == zero) by (nonlinear_arith)
                requires
                    zero == 0int as real,
            ;
        } else {
            assert(c.entry(value, width, j, col) == c.entry(other_value, width, j, col));
        }
    }
    lemma_sum_equal(keys, p, q);
    law_attention_weighs_values(
        c,
        query,
        key,
        value,
        heads,
        rows,
        keys,
        head_width,
        true,
        head,
        row,
        x,
    );
    law_attention_weighs_values(
        c,
        other_query,
        other_key,
        other_value,
        heads,
        rows,
        keys,
        head_width,
        true,
        head,
        row,
        x,
    );
    lemma_sum_equal(
        keys,
        |j: int|
            (regard(c, query, key, heads, head_width, true, head, row, j) / sum(
                keys,
                |k: int| regard(c, query, key, heads, head_width, true, head, row, k),
            )) * c.entry(value, (heads * head_width) as int, j, head * head_width + x),
        p,
    );
    lemma_sum_equal(
        keys,
        |j: int|
            (regard(c, other_query, other_key, heads, head_width, true, head, row, j) / sum(
                keys,
                |k: int| regard(c, other_query, other_key, heads, head_width, true, head, row, k),
            )) * c.entry(other_value, (heads * head_width) as int, j, head * head_width + x),
        q,
    );
}

/// Queries and keys of the same numbers match alike.
proof fn lemma_same_matches(
    c: Exact,
    query: Seq<Term>,
    key: Seq<Term>,
    other_query: Seq<Term>,
    other_key: Seq<Term>,
    heads: nat,
    head_width: nat,
    head: int,
    row: int,
    j: int,
)
    requires
        0 <= head < heads,
        0 <= j <= row,
        same_rows(c, query, other_query, (heads * head_width) as int, row),
        same_rows(c, key, other_key, (heads * head_width) as int, row),
    ensures
        matched(c, query, key, heads, head_width, head, row, j) == matched(
            c,
            other_query,
            other_key,
            heads,
            head_width,
            head,
            row,
            j,
        ),
{
    let width = (heads * head_width) as int;
    let f = |x: int|
        c.entry(query, width, row, head * head_width + x) * c.entry(
            key,
            width,
            j,
            head * head_width + x,
        );
    let g = |x: int|
        c.entry(other_query, width, row, head * head_width + x) * c.entry(
            other_key,
            width,
            j,
            head * head_width + x,
        );
    assert forall|x: int| 0 <= x < head_width implies #[trigger] f(x) == g(x) by {
        lemma_position_in_range(head, x, heads as int, head_width as int);
        let col = head * head_width + x;
        assert(c.entry(query, width, row, col) == c.entry(other_query, width, row, col));
        assert(c.entry(key, width, j, col) == c.entry(other_key, width, j, col));
    }
    lemma_sum_equal(head_width, f, g);
    lemma_sum_equal(
        head_width,
        |x: int|
            c.entry(query, (heads * head_width) as int, row, head * head_width + x) * c.entry(
                key,
                (heads * head_width) as int,
                j,
                head * head_width + x,
            ),
        f,
    );
    lemma_sum_equal(
        head_width,
        |x: int|
            c.entry(other_query, (heads * head_width) as int, row, head * head_width + x) * c.entry(
                other_key,
                (heads * head_width) as int,
                j,
                head * head_width + x,
            ),
        g,
    );
}

/// A projection of a row depends on that row alone: it is the layer's sum of the row's numbers
/// times the weights, with the bias, activated.
pub proof fn law_projections_are_affine_and_activated(
    c: Exact,
    layer: Linear,
    runtime: CudaRuntime,
    x: Seq<Term>,
    rows: nat,
    row: int,
    col: int,
)
    requires
        0 <= row < rows,
        0 <= col < layer.weights.cols,
    ensures
        projected(layer, runtime, x, rows).len() == rows * layer.weights.cols,
        c.entry(projected(layer, runtime, x, rows), layer.weights.cols as int, row, col)
            == c.activation(
            layer.activation,
            sum(
                layer.weights.rows as nat,
                |k: int|
                    c.entry(x, layer.weights.rows as int, row, k) * c.entry(
                        runtime.matrix(layer.weights),
                        layer.weights.cols as int,
                        k,
                        col,
                    ),
            ) + (match layer.bias {
                Some(b) => c.value(runtime.vector(b)[col]),
                None => 0int as real,
            }),
        ),
{
    let inner = layer.weights.rows as nat;
    let cols = layer.weights.cols as nat;
    let w = runtime.matrix(layer.weights);
    let bias = layer.bias_terms(runtime);
    law_affine_terms_are_sums(c, x, w, bias, None, rows, inner, cols, row, col);
    lemma_position_in_range(row, col, rows as int, cols as int);
    law_activations_apply_to_elements(
        c,
        layer.activation,
        affine_terms(x, w, bias, None, rows, inner, cols),
        row * cols + col,
    );
    lemma_sum_equal(
        inner,
        |k: int| c.entry(x, inner as int, row, k) * c.entry(w, cols as int, k, col),
        |k: int|
            c.entry(x, layer.weights.rows as int, row, k) * c.entry(
                runtime.matrix(layer.weights),
                layer.weights.cols as int,
                k,
                col,
            ),
    );
    assert(or_zero(c, None, row * cols + col) == 0int as real);
}

/// Projections of the same rows are the same.
pub proof fn lemma_same_projections(
    c: Exact,
    layer: Linear,
    runtime: CudaRuntime,
    x: Seq<Term>,
    y: Seq<Term>,
    rows: nat,
    last: int,
)
    requires
        0 <= last < rows,
        same_rows(c, x, y, layer.weights.rows as int, last),
    ensures
        same_rows(
            c,
            projected(layer, runtime, x, rows),
            projected(layer, runtime, y, rows),
            layer.weights.cols as int,
            last,
        ),
{
    let a = projected(layer, runtime, x, rows);
    let b = projected(layer, runtime, y, rows);
    let inner = layer.weights.rows as int;
    let cols = layer.weights.cols as int;
    let w = runtime.matrix(layer.weights);
    assert forall|r: int, k: int|
        0 <= r <= last && 0 <= k < cols implies c.entry(a, cols, r, k) == c.entry(b, cols, r, k) by {
        law_projections_are_affine_and_activated(c, layer, runtime, x, rows, r, k);
        law_projections_are_affine_and_activated(c, layer, runtime, y, rows, r, k);
        let f = |i: int| c.entry(x, inner, r, i) * c.entry(w, cols, i, k);
        let g = |i: int| c.entry(y, inner, r, i) * c.entry(w, cols, i, k);
        assert forall|i: int| 0 <= i < inner implies #[trigger] f(i) == g(i) by {
            assert(c.entry(x, inner, r, i) == c.entry(y, inner, r, i));
        }
        lemma_sum_equal(inner as nat, f, g);
        lemma_sum_equal(
            inner as nat,
            |i: int|
                c.entry(x, layer.weights.rows as int, r, i) * c.entry(
                    runtime.matrix(layer.weights),
                    layer.weights.cols as int,
                    i,
                    k,
                ),
            f,
        );
        lemma_sum_equal(
            inner as nat,
            |i: int|
                c.entry(y, layer.weights.rows as int, r, i) * c.entry(
                    runtime.matrix(layer.weights),
                    layer.weights.cols as int,
                    i,
                    k,
                ),
            g,
        );
    }
}

/// The whole of masked attention looks back: its output in a row, in every column, depends on
/// the rows of its input up to that one alone.
pub proof fn law_decoders_look_back<const HEADS: usize>(
    c: Exact,
    attention: Attention<HEADS>,
    runtime: CudaRuntime,
    x: Seq<Term>,
    y: Seq<Term>,
    rows: usize,
    row: int,
    col: int,
)
    requires
        exponentials(c),
        attention.shaped(),
        attention.qkv.layers.key.weights.rows == attention.qkv.layers.query.weights.rows,
        attention.qkv.layers.value.weights.rows == attention.qkv.layers.query.weights.rows,
        0 <= row < rows,
        0 <= col < attention.width(),
        same_rows(c, x, y, attention.qkv.layers.query.weights.rows as int, row),
    ensures
        c.entry(
            attention.image(runtime, x, rows, x, rows, true),
            attention.width() as int,
            row,
            col,
        ) == c.entry(
            attention.image(runtime, y, rows, y, rows, true),
            attention.width() as int,
            row,
            col,
        ),
{
    let l = attention.qkv.layers;
    let n = rows as nat;
    lemma_same_projections(c, l.query, runtime, x, y, n, row);
    lemma_same_projections(c, l.key, runtime, x, y, n, row);
    lemma_same_projections(c, l.value, runtime, x, y, n, row);
    let head_width = attention.width() / HEADS;
    let width = attention.width() as int;
    vstd::arithmetic::div_mod::lemma_fundamental_div_mod(width, HEADS as int);
    assert(HEADS * head_width == width) by (nonlinear_arith)
        requires
            width == HEADS * (width / (HEADS as int)) + width % (HEADS as int),
            width % (HEADS as int) == 0,
            head_width as int == width / (HEADS as int),
    ;
    crate::cuda::arith::lemma_position(col, HEADS as int, head_width as int);
    law_masked_attention_looks_back(
        c,
        projected(l.query, runtime, x, n),
        projected(l.key, runtime, x, n),
        projected(l.value, runtime, x, n),
        projected(l.query, runtime, y, n),
        projected(l.key, runtime, y, n),
        projected(l.value, runtime, y, n),
        HEADS as nat,
        rows,
        n,
        head_width,
        col / (head_width as int),
        row,
        col % (head_width as int),
    );
}

} // verus!
