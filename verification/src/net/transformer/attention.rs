//! Scaled dot-product attention with several heads.

pub mod training;

use vstd::prelude::*;

use crate::cuda::algebra::{apply, row_apply, transpose, Term};
use crate::cuda::arith::{ceil_div, lemma_position, lemma_position_in_range, lemma_row_col};
use crate::cuda::command::{Command, MatrixBatchDescriptor, Stream};
use crate::cuda::container::matrix::{multiply_blocks, shapeable};
use crate::cuda::container::norm::softmax_fn;
use crate::cuda::container::Matrix;
use crate::cuda::ops::{MapFn, RowFn};
use crate::cuda::order::{
    beside, calm, directs, lemma_join, lemma_push_wait, orderly, primary, Lane,
};
use crate::cuda::runtime::{lemma_works_beside, CudaRuntime, DEFAULT_BLOCK_SIZE};
use crate::cuda::scalar::Scalar;
use crate::cuda::span::batch_end;
use crate::net::linear::{
    activated, affine_terms, lemma_read_out_append, lemma_took_append, loaded, took, Linear,
    LinearMetadata,
};
use crate::net::metadata::{HostDataCursor, HostRead, MetadataCursor};
use crate::net::node::{SingleNode, SingleType};

verus! {

broadcast use {crate::cuda::runtime::group_streams, crate::cuda::elementwise::lemma_launched};

/// The inner products of every query with every key, head by head: a stack of
/// `heads` matrices of `rows x keys`.
pub open spec fn head_scores(
    query: Seq<Term>,
    key: Seq<Term>,
    heads: nat,
    rows: nat,
    keys: nat,
    head_width: nat,
) -> Seq<Term> {
    let width = heads * head_width;
    Seq::new(
        heads * rows * keys,
        |e: int|
            {
                let row = e / (keys as int);
                let at = (row / (rows as int)) * head_width;
                Term::Dot(
                    Seq::new(head_width, |x: int| query[(row % (rows as int)) * width + at + x]),
                    Seq::new(head_width, |x: int| key[(e % (keys as int)) * width + at + x]),
                )
            },
    )
}

/// The values weighted by a stack of probabilities, heads side by side.
pub open spec fn head_values(
    probabilities: Seq<Term>,
    value: Seq<Term>,
    heads: nat,
    rows: nat,
    keys: nat,
    head_width: nat,
) -> Seq<Term> {
    let width = heads * head_width;
    Seq::new(
        rows * width,
        |e: int|
            {
                let row = e / (width as int);
                let col = e % (width as int);
                let head = col / (head_width as int);
                Term::Dot(
                    Seq::new(keys, |j: int| probabilities[(head * rows + row) * keys + j]),
                    Seq::new(keys, |j: int| value[j * width + col]),
                )
            },
    )
}

/// The probabilities that attention weighs values with.
pub open spec fn attention_weights(
    query: Seq<Term>,
    key: Seq<Term>,
    heads: nat,
    rows: usize,
    keys: nat,
    head_width: usize,
    masked: bool,
) -> Seq<Term> {
    let scaled = apply(
        MapFn::Scale(Scalar::InverseRoot(head_width)),
        head_scores(query, key, heads, rows as nat, keys, head_width as nat),
    );
    let visible = if masked {
        row_apply(RowFn::CausalMask(rows), scaled, keys)
    } else {
        scaled
    };
    row_apply(softmax_fn(), visible, keys)
}

/// What attention makes of queries, keys and values.
pub open spec fn attended(
    query: Seq<Term>,
    key: Seq<Term>,
    value: Seq<Term>,
    heads: nat,
    rows: usize,
    keys: nat,
    head_width: usize,
    masked: bool,
) -> Seq<Term> {
    head_values(
        attention_weights(query, key, heads, rows, keys, head_width, masked),
        value,
        heads,
        rows as nat,
        keys,
        head_width as nat,
    )
}

/// Shapes that attention accepts.
pub open spec fn attendable(heads: int, rows: int, keys: int, head_width: int, masked: bool) -> bool {
    &&& heads > 0 && rows > 0 && keys > 0 && head_width > 0
    &&& rows % 16 == 0 && keys % 16 == 0 && head_width % 16 == 0
    &&& rows <= heads * rows <= u32::MAX
    &&& ceil_div(keys, 32) <= u32::MAX && ceil_div(heads * head_width, 32) <= u32::MAX
    &&& shapeable(heads * rows, keys)
    &&& shapeable(rows, heads * head_width)
    &&& heads * multiply_blocks(rows, keys) <= u32::MAX
    &&& heads * multiply_blocks(rows, head_width) <= u32::MAX
    &&& masked ==> keys == rows && rows <= DEFAULT_BLOCK_SIZE
}

/// A stack of `batches` row-major matrices, one after the other.
pub open spec fn stacked(d: MatrixBatchDescriptor) -> bool {
    &&& d.offset == 0
    &&& d.row_stride == d.cols
    &&& d.batch_stride == d.rows * d.cols
    &&& d.rows > 0 && d.cols > 0
}

/// `batches` matrices side by side in one row-major matrix.
pub open spec fn sliced(d: MatrixBatchDescriptor) -> bool {
    &&& d.offset == 0
    &&& d.row_stride == d.batches * d.cols
    &&& d.batch_stride == d.cols
    &&& d.cols > 0 && d.batches > 0
}

/// Where the elements of a stack stand.
pub proof fn lemma_stacked(d: MatrixBatchDescriptor)
    requires
        stacked(d),
    ensures
        d.disjoint(),
        forall|b: int, r: int, c: int|
            #![trigger d.at(b, r, c)]
            d.contains(b, r, c) ==> d.at(b, r, c) == (b * d.rows + r) * d.cols + c && d.at(b, r, c)
                / (d.cols as int) == b * d.rows + r && d.at(b, r, c) % (d.cols as int) == c && (b
                * d.rows + r) / (d.rows as int) == b && (b * d.rows + r) % (d.rows as int) == r,
{
    assert forall|b: int, r: int, c: int| #![trigger d.at(b, r, c)] d.contains(b, r, c) implies d.at(
        b,
        r,
        c,
    ) == (b * d.rows + r) * d.cols + c && d.at(b, r, c) / (d.cols as int) == b * d.rows + r
        && d.at(b, r, c) % (d.cols as int) == c && (b * d.rows + r) / (d.rows as int) == b && (b
        * d.rows + r) % (d.rows as int) == r by {
        let rows = d.rows as int;
        let cols = d.cols as int;
        let stride = d.batch_stride as int;
        assert(b * stride + r * cols + c == (b * rows + r) * cols + c) by (nonlinear_arith)
            requires
                stride == rows * cols,
        ;
        lemma_row_col(b * rows + r, c, cols);
        lemma_row_col(b, r, rows);
    }
}

/// Where the elements of matrices side by side stand.
pub proof fn lemma_sliced(d: MatrixBatchDescriptor)
    requires
        sliced(d),
    ensures
        d.disjoint(),
        forall|b: int, r: int, c: int|
            #![trigger d.at(b, r, c)]
            d.contains(b, r, c) ==> d.at(b, r, c) == r * d.row_stride + (b * d.cols + c) && d.at(
                b,
                r,
                c,
            ) / (d.row_stride as int) == r && d.at(b, r, c) % (d.row_stride as int) == b * d.cols
                + c && (b * d.cols + c) / (d.cols as int) == b && (b * d.cols + c) % (d.cols as int)
                == c,
{
    assert forall|b: int, r: int, c: int| #![trigger d.at(b, r, c)] d.contains(b, r, c) implies d.at(
        b,
        r,
        c,
    ) == r * d.row_stride + (b * d.cols + c) && d.at(b, r, c) / (d.row_stride as int) == r && d.at(
        b,
        r,
        c,
    ) % (d.row_stride as int) == b * d.cols + c && (b * d.cols + c) / (d.cols as int) == b && (b
        * d.cols + c) % (d.cols as int) == c by {
        lemma_position_in_range(b, c, d.batches as int, d.cols as int);
        lemma_row_col(r, b * d.cols + c, d.row_stride as int);
        lemma_row_col(b, c, d.cols as int);
    }
}

/// Sizes that fit the device, spelled out.
proof fn lemma_attendable(heads: int, rows: int, keys: int, head_width: int, masked: bool)
    requires
        attendable(heads, rows, keys, head_width, masked),
    ensures
        head_width <= heads * head_width,
        rows <= heads * rows,
        0 < rows * keys <= heads * rows * keys,
        heads * (rows * keys) == heads * rows * keys,
        0 < head_width * keys <= heads * head_width * keys,
        heads * (head_width * keys) == heads * head_width * keys,
{
    assert(head_width <= heads * head_width) by (nonlinear_arith)
        requires
            heads >= 1,
            head_width > 0,
    ;
    assert(rows <= heads * rows) by (nonlinear_arith)
        requires
            heads >= 1,
            rows > 0,
    ;
    assert(0 < rows * keys <= heads * rows * keys && heads * (rows * keys) == heads * rows * keys)
        by (nonlinear_arith)
        requires
            heads >= 1,
            rows > 0,
            keys > 0,
    ;
    assert(0 < head_width * keys <= heads * head_width * keys && heads * (head_width * keys) == heads
        * head_width * keys) by (nonlinear_arith)
        requires
            heads >= 1,
            head_width > 0,
            keys > 0,
    ;
}

/// The end of a stack is its length.
proof fn lemma_stacked_end(batches: int, rows: int, cols: int)
    ensures
        batch_end(0, rows, cols, cols, rows * cols, batches) == batches * rows * cols,
{
    assert((batches - 1) * (rows * cols) + (rows - 1) * cols + cols == batches * rows * cols)
        by (nonlinear_arith);
}

/// The end of matrices side by side is the length of all.
proof fn lemma_sliced_end(batches: int, rows: int, cols: int)
    ensures
        batch_end(0, rows, cols, batches * cols, cols, batches) == rows * (batches * cols),
{
    assert((batches - 1) * cols + (rows - 1) * (batches * cols) + cols == rows * (batches * cols))
        by (nonlinear_arith);
}

/// Multiplies every query by every key, head by head. The keys come
/// transposed.
#[verifier::rlimit(60)]
fn multiply_heads(
    query: &Matrix,
    key_t: &Matrix,
    heads: usize,
    runtime: &mut CudaRuntime,
    Ghost(k): Ghost<Seq<Term>>,
    Ghost(masked): Ghost<bool>,
) -> (r: Matrix)
    requires
        old(runtime).wf(),
        old(runtime).holds(*query),
        old(runtime).holds(*key_t),
        heads > 0,
        query.cols % heads == 0,
        key_t.rows == query.cols,
        old(runtime).matrix(*key_t) == transpose(k, key_t.cols as nat, key_t.rows as nat),
        attendable(
            heads as int,
            query.rows as int,
            key_t.cols as int,
            (query.cols / heads) as int,
            masked,
        ),
    ensures
        final(runtime).grown(*old(runtime), r.buffer.id, None),
        final(runtime).holds(r),
        r.rows == heads * query.rows,
        r.cols == key_t.cols,
        final(runtime).matrix(r) == head_scores(
            old(runtime).matrix(*query),
            k,
            heads as nat,
            query.rows as nat,
            key_t.cols as nat,
            (query.cols / heads) as nat,
        ),
        final(runtime).confined(
            *old(runtime),
            set![query.buffer.id, key_t.buffer.id],
            set![r.buffer.id],
        ),
{
    let ghost before = *runtime;
    let query_width: usize = query.cols;
    let head_width: usize = query_width / heads;
    let query_rows: usize = query.rows;
    let key_rows: usize = key_t.cols;
    let ghost h = heads as int;
    let ghost rows = query_rows as int;
    let ghost keys = key_rows as int;
    let ghost hw = head_width as int;
    let ghost width = query_width as int;
    proof {
        vstd::arithmetic::div_mod::lemma_fundamental_div_mod(width, h);
        assert(h * hw == width);
        lemma_attendable(h, rows, keys, hw, masked);
        before.lemma_whole(query.buffer);
        before.lemma_whole(key_t.buffer);
        assert(h * hw * keys == width * keys);
    }
    let mut scores = runtime.new_uninit_matrix(heads * query_rows, key_rows);
    let ghost s1 = *runtime;
    proof {
        assert(s1.grown(before, scores.buffer.id, None));
        assert(s1.buffers@[query.buffer.id as int] == query.buffer.len);
        assert(s1.buffers@[key_t.buffer.id as int] == key_t.buffer.len);
        lemma_sliced_end(h, rows, hw);
        lemma_stacked_end(h, hw, keys);
        lemma_stacked_end(h, rows, keys);
        assert(scores.buffer.len == h * rows * keys);
        s1.lemma_whole(scores.buffer);
    }
    let ghost id = scores.buffer.id;
    let lhs = query.batch_span(0, query_rows, head_width, query_width, head_width, heads);
    let rhs = key_t.batch_span(0, head_width, key_rows, key_rows, head_width * key_rows, heads);
    let ghost a = lhs.descriptor;
    let ghost b = rhs.descriptor;
    let target = scores.batch_span_mut(
        0,
        query_rows,
        key_rows,
        key_rows,
        query_rows * key_rows,
        heads,
    );
    let ghost t = target.descriptor;
    runtime.matrix_multiply_batched_strided_into(lhs, rhs, target, None);
    proof {
        lemma_stacked(t);
        let q = before.matrix(*query);
        let expected = head_scores(q, k, h as nat, rows as nat, keys as nat, hw as nat);
        let got = runtime.mem(id);
        assert(runtime.buffers@[id as int] == s1.buffers@[id as int]);
        assert(got.len() == h * rows * keys);
        assert forall|e: int| 0 <= e < got.len() implies got[e] == expected[e] by {
            lemma_position(e, h * rows, keys);
            let row = e / keys;
            let c = e % keys;
            lemma_position(row, h, rows);
            let head = row / rows;
            let r = row % rows;
            assert(t.contains(head, r, c));
            assert(t.at(head, r, c) == (head * rows + r) * keys + c);
            assert(t.at(head, r, c) == e);
            assert(got[e] == s1.device@.batch_dot(a, b, head, r, c));
            lemma_head_products(q, k, s1, a, b, h, rows, keys, hw, head, r, c);
        }
        assert(got =~= expected);
        assert(runtime.live@ =~= before.live@.insert(id));
        assert(runtime.keeps(before, Set::empty()));
        let read = set![query.buffer.id, key_t.buffer.id];
        s1.lemma_confined_wider(before, Set::empty(), set![id], read, set![id]);
        assert(runtime.confined(s1, read, set![id]));
    }
    scores
}

/// An inner product of a query and a key of one head.
proof fn lemma_head_products(
    q: Seq<Term>,
    k: Seq<Term>,
    s: CudaRuntime,
    a: MatrixBatchDescriptor,
    b: MatrixBatchDescriptor,
    heads: int,
    rows: int,
    keys: int,
    hw: int,
    head: int,
    r: int,
    c: int,
)
    requires
        0 <= head < heads,
        0 <= r < rows,
        0 <= c < keys,
        hw > 0,
        a.offset == 0 && a.row_stride == heads * hw && a.batch_stride == hw && a.cols == hw,
        b.offset == 0 && b.row_stride == keys && b.batch_stride == hw * keys,
        s.mem(a.buffer) == q,
        s.mem(b.buffer) == transpose(k, keys as nat, (heads * hw) as nat),
    ensures
        s.device@.batch_dot(a, b, head, r, c) == Term::Dot(
            Seq::new(hw as nat, |x: int| q[r * (heads * hw) + head * hw + x]),
            Seq::new(hw as nat, |x: int| k[c * (heads * hw) + head * hw + x]),
        ),
{
    let d = s.device@;
    let width = heads * hw;
    let left = Seq::new(a.cols as nat, |x: int| d.element(a, head, r, x));
    let right = Seq::new(a.cols as nat, |x: int| d.element(b, head, x, c));
    let l = Seq::new(hw as nat, |x: int| q[r * (heads * hw) + head * hw + x]);
    let g = Seq::new(hw as nat, |x: int| k[c * (heads * hw) + head * hw + x]);
    assert forall|x: int| 0 <= x < hw implies left[x] == l[x] by {
        assert(a.at(head, r, x) == r * width + head * hw + x);
    }
    assert forall|x: int| 0 <= x < hw implies right[x] == g[x] by {
        let row = head * hw + x;
        lemma_position_in_range(head, x, heads, hw);
        assert(head * (hw * keys) + x * keys == row * keys) by (nonlinear_arith)
            requires
                row == head * hw + x,
        ;
        assert(b.at(head, x, c) == row * keys + c);
        lemma_row_col(row, c, keys);
        lemma_position_in_range(row, c, width, keys);
    }
    assert(left =~= l);
    assert(right =~= g);
}

/// Weighs the values with a stack of probabilities.
#[verifier::rlimit(60)]
fn weigh_heads(
    probabilities: &Matrix,
    value: &Matrix,
    heads: usize,
    runtime: &mut CudaRuntime,
    Ghost(masked): Ghost<bool>,
) -> (r: Matrix)
    requires
        old(runtime).wf(),
        old(runtime).holds(*probabilities),
        old(runtime).holds(*value),
        heads > 0,
        probabilities.rows % heads == 0,
        value.cols % heads == 0,
        probabilities.cols == value.rows,
        attendable(
            heads as int,
            (probabilities.rows / heads) as int,
            value.rows as int,
            (value.cols / heads) as int,
            masked,
        ),
    ensures
        final(runtime).grown(*old(runtime), r.buffer.id, None),
        final(runtime).holds(r),
        r.rows == probabilities.rows / heads,
        r.cols == value.cols,
        final(runtime).matrix(r) == head_values(
            old(runtime).matrix(*probabilities),
            old(runtime).matrix(*value),
            heads as nat,
            (probabilities.rows / heads) as nat,
            value.rows as nat,
            (value.cols / heads) as nat,
        ),
{
    let ghost before = *runtime;
    let query_rows: usize = probabilities.rows / heads;
    let key_rows: usize = probabilities.cols;
    let width: usize = value.cols;
    let head_width: usize = width / heads;
    let ghost h = heads as int;
    let ghost rows = query_rows as int;
    let ghost keys = key_rows as int;
    let ghost hw = head_width as int;
    let ghost w = width as int;
    proof {
        vstd::arithmetic::div_mod::lemma_fundamental_div_mod(w, h);
        vstd::arithmetic::div_mod::lemma_fundamental_div_mod(probabilities.rows as int, h);
        assert(h * hw == w && h * rows == probabilities.rows);
        lemma_attendable(h, rows, keys, hw, masked);
    }
    let mut attention = runtime.new_uninit_matrix(query_rows, width);
    let ghost s1 = *runtime;
    proof {
        assert(s1.grown(before, attention.buffer.id, None));
        assert(s1.buffers@[probabilities.buffer.id as int] == probabilities.buffer.len);
        assert(s1.buffers@[value.buffer.id as int] == value.buffer.len);
        s1.lemma_whole(attention.buffer);
        lemma_stacked_end(h, rows, keys);
        lemma_sliced_end(h, keys, hw);
        lemma_sliced_end(h, rows, hw);
        assert(probabilities.buffer.len == h * rows * keys);
        assert(value.buffer.len == keys * (h * hw));
        assert(attention.buffer.len == rows * (h * hw));
    }
    let ghost id = attention.buffer.id;
    let lhs = probabilities.batch_span(
        0,
        query_rows,
        key_rows,
        key_rows,
        query_rows * key_rows,
        heads,
    );
    let rhs = value.batch_span(0, key_rows, head_width, width, head_width, heads);
    let ghost a = lhs.descriptor;
    let ghost b = rhs.descriptor;
    let target = attention.batch_span_mut(0, query_rows, head_width, width, head_width, heads);
    let ghost t = target.descriptor;
    runtime.matrix_multiply_batched_strided_into(lhs, rhs, target, None);
    proof {
        lemma_sliced(t);
        let p = before.matrix(*probabilities);
        let v = before.matrix(*value);
        let expected = head_values(p, v, h as nat, rows as nat, keys as nat, hw as nat);
        let got = runtime.mem(id);
        assert(runtime.buffers@[id as int] == s1.buffers@[id as int]);
        assert(got.len() == rows * w);
        assert forall|e: int| 0 <= e < got.len() implies got[e] == expected[e] by {
            lemma_position(e, rows, w);
            let r = e / w;
            let col = e % w;
            lemma_position(col, h, hw);
            let head = col / hw;
            let c = col % hw;
            assert(t.contains(head, r, c));
            assert(t.at(head, r, c) == r * w + (head * hw + c));
            assert(t.at(head, r, c) == e);
            assert(got[e] == s1.device@.batch_dot(a, b, head, r, c));
            lemma_head_weights(p, v, s1, a, b, h, rows, keys, hw, head, r, c);
        }
        assert(got =~= expected);
        assert(runtime.live@ =~= before.live@.insert(id));
        assert(runtime.keeps(before, Set::empty()));
    }
    attention
}

/// A weighted value of one head.
proof fn lemma_head_weights(
    p: Seq<Term>,
    v: Seq<Term>,
    s: CudaRuntime,
    a: MatrixBatchDescriptor,
    b: MatrixBatchDescriptor,
    heads: int,
    rows: int,
    keys: int,
    hw: int,
    head: int,
    r: int,
    c: int,
)
    requires
        0 <= head < heads,
        0 <= r < rows,
        0 <= c < hw,
        keys > 0,
        a.offset == 0 && a.row_stride == keys && a.batch_stride == rows * keys && a.cols == keys,
        b.offset == 0 && b.row_stride == heads * hw && b.batch_stride == hw,
        s.mem(a.buffer) == p,
        s.mem(b.buffer) == v,
    ensures
        s.device@.batch_dot(a, b, head, r, c) == Term::Dot(
            Seq::new(keys as nat, |j: int| p[(head * rows + r) * keys + j]),
            Seq::new(keys as nat, |j: int| v[j * (heads * hw) + (head * hw + c)]),
        ),
{
    let d = s.device@;
    let left = Seq::new(a.cols as nat, |x: int| d.element(a, head, r, x));
    let right = Seq::new(a.cols as nat, |x: int| d.element(b, head, x, c));
    let l = Seq::new(keys as nat, |j: int| p[(head * rows + r) * keys + j]);
    let g = Seq::new(keys as nat, |j: int| v[j * (heads * hw) + (head * hw + c)]);
    assert forall|x: int| 0 <= x < keys implies left[x] == l[x] by {
        assert(head * (rows * keys) + r * keys == (head * rows + r) * keys) by (nonlinear_arith);
        assert(a.at(head, r, x) == (head * rows + r) * keys + x);
    }
    assert forall|x: int| 0 <= x < keys implies right[x] == g[x] by {
        assert(b.at(head, x, c) == x * (heads * hw) + (head * hw + c));
    }
    assert(left =~= l);
    assert(right =~= g);
}

/// What attention assigns to queries, keys and values.
pub struct Qkv<T> {
    pub query: T,
    pub key: T,
    pub value: T,
}

/// The projections of attention, each on a stream of its own.
pub struct QkvProjector {
    pub layers: Qkv<Linear>,
    pub streams: Option<Vec<Stream>>,
}

/// A layer's value for an input of this many rows.
pub open spec fn projected(layer: Linear, runtime: CudaRuntime, x: Seq<Term>, rows: nat) -> Seq<Term> {
    activated(
        layer.activation,
        affine_terms(
            x,
            runtime.matrix(layer.weights),
            layer.bias_terms(runtime),
            None,
            rows,
            layer.weights.rows as nat,
            layer.weights.cols as nat,
        ),
    )
}

/// The commands that let streams go on from what the primary stream has done.
pub open spec fn forks(streams: Seq<Stream>) -> Seq<Command> {
    Seq::new(
        streams.len(),
        |i: int| Command::Wait { stream: streams[i], on: Stream { id: 0 } },
    )
}

/// The commands that let the primary stream go on from what streams have done.
pub open spec fn joins(streams: Seq<Stream>) -> Seq<Command> {
    Seq::new(
        streams.len(),
        |i: int| Command::Wait { stream: Stream { id: 0 }, on: streams[i] },
    )
}

/// The lanes of three streams, of which two are closed before the third.
pub open spec fn three_lanes(lanes: Seq<Lane>, streams: Seq<Stream>) -> bool {
    &&& lanes.len() == 3
    &&& lanes[0].stream == streams[0]
    &&& lanes[1].stream == streams[1]
    &&& lanes[2].stream == streams[2]
}

/// Whether a lane keeps to buffers that are alive, without these two.
pub open spec fn spares(lane: Lane, live: Set<usize>, one: usize, other: usize) -> bool {
    &&& lane.read.subset_of(live)
    &&& lane.written.subset_of(live)
    &&& !lane.read.contains(one) && !lane.written.contains(one)
    &&& !lane.read.contains(other) && !lane.written.contains(other)
}

/// The buffers that work beside a lane may read.
pub open spec fn readable(lane: Lane) -> Set<usize> {
    Set::new(|id: usize| !lane.written.contains(id))
}

/// The buffers that work beside a lane may write.
pub open spec fn writable(lane: Lane) -> Set<usize> {
    Set::new(|id: usize| !lane.written.contains(id) && !lane.read.contains(id))
}

/// Once the primary stream waits for two streams, the lane of the third is left.
proof fn lemma_two_joined(before: Seq<Command>, after: Seq<Command>, streams: Seq<Stream>, lanes: Seq<Lane>)
    requires
        calm(before, lanes),
        streams.len() == 3,
        three_lanes(lanes, streams),
        after == before + joins(streams.take(2)),
    ensures
        calm(after, seq![lanes[2]]),
{
    let left = seq![lanes[1], lanes[2]];
    assert(left[0] == lanes[1] && left[1] == lanes[2]);
    lemma_join(before, streams[0], lanes, left);
    let last = seq![lanes[2]];
    assert(last[0] == lanes[2]);
    let middle = before.push(Command::Wait { stream: primary(), on: streams[0] });
    lemma_join(middle, streams[1], left, last);
    assert(after =~= middle.push(Command::Wait { stream: primary(), on: streams[1] }));
}

/// Once it waits for the third, none is left.
proof fn lemma_last_joined(before: Seq<Command>, after: Seq<Command>, streams: Seq<Stream>, lane: Lane)
    requires
        calm(before, seq![lane]),
        streams.len() == 3,
        lane.stream == streams[2],
        after == before + joins(streams.skip(2)),
    ensures
        orderly(after),
{
    reveal(orderly);
    lemma_join(before, streams[2], seq![lane], Seq::empty());
    assert(after =~= before.push(Command::Wait { stream: primary(), on: streams[2] }));
}

/// Waiting alone leaves everything in order.
proof fn lemma_only_waits(before: Seq<Command>, more: Seq<Command>, lanes: Seq<Lane>)
    requires
        calm(before, lanes),
        forall|i: int| 0 <= i < more.len() ==> directs(#[trigger] more[i]),
    ensures
        calm(before + more, lanes),
    decreases more.len(),
{
    if more.len() > 0 {
        let fewer = more.drop_last();
        lemma_only_waits(before, fewer, lanes);
        lemma_push_wait(before + fewer, more.last(), lanes);
        assert((before + fewer).push(more.last()) =~= before + more);
    } else {
        assert(before + more =~= before);
    }
}

impl QkvProjector {
    /// The work of the three projections, each on its own stream.
    pub open spec fn lanes(
        self,
        streams: Seq<Stream>,
        query_input: Matrix,
        key_value_input: Matrix,
        made: Qkv<Matrix>,
    ) -> Seq<Lane> {
        seq![
            Lane {
                stream: streams[0],
                read: self.layers.query.uses(query_input, None),
                written: set![made.query.buffer.id],
            },
            Lane {
                stream: streams[1],
                read: self.layers.key.uses(key_value_input, None),
                written: set![made.key.buffer.id],
            },
            Lane {
                stream: streams[2],
                read: self.layers.value.uses(key_value_input, None),
                written: set![made.value.buffer.id],
            },
        ]
    }

    /// The layers are alive and share no buffer; streams come in threes.
    pub open spec fn wf(self, runtime: CudaRuntime) -> bool {
        &&& self.layers.query.wf(runtime)
        &&& self.layers.key.wf(runtime)
        &&& self.layers.value.wf(runtime)
        &&& self.separate()
        &&& self.streams_wf()
    }

    pub open spec fn streams_wf(self) -> bool {
        self.streams matches Some(streams) ==> streams@.len() == 3
    }

    /// No two layers share a buffer.
    pub open spec fn separate(self) -> bool {
        forall|id: usize|
            #![trigger self.layers.query.owns(id)]
            #![trigger self.layers.key.owns(id)]
            #![trigger self.layers.value.owns(id)]
            !(self.layers.query.owns(id) && self.layers.key.owns(id)) && !(
            self.layers.query.owns(id) && self.layers.value.owns(id)) && !(self.layers.key.owns(id)
                && self.layers.value.owns(id))
    }

    /// Whether a buffer belongs to the projector.
    pub open spec fn owns(self, id: usize) -> bool {
        self.layers.query.owns(id) || self.layers.key.owns(id) || self.layers.value.owns(id)
    }

    /// The parameters in checkpoint order.
    pub open spec fn parameters(self, runtime: CudaRuntime) -> Seq<Seq<Term>> {
        self.layers.query.parameters(runtime) + self.layers.key.parameters(runtime)
            + self.layers.value.parameters(runtime)
    }

    /// How many parameters there are.
    pub open spec fn parameter_count(self) -> nat {
        self.layers.query.parameter_sizes().len() + self.layers.key.parameter_sizes().len()
            + self.layers.value.parameter_sizes().len()
    }

    /// The sizes of the parameters in checkpoint order.
    pub open spec fn parameter_sizes(self) -> Seq<usize> {
        self.layers.query.parameter_sizes() + self.layers.key.parameter_sizes()
            + self.layers.value.parameter_sizes()
    }

    /// Bytes of all parameters.
    pub open spec fn byte_len(self) -> int {
        self.layers.query.byte_len() + self.layers.key.byte_len() + self.layers.value.byte_len()
    }

    /// The parameters stay while the buffers do.
    pub proof fn lemma_kept(self, before: CudaRuntime, after: CudaRuntime)
        requires
            forall|id: usize| #[trigger] self.owns(id) ==> after.mem(id) == before.mem(id),
        ensures
            self.parameters(after) == self.parameters(before),
    {
        let l = self.layers;
        assert forall|id: usize| #[trigger] l.query.owns(id) implies after.mem(id) == before.mem(id) by {
            assert(self.owns(id));
        }
        assert forall|id: usize| #[trigger] l.key.owns(id) implies after.mem(id) == before.mem(id) by {
            assert(self.owns(id));
        }
        assert forall|id: usize| #[trigger] l.value.owns(id) implies after.mem(id) == before.mem(id) by {
            assert(self.owns(id));
        }
        l.query.lemma_parameters_kept(before, after);
        l.key.lemma_parameters_kept(before, after);
        l.value.lemma_parameters_kept(before, after);
    }

    pub fn new(query: Linear, key: Linear, value: Linear, streams: Option<Vec<Stream>>) -> (r:
        QkvProjector)
        requires
            streams matches Some(streams) ==> streams@.len() == 3,
        ensures
            r.layers == (Qkv { query, key, value }),
            r.streams == streams,
            r.streams_wf(),
    {
        QkvProjector { layers: Qkv { query, key, value }, streams }
    }

    /// Reserves the places of the layers in a checkpoint.
    pub fn get_meta_data(&self, cursor: &mut MetadataCursor) -> (r: Qkv<LinearMetadata>)
        requires
            self.layers.query.weights.rows * self.layers.query.weights.cols <= usize::MAX,
            self.layers.key.weights.rows * self.layers.key.weights.cols <= usize::MAX,
            self.layers.value.weights.rows * self.layers.value.weights.cols <= usize::MAX,
            old(cursor).position + self.byte_len() <= u64::MAX,
        ensures
            r.query.describes(self.layers.query, old(cursor).position as int),
            r.key.describes(
                self.layers.key,
                old(cursor).position + self.layers.query.byte_len(),
            ),
            r.value.describes(
                self.layers.value,
                old(cursor).position + self.layers.query.byte_len() + self.layers.key.byte_len(),
            ),
            final(cursor).position == old(cursor).position + self.byte_len(),
    {
        proof {
            self.layers.query.lemma_byte_len();
            self.layers.key.lemma_byte_len();
            self.layers.value.lemma_byte_len();
        }
        let query = self.layers.query.get_meta_data(cursor);
        let key = self.layers.key.get_meta_data(cursor);
        let value = self.layers.value.get_meta_data(cursor);
        Qkv { query, key, value }
    }

    /// Brings all parameters to the host in checkpoint order.
    pub fn get_data(&self, runtime: &mut CudaRuntime) -> (r: Vec<HostRead>)
        requires
            old(runtime).wf(),
            self.wf(*old(runtime)),
        ensures
            final(runtime).read_out(*old(runtime), r@, self.parameters(*old(runtime))),
    {
        let ghost before = *runtime;
        let mut data = self.layers.query.get_data(runtime);
        let ghost s1 = *runtime;
        let ghost r1 = data@;
        proof {
            self.layers.key.lemma_wf_kept(before, s1);
            self.layers.key.lemma_parameters_kept(before, s1);
        }
        let mut next = self.layers.key.get_data(runtime);
        let ghost s2 = *runtime;
        proof {
            lemma_read_out_append(
                before,
                s1,
                s2,
                r1,
                next@,
                self.layers.query.parameters(before),
                self.layers.key.parameters(before),
            );
            self.layers.value.lemma_wf_kept(before, s2);
            self.layers.value.lemma_parameters_kept(before, s2);
        }
        let ghost r2 = r1 + next@;
        data.append(&mut next);
        let mut next = self.layers.value.get_data(runtime);
        proof {
            assert(data@ =~= r2);
            lemma_read_out_append(
                before,
                s2,
                *runtime,
                r2,
                next@,
                self.layers.query.parameters(before) + self.layers.key.parameters(before),
                self.layers.value.parameters(before),
            );
        }
        let ghost r3 = r2 + next@;
        data.append(&mut next);
        assert(data@ =~= r3);
        data
    }

    /// Whether a source goes on with values for all parameters.
    pub open spec fn fits(self, source: HostDataCursor) -> bool {
        &&& source.wf()
        &&& source.data@.len() >= self.parameter_count()
        &&& forall|k: int|
            0 <= k < self.parameter_count() ==> (#[trigger] source.data@[k]).values@.len()
                == self.parameter_sizes()[k]
    }

    /// Replaces all parameters by the next ones of a source.
    pub fn set_data(&mut self, data: &mut HostDataCursor, runtime: &mut CudaRuntime)
        requires
            old(runtime).wf(),
            old(self).wf(*old(runtime)),
            old(self).fits(*old(data)),
        ensures
            *final(self) == *old(self),
            took(
                *old(runtime),
                *final(runtime),
                *old(data),
                *final(data),
                old(self).parameter_count(),
                |id: usize| old(self).owns(id),
            ),
            old(self).parameters(*final(runtime)) == loaded(
                old(data).data@,
                old(self).parameter_count(),
            ),
    {
        let ghost before = *runtime;
        let ghost start = *self;
        let ghost source = *data;
        let ghost q = self.layers.query;
        let ghost k = self.layers.key;
        let ghost v = self.layers.value;
        let ghost qn = q.parameter_sizes().len();
        let ghost kn = k.parameter_sizes().len();
        let ghost vn = v.parameter_sizes().len();
        let ghost all = |id: usize| start.owns(id);
        proof {
            assert forall|i: int| 0 <= i < qn implies (#[trigger] source.data@[i]).values@.len()
                == q.parameter_sizes()[i] by {
                assert(start.parameter_sizes()[i] == q.parameter_sizes()[i]);
            }
        }
        self.layers.query.set_data(data, runtime);
        let ghost s1 = *runtime;
        let ghost d1 = *data;
        proof {
            q.lemma_restored(before, s1, source, d1);
            assert forall|id: usize| #[trigger] k.owns(id) implies s1.live@.contains(id) by {
                assert(before.live@.contains(id));
            }
            k.lemma_wf_kept(before, s1);
            assert forall|i: int| 0 <= i < kn implies (#[trigger] d1.data@[i]).values@.len()
                == k.parameter_sizes()[i] by {
                assert(d1.data@[i] == source.data@[qn + i]);
                assert(start.parameter_sizes()[qn + i] == k.parameter_sizes()[i]);
            }
        }
        self.layers.key.set_data(data, runtime);
        let ghost s2 = *runtime;
        let ghost d2 = *data;
        proof {
            k.lemma_restored(s1, s2, d1, d2);
            lemma_took_append(
                before,
                s1,
                s2,
                source,
                d1,
                d2,
                qn,
                kn,
                |id: usize| q.owns(id),
                |id: usize| k.owns(id),
                all,
            );
            assert forall|id: usize| #[trigger] v.owns(id) implies s2.live@.contains(id) by {
                assert(before.live@.contains(id));
            }
            v.lemma_wf_kept(before, s2);
            assert forall|i: int| 0 <= i < vn implies (#[trigger] d2.data@[i]).values@.len()
                == v.parameter_sizes()[i] by {
                assert(d2.data@[i] == source.data@[qn + kn + i]);
                assert(start.parameter_sizes()[qn + kn + i] == v.parameter_sizes()[i]);
            }
        }
        self.layers.value.set_data(data, runtime);
        proof {
            v.lemma_restored(s2, *runtime, d2, *data);
            lemma_took_append(
                before,
                s2,
                *runtime,
                source,
                d2,
                *data,
                qn + kn,
                vn,
                all,
                |id: usize| v.owns(id),
                all,
            );
            assert forall|id: usize| #[trigger] q.owns(id) implies s2.mem(id) == s1.mem(id)
                && runtime.mem(id) == s1.mem(id) by {
                assert(before.live@.contains(id));
                assert(!k.owns(id) && !v.owns(id));
                assert(s2.mem(id) == s1.mem(id));
                assert(runtime.mem(id) == s2.mem(id));
            }
            q.lemma_parameters_kept(s1, *runtime);
            assert forall|id: usize| #[trigger] k.owns(id) implies runtime.mem(id) == s2.mem(id) by {
                assert(before.live@.contains(id));
                assert(!v.owns(id));
            }
            k.lemma_parameters_kept(s2, *runtime);
        }
    }

    /// Inputs that the projections accept.
    pub open spec fn accepts(self, runtime: CudaRuntime, query_input: Matrix, key_value_input: Matrix) -> bool {
        &&& self.layers.query.accepts(runtime, query_input)
        &&& self.layers.key.accepts(runtime, key_value_input)
        &&& self.layers.value.accepts(runtime, key_value_input)
    }

    /// Projects query and key/value inputs independently. Passing the same
    /// matrix for both is self-attention; passing different matrices is
    /// cross-attention.
    #[verifier::rlimit(40)]
    pub fn project(
        &mut self,
        query_input: &Matrix,
        key_value_input: &Matrix,
        runtime: &mut CudaRuntime,
    ) -> (r: Qkv<Matrix>)
        requires
            old(runtime).wf(),
            old(self).wf(*old(runtime)),
            old(self).accepts(*old(runtime), *query_input, *key_value_input),
        ensures
            final(self).layers == old(self).layers,
            final(self).streams is Some,
            final(self).streams_wf(),
            old(self).streams is Some ==> final(self).streams == old(self).streams,
            old(self).streams matches Some(streams) ==> final(runtime).issued@.take(
                (old(runtime).issued@.len() + 3) as int,
            ) == old(runtime).issued@ + forks(streams@),
            final(runtime).swapped(
                *old(runtime),
                Set::empty(),
                set![r.query.buffer.id, r.key.buffer.id, r.value.buffer.id],
            ),
            orderly(old(runtime).issued@) ==> calm(
                final(runtime).issued@,
                old(self).lanes(final(self).streams->0@, *query_input, *key_value_input, r),
            ),
            r.query.buffer.id != r.key.buffer.id,
            r.query.buffer.id != r.value.buffer.id,
            r.key.buffer.id != r.value.buffer.id,
            final(runtime).holds(r.query),
            final(runtime).holds(r.key),
            final(runtime).holds(r.value),
            r.query.rows == query_input.rows,
            r.query.cols == old(self).layers.query.weights.cols,
            r.key.rows == key_value_input.rows,
            r.key.cols == old(self).layers.key.weights.cols,
            r.value.rows == key_value_input.rows,
            r.value.cols == old(self).layers.value.weights.cols,
            final(runtime).matrix(r.query) == projected(
                old(self).layers.query,
                *old(runtime),
                old(runtime).matrix(*query_input),
                query_input.rows as nat,
            ),
            final(runtime).matrix(r.key) == projected(
                old(self).layers.key,
                *old(runtime),
                old(runtime).matrix(*key_value_input),
                key_value_input.rows as nat,
            ),
            final(runtime).matrix(r.value) == projected(
                old(self).layers.value,
                *old(runtime),
                old(runtime).matrix(*key_value_input),
                key_value_input.rows as nat,
            ),
    {
        let ghost before = *runtime;
        let ghost start = *self;
        let (first, second, third): (Stream, Stream, Stream) = match &self.streams {
            Some(streams) => {
                runtime.fork_streams(streams);
                (streams[0], streams[1], streams[2])
            },
            None => {
                let made = runtime.create_extra_streams(3);
                let three = (made[0], made[1], made[2]);
                self.streams = Some(made);
                three
            },
        };
        let ghost s0 = *runtime;
        proof {
            lemma_still_projects(start, before, s0, *query_input, *key_value_input);
        }
        let query = self.layers.query.forward(query_input, None, runtime, Some(first));
        let ghost s1 = *runtime;
        proof {
            lemma_still_projects(start, s0, s1, *query_input, *key_value_input);
        }
        let key = self.layers.key.forward(key_value_input, None, runtime, Some(second));
        let ghost s2 = *runtime;
        proof {
            lemma_still_projects(start, s1, s2, *query_input, *key_value_input);
        }
        let value = self.layers.value.forward(key_value_input, None, runtime, Some(third));
        proof {
            let streams = self.streams->0@;
            let made = Qkv { query, key, value };
            if orderly(before.issued@) {
                assert(s0.issued@.take(before.issued@.len() as int) =~= before.issued@);
                lemma_projections(
                    start,
                    streams,
                    *query_input,
                    *key_value_input,
                    made,
                    before,
                    s0,
                    s1,
                    s2,
                    *runtime,
                );
            }
            lemma_issued_kept(s0, s1, first);
            lemma_issued_kept(s1, s2, second);
            lemma_issued_kept(s2, *runtime, third);
            let n = s0.issued@.len() as int;
            assert(runtime.issued@.take(n) =~= runtime.issued@.take(
                s2.issued@.len() as int,
            ).take(s1.issued@.len() as int).take(n));
            if start.streams is Some {
                assert(n == before.issued@.len() + 3);
                assert(s0.issued@ =~= before.issued@ + forks(start.streams->0@));
            }
            assert(runtime.buffers@[query.buffer.id as int] == query.buffer.len);
            assert(runtime.buffers@[key.buffer.id as int] == key.buffer.len);
            assert(runtime.matrix(query) == s1.matrix(query));
            assert(runtime.matrix(key) == s2.matrix(key));
            assert(runtime.live@ =~= before.live@.difference(Set::empty()).union(
                set![query.buffer.id, key.buffer.id, value.buffer.id],
            ));
            assert(runtime.keeps(before, Set::empty()));
        }
        Qkv { query, key, value }
    }

    /// Lets the primary stream go on once queries and keys are there.
    pub fn wait_for_query_key(&self, runtime: &mut CudaRuntime)
        requires
            old(runtime).wf(),
            self.streams is Some,
            self.streams_wf(),
        ensures
            final(runtime).untouched(*old(runtime)),
            final(runtime).issued@ == old(runtime).issued@ + joins(
                self.streams->0@.take(2),
            ),
    {
        if let Some(streams) = &self.streams {
            let mut two: Vec<Stream> = Vec::new();
            two.push(streams[0]);
            two.push(streams[1]);
            assert(two@ =~= streams@.take(2));
            runtime.join_streams(&two);
        }
    }

    /// Lets the primary stream go on once the values are there.
    pub fn wait_for_value(&self, runtime: &mut CudaRuntime)
        requires
            old(runtime).wf(),
            self.streams is Some,
            self.streams_wf(),
        ensures
            final(runtime).untouched(*old(runtime)),
            final(runtime).issued@ == old(runtime).issued@ + joins(
                self.streams->0@.skip(2),
            ),
    {
        if let Some(streams) = &self.streams {
            let mut one: Vec<Stream> = Vec::new();
            one.push(streams[2]);
            assert(one@ =~= streams@.skip(2));
            runtime.join_streams(&one);
        }
    }
}

/// Three projections on three streams are three lanes.
proof fn lemma_projections(
    projector: QkvProjector,
    streams: Seq<Stream>,
    query_input: Matrix,
    key_value_input: Matrix,
    made: Qkv<Matrix>,
    before: CudaRuntime,
    forked: CudaRuntime,
    queried: CudaRuntime,
    keyed: CudaRuntime,
    after: CudaRuntime,
)
    requires
        orderly(before.issued@),
        forked.issued@.len() == before.issued@.len() + 3,
        forked.issued@.take(before.issued@.len() as int) == before.issued@,
        forall|i: int|
            before.issued@.len() <= i < forked.issued@.len() ==> directs(
                #[trigger] forked.issued@[i],
            ),
        queried.ran_on(forked, streams[0]),
        keyed.ran_on(queried, streams[1]),
        after.ran_on(keyed, streams[2]),
        queried.confined(
            forked,
            projector.layers.query.uses(query_input, None),
            set![made.query.buffer.id],
        ),
        keyed.confined(
            queried,
            projector.layers.key.uses(key_value_input, None),
            set![made.key.buffer.id],
        ),
        after.confined(
            keyed,
            projector.layers.value.uses(key_value_input, None),
            set![made.value.buffer.id],
        ),
        before.wf(),
        projector.wf(before),
        projector.accepts(before, query_input, key_value_input),
        !before.live@.contains(made.query.buffer.id),
        !before.live@.contains(made.key.buffer.id),
        !before.live@.contains(made.value.buffer.id),
        made.query.buffer.id != made.key.buffer.id,
        made.query.buffer.id != made.value.buffer.id,
        made.key.buffer.id != made.value.buffer.id,
    ensures
        calm(after.issued@, projector.lanes(streams, query_input, key_value_input, made)),
{
    let lanes = projector.lanes(streams, query_input, key_value_input, made);
    let n = before.issued@.len() as int;
    let more = forked.issued@.skip(n);
    assert(before.issued@ + more =~= forked.issued@);
    reveal(orderly);
    lemma_only_waits(before.issued@, more, Seq::empty());
    let none = Seq::<Lane>::empty();
    let one = none.push(lanes[0]);
    let two = one.push(lanes[1]);
    lemma_works_beside(forked, queried, streams[0], none, lanes[0].read, lanes[0].written);
    assert(beside(lanes[1].read, lanes[1].written, lanes[0]));
    lemma_works_beside(queried, keyed, streams[1], one, lanes[1].read, lanes[1].written);
    assert(beside(lanes[2].read, lanes[2].written, lanes[0]));
    assert(beside(lanes[2].read, lanes[2].written, lanes[1]));
    lemma_works_beside(keyed, after, streams[2], two, lanes[2].read, lanes[2].written);
    assert(two.push(lanes[2]) =~= lanes);
}

/// What was issued stays issued.
proof fn lemma_issued_kept(before: CudaRuntime, after: CudaRuntime, s: Stream)
    requires
        after.ran_on(before, s),
    ensures
        before.issued@.len() <= after.issued@.len(),
        after.issued@.take(before.issued@.len() as int) == before.issued@,
{
    reveal(CudaRuntime::ran_on);
}

/// Projections go on as before while live buffers and their contents stay.
proof fn lemma_still_projects(
    projector: QkvProjector,
    before: CudaRuntime,
    after: CudaRuntime,
    query_input: Matrix,
    key_value_input: Matrix,
)
    requires
        before.wf(),
        projector.wf(before),
        projector.accepts(before, query_input, key_value_input),
        after.keeps(before, Set::empty()),
        forall|id: usize|
            #![trigger after.live@.contains(id)]
            before.live@.contains(id) ==> after.live@.contains(id),
    ensures
        projector.wf(after),
        projector.accepts(after, query_input, key_value_input),
        projected(
            projector.layers.query,
            after,
            after.matrix(query_input),
            query_input.rows as nat,
        ) == projected(
            projector.layers.query,
            before,
            before.matrix(query_input),
            query_input.rows as nat,
        ),
        projected(
            projector.layers.key,
            after,
            after.matrix(key_value_input),
            key_value_input.rows as nat,
        ) == projected(
            projector.layers.key,
            before,
            before.matrix(key_value_input),
            key_value_input.rows as nat,
        ),
        projected(
            projector.layers.value,
            after,
            after.matrix(key_value_input),
            key_value_input.rows as nat,
        ) == projected(
            projector.layers.value,
            before,
            before.matrix(key_value_input),
            key_value_input.rows as nat,
        ),
{
    let l = projector.layers;
    l.query.lemma_wf_kept(before, after);
    l.key.lemma_wf_kept(before, after);
    l.value.lemma_wf_kept(before, after);
    assert(after.buffers@[query_input.buffer.id as int] == query_input.buffer.len);
    assert(after.buffers@[key_value_input.buffer.id as int] == key_value_input.buffer.len);
}

/// Attention with a fixed number of heads.
pub struct Attention<const HEADS: usize> {
    pub qkv: QkvProjector,
}

impl<const HEADS: usize> Attention<HEADS> {
    /// The widths of the projections agree and divide into heads.
    pub open spec fn shaped(self) -> bool {
        let width = self.qkv.layers.query.weights.cols;
        &&& HEADS > 0
        &&& width % HEADS == 0
        &&& self.qkv.layers.key.weights.cols == width
        &&& self.qkv.layers.value.weights.cols == width
    }

    pub open spec fn wf(self, runtime: CudaRuntime) -> bool {
        self.shaped() && self.qkv.wf(runtime)
    }

    /// The width of the output.
    pub open spec fn width(self) -> usize {
        self.qkv.layers.query.weights.cols
    }

    /// Inputs that attention accepts.
    pub open spec fn accepts(
        self,
        runtime: CudaRuntime,
        query_input: Matrix,
        key_value_input: Matrix,
        masked: bool,
    ) -> bool {
        &&& self.qkv.accepts(runtime, query_input, key_value_input)
        &&& attendable(
            HEADS as int,
            query_input.rows as int,
            key_value_input.rows as int,
            (self.width() / HEADS) as int,
            masked,
        )
    }

    /// What attention makes of its inputs.
    pub open spec fn image(
        self,
        runtime: CudaRuntime,
        queries: Seq<Term>,
        rows: usize,
        keys_values: Seq<Term>,
        keys: usize,
        masked: bool,
    ) -> Seq<Term> {
        attended(
            projected(self.qkv.layers.query, runtime, queries, rows as nat),
            projected(self.qkv.layers.key, runtime, keys_values, keys as nat),
            projected(self.qkv.layers.value, runtime, keys_values, keys as nat),
            HEADS as nat,
            rows,
            keys as nat,
            self.width() / HEADS,
            masked,
        )
    }

    pub fn new(query: Linear, key: Linear, value: Linear, streams: Option<Vec<Stream>>) -> (r: Self)
        requires
            HEADS > 0,
            query.weights.cols % HEADS == 0,
            key.weights.cols == query.weights.cols,
            value.weights.cols == query.weights.cols,
            streams matches Some(streams) ==> streams@.len() == 3,
        ensures
            r.qkv.layers == (Qkv { query, key, value }),
            r.qkv.streams == streams,
            r.shaped(),
    {
        Attention { qkv: QkvProjector::new(query, key, value, streams) }
    }

    /// Runs attention without retaining backward state. The query input is also
    /// the residual source; the key/value input may differ for cross-attention.
    pub fn forward(
        &mut self,
        query_input: &Matrix,
        key_value_input: &Matrix,
        runtime: &mut CudaRuntime,
    ) -> (r: Matrix)
        requires
            old(runtime).wf(),
            old(self).wf(*old(runtime)),
            old(self).accepts(*old(runtime), *query_input, *key_value_input, false),
        ensures
            final(self).qkv.layers == old(self).qkv.layers,
            final(self).qkv.streams is Some,
            final(self).qkv.streams_wf(),
            old(self).qkv.streams is Some ==> final(self).qkv.streams == old(
                self,
            ).qkv.streams,
            final(runtime).replaced(*old(runtime), Set::empty(), set![r.buffer.id]),
            final(runtime).holds(r),
            r.rows == query_input.rows,
            r.cols == old(self).width(),
            final(runtime).matrix(r) == old(self).image(
                *old(runtime),
                old(runtime).matrix(*query_input),
                query_input.rows,
                old(runtime).matrix(*key_value_input),
                key_value_input.rows,
                false,
            ),
    {
        self.attend(query_input, key_value_input, false, runtime)
    }

    /// The same, where no query sees a key after its own position.
    pub fn forward_mask(
        &mut self,
        query_input: &Matrix,
        key_value_input: &Matrix,
        runtime: &mut CudaRuntime,
    ) -> (r: Matrix)
        requires
            old(runtime).wf(),
            old(self).wf(*old(runtime)),
            old(self).accepts(*old(runtime), *query_input, *key_value_input, true),
        ensures
            final(self).qkv.layers == old(self).qkv.layers,
            final(self).qkv.streams is Some,
            final(self).qkv.streams_wf(),
            old(self).qkv.streams is Some ==> final(self).qkv.streams == old(
                self,
            ).qkv.streams,
            final(runtime).replaced(*old(runtime), Set::empty(), set![r.buffer.id]),
            final(runtime).holds(r),
            r.rows == query_input.rows,
            r.cols == old(self).width(),
            final(runtime).matrix(r) == old(self).image(
                *old(runtime),
                old(runtime).matrix(*query_input),
                query_input.rows,
                old(runtime).matrix(*key_value_input),
                key_value_input.rows,
                true,
            ),
    {
        self.attend(query_input, key_value_input, true, runtime)
    }

    fn attend(
        &mut self,
        query_input: &Matrix,
        key_value_input: &Matrix,
        masked: bool,
        runtime: &mut CudaRuntime,
    ) -> (r: Matrix)
        requires
            old(runtime).wf(),
            old(self).wf(*old(runtime)),
            old(self).accepts(*old(runtime), *query_input, *key_value_input, masked),
        ensures
            final(self).qkv.layers == old(self).qkv.layers,
            final(self).qkv.streams is Some,
            final(self).qkv.streams_wf(),
            old(self).qkv.streams is Some ==> final(self).qkv.streams == old(
                self,
            ).qkv.streams,
            final(runtime).replaced(*old(runtime), Set::empty(), set![r.buffer.id]),
            final(runtime).holds(r),
            r.rows == query_input.rows,
            r.cols == old(self).width(),
            final(runtime).matrix(r) == old(self).image(
                *old(runtime),
                old(runtime).matrix(*query_input),
                query_input.rows,
                old(runtime).matrix(*key_value_input),
                key_value_input.rows,
                masked,
            ),
    {
        let ghost before = *runtime;
        let projected = self.qkv.project(query_input, key_value_input, runtime);
        let ghost s1 = *runtime;
        let Qkv { query, key, value } = projected;
        proof {
            let made = set![query.buffer.id, key.buffer.id, value.buffer.id];
            assert(made.contains(query.buffer.id) && made.contains(key.buffer.id) && made.contains(
                value.buffer.id,
            ));
        }
        let ghost lanes = self.qkv.lanes(
            self.qkv.streams->0@,
            *query_input,
            *key_value_input,
            projected,
        );
        proof {
            assert(spares(lanes[2], s1.live@, query.buffer.id, key.buffer.id));
        }
        let probabilities = self.attention_scores(query, key, masked, runtime, Ghost(lanes));
        let ghost s2 = *runtime;
        proof {
            let h = HEADS as int;
            let rows = query_input.rows as int;
            vstd::arithmetic::div_mod::lemma_fundamental_div_mod_converse(
                probabilities.rows as int,
                h,
                rows,
                0,
            );
            assert(s2.buffers@[value.buffer.id as int] == value.buffer.len);
            assert(s2.matrix(value) == s1.matrix(value));
        }
        let attention = self.attention_value_from_probabilities(
            probabilities,
            value,
            runtime,
            Ghost(masked),
            Ghost(lanes[2]),
        );
        proof {
            assert(runtime.live@ =~= before.live@.difference(Set::empty()).union(
                set![attention.buffer.id],
            ));
            assert(runtime.keeps(before, Set::empty()));
        }
        attention
    }

    /// The probabilities for queries and keys, which are given back.
    #[verifier::rlimit(40)]
    fn attention_scores(
        &self,
        query: Matrix,
        key: Matrix,
        masked: bool,
        runtime: &mut CudaRuntime,
        Ghost(lanes): Ghost<Seq<Lane>>,
    ) -> (r: Matrix)
        requires
            old(runtime).wf(),
            self.qkv.streams is Some,
            self.qkv.streams_wf(),
            old(runtime).holds(query),
            old(runtime).holds(key),
            query.buffer.id != key.buffer.id,
            HEADS > 0,
            query.cols % HEADS == 0,
            key.cols == query.cols,
            attendable(
                HEADS as int,
                query.rows as int,
                key.rows as int,
                (query.cols / HEADS) as int,
                masked,
            ),
        ensures
            final(runtime).swapped(
                *old(runtime),
                set![query.buffer.id, key.buffer.id],
                set![r.buffer.id],
            ),
            calm(old(runtime).issued@, lanes) && three_lanes(lanes, self.qkv.streams->0@) && spares(
                lanes[2],
                old(runtime).live@,
                query.buffer.id,
                key.buffer.id,
            ) ==> calm(final(runtime).issued@, seq![lanes[2]]),
            !old(runtime).live@.contains(r.buffer.id),
            final(runtime).holds(r),
            r.rows == HEADS * query.rows,
            r.cols == key.rows,
            final(runtime).matrix(r) == attention_weights(
                old(runtime).matrix(query),
                old(runtime).matrix(key),
                HEADS as nat,
                query.rows,
                key.rows as nat,
                query.cols / HEADS,
                masked,
            ),
    {
        let ghost before = *runtime;
        self.qkv.wait_for_query_key(runtime);
        let ghost s0 = *runtime;
        let head_width: usize = query.cols / HEADS;
        let query_rows: usize = query.rows;
        proof {
            assert(s0.buffers@[query.buffer.id as int] == query.buffer.len);
            assert(s0.buffers@[key.buffer.id as int] == key.buffer.len);
        }
        proof {
            vstd::arithmetic::div_mod::lemma_fundamental_div_mod(query.cols as int, HEADS as int);
        }
        let key_t = runtime.matrix_transpose(&key, None);
        let ghost s1 = *runtime;
        assert(s1.buffers@[query.buffer.id as int] == query.buffer.len);
        let scores = multiply_heads(
            &query,
            &key_t,
            HEADS,
            runtime,
            Ghost(before.matrix(key)),
            Ghost(masked),
        );
        let ghost s2 = *runtime;
        assert(s2.buffers@[query.buffer.id as int] == query.buffer.len);
        runtime.recycle_matrix(query);
        let ghost s3 = *runtime;
        assert(s3.buffers@[key.buffer.id as int] == key.buffer.len);
        runtime.recycle_matrix(key);
        let ghost s4 = *runtime;
        assert(s4.buffers@[key_t.buffer.id as int] == key_t.buffer.len);
        runtime.recycle_matrix(key_t);
        let ghost s5 = *runtime;
        proof {
            assert(s5.buffers@[scores.buffer.id as int] == scores.buffer.len);
            assert(s5.matrix(scores) == s2.matrix(scores));
            assert(s5.live@ =~= before.live@.difference(
                set![query.buffer.id, key.buffer.id],
            ).insert(scores.buffer.id));
            assert(s5.keeps(before, set![query.buffer.id, key.buffer.id]));
        }
        let mut scores = scores;
        scores.scale(Scalar::InverseRoot(head_width), runtime, None);
        let ghost s6 = *runtime;
        assert(s6.buffers@[scores.buffer.id as int] == scores.buffer.len);
        if masked {
            proof {
                let h = HEADS as int;
                vstd::arithmetic::div_mod::lemma_mod_multiples_basic(h, query_rows as int);
                assert(h * query_rows > 0) by (nonlinear_arith)
                    requires
                        h > 0,
                        query_rows > 0,
                ;
            }
            scores.causal_mask_heads(query_rows, runtime, None);
            assert(runtime.buffers@[scores.buffer.id as int] == scores.buffer.len);
        }
        let ghost s7 = *runtime;
        let probabilities = SingleNode::new(SingleType::Softmax).forward(scores, runtime);
        proof {
            assert(s7.live@ == s5.live@);
            assert(runtime.live@ =~= before.live@.difference(
                set![query.buffer.id, key.buffer.id],
            ).union(set![probabilities.buffer.id]));
            assert(runtime.keeps(before, set![query.buffer.id, key.buffer.id]));
            let lane = lanes[2];
            if calm(before.issued@, lanes) && three_lanes(lanes, self.qkv.streams->0@) && spares(
                lane,
                before.live@,
                query.buffer.id,
                key.buffer.id,
            ) {
                let read = readable(lane);
                let written = writable(lane);
                let none = Set::<usize>::empty();
                let q = query.buffer.id;
                let k = key.buffer.id;
                let t = key_t.buffer.id;
                let id = scores.buffer.id;
                lemma_two_joined(before.issued@, s0.issued@, self.qkv.streams->0@, lanes);
                s1.lemma_confined_wider(s0, set![k], set![t], read, written);
                s2.lemma_confined_wider(s1, set![q, t], set![id], read, written);
                s3.lemma_confined_wider(s2, none, set![q], read, written);
                s4.lemma_confined_wider(s3, none, set![k], read, written);
                s5.lemma_confined_wider(s4, none, set![t], read, written);
                s6.lemma_confined_wider(s5, none, set![id], read, written);
                if masked {
                    s7.lemma_confined_wider(s6, none, set![id], read, written);
                } else {
                    s7.lemma_confined_same(s6, read, written);
                }
                runtime.lemma_confined_wider(s7, none, set![id], read, written);
                assert(s2.confined(s0, read, written));
                assert(s3.confined(s0, read, written));
                assert(s4.confined(s0, read, written));
                assert(s5.confined(s0, read, written));
                assert(s6.confined(s0, read, written));
                assert(s7.confined(s0, read, written));
                assert(runtime.confined(s0, read, written));
                s6.lemma_ran_on_nothing(primary());
                assert(s2.ran_on(s0, primary()));
                assert(s3.ran_on(s2, primary()));
                assert(s4.ran_on(s3, primary()));
                assert(s5.ran_on(s4, primary()));
                assert(s5.ran_on(s0, primary()));
                assert(s6.ran_on(s0, primary()));
                assert(s7.ran_on(s0, primary()));
                assert(runtime.ran_on(s0, primary()));
                lemma_works_beside(s0, *runtime, primary(), seq![lane], read, written);
            }
        }
        probabilities
    }

    /// The weighted values; probabilities and values are given back.
    fn attention_value_from_probabilities(
        &self,
        probabilities: Matrix,
        value: Matrix,
        runtime: &mut CudaRuntime,
        Ghost(masked): Ghost<bool>,
        Ghost(lane): Ghost<Lane>,
    ) -> (r: Matrix)
        requires
            old(runtime).wf(),
            self.qkv.streams is Some,
            self.qkv.streams_wf(),
            old(runtime).holds(probabilities),
            old(runtime).holds(value),
            probabilities.buffer.id != value.buffer.id,
            HEADS > 0,
            probabilities.rows % HEADS == 0,
            value.cols % HEADS == 0,
            probabilities.cols == value.rows,
            attendable(
                HEADS as int,
                (probabilities.rows / HEADS) as int,
                value.rows as int,
                (value.cols / HEADS) as int,
                masked,
            ),
        ensures
            final(runtime).swapped(
                *old(runtime),
                set![probabilities.buffer.id, value.buffer.id],
                set![r.buffer.id],
            ),
            calm(old(runtime).issued@, seq![lane]) && lane.stream == self.qkv.streams->0@[2]
                ==> orderly(final(runtime).issued@),
            !old(runtime).live@.contains(r.buffer.id),
            final(runtime).holds(r),
            r.rows == probabilities.rows / HEADS,
            r.cols == value.cols,
            final(runtime).matrix(r) == head_values(
                old(runtime).matrix(probabilities),
                old(runtime).matrix(value),
                HEADS as nat,
                (probabilities.rows / HEADS) as nat,
                value.rows as nat,
                (value.cols / HEADS) as nat,
            ),
    {
        let ghost before = *runtime;
        let attention = self.attention_value(
            &probabilities,
            &value,
            runtime,
            Ghost(masked),
            Ghost(lane),
        );
        let ghost s1 = *runtime;
        assert(s1.buffers@[probabilities.buffer.id as int] == probabilities.buffer.len);
        runtime.recycle_matrix(probabilities);
        let ghost s2 = *runtime;
        assert(s2.buffers@[value.buffer.id as int] == value.buffer.len);
        runtime.recycle_matrix(value);
        proof {
            assert(runtime.buffers@[attention.buffer.id as int] == attention.buffer.len);
            assert(runtime.live@ =~= before.live@.difference(
                set![probabilities.buffer.id, value.buffer.id],
            ).union(set![attention.buffer.id]));
            assert(runtime.keeps(before, set![probabilities.buffer.id, value.buffer.id]));
        }
        attention
    }

    /// The values weighted by the probabilities, once the values are there.
    fn attention_value(
        &self,
        probabilities: &Matrix,
        value: &Matrix,
        runtime: &mut CudaRuntime,
        Ghost(masked): Ghost<bool>,
        Ghost(lane): Ghost<Lane>,
    ) -> (r: Matrix)
        requires
            old(runtime).wf(),
            self.qkv.streams is Some,
            self.qkv.streams_wf(),
            old(runtime).holds(*probabilities),
            old(runtime).holds(*value),
            HEADS > 0,
            probabilities.rows % HEADS == 0,
            value.cols % HEADS == 0,
            probabilities.cols == value.rows,
            attendable(
                HEADS as int,
                (probabilities.rows / HEADS) as int,
                value.rows as int,
                (value.cols / HEADS) as int,
                masked,
            ),
        ensures
            final(runtime).swapped(*old(runtime), Set::empty(), set![r.buffer.id]),
            calm(old(runtime).issued@, seq![lane]) && lane.stream == self.qkv.streams->0@[2]
                ==> orderly(final(runtime).issued@),
            !old(runtime).live@.contains(r.buffer.id),
            final(runtime).holds(r),
            r.rows == probabilities.rows / HEADS,
            r.cols == value.cols,
            final(runtime).matrix(r) == head_values(
                old(runtime).matrix(*probabilities),
                old(runtime).matrix(*value),
                HEADS as nat,
                (probabilities.rows / HEADS) as nat,
                value.rows as nat,
                (value.cols / HEADS) as nat,
            ),
    {
        let ghost before = *runtime;
        self.qkv.wait_for_value(runtime);
        let ghost s0 = *runtime;
        proof {
            assert(s0.buffers@[probabilities.buffer.id as int] == probabilities.buffer.len);
            assert(s0.buffers@[value.buffer.id as int] == value.buffer.len);
        }
        let attention = weigh_heads(probabilities, value, HEADS, runtime, Ghost(masked));
        proof {
            let streams = self.qkv.streams->0@;
            if calm(before.issued@, seq![lane]) && lane.stream == streams[2] {
                lemma_last_joined(before.issued@, s0.issued@, streams, lane);
                assert(runtime.keeps_order(s0));
            }
            assert(runtime.live@ =~= before.live@.difference(Set::empty()).union(
                set![attention.buffer.id],
            ));
        }
        attention
    }
}

} // verus!
