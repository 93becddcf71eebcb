//! Attention that can be trained.

use vstd::prelude::*;

use crate::cuda::algebra::{apply, row_gradient, transpose_batches, zip, Term};
use crate::cuda::arith::{ceil_div, lemma_ceil_div};
use crate::cuda::command::Stream;
use crate::cuda::container::Matrix;
use crate::cuda::ops::{BinaryFn, MapFn, RowFn};
use crate::cuda::order::{calm, primary, Lane};
use crate::cuda::runtime::{chosen, lemma_works_beside, CudaRuntime};
use crate::cuda::scalar::{Scalar, F32};
use crate::graph::config::LearnConfig;
use crate::graph::schedule::Rate;
use crate::graph::state::NodeTrainState;
use crate::net::gradient::{
    add_pair, lemma_matrix_spared, lemma_moved_between, same_values, trained_ids,
};
use crate::net::linear::{trainable, Linear};
use crate::net::node::{SingleNode, SingleType};
use crate::net::transformer::attention::{
    attendable, attention_weights, head_scores, head_values, lemma_two_joined, multiply_heads,
    projected, readable, spares, three_lanes, weigh_heads, writable, Attention, Qkv,
};

verus! {

broadcast use crate::cuda::runtime::group_streams;

/// The gradient of the scaled scores: that of the probabilities through softmax.
pub open spec fn score_gradient(
    value: Seq<Term>,
    probabilities: Seq<Term>,
    gradient: Seq<Term>,
    heads: nat,
    rows: nat,
    head_width: usize,
) -> Seq<Term> {
    apply(
        MapFn::Scale(Scalar::InverseRoot(head_width)),
        row_gradient(
            RowFn::Softmax,
            probabilities,
            head_scores(gradient, value, heads, rows, rows, head_width as nat),
            rows,
        ),
    )
}

/// The gradients of queries, keys and values, head by head: the score gradient
/// times the keys, its transpose times the queries, and the transposed
/// probabilities times the gradient.
pub open spec fn attention_gradients(
    query: Seq<Term>,
    key: Seq<Term>,
    value: Seq<Term>,
    probabilities: Seq<Term>,
    gradient: Seq<Term>,
    heads: nat,
    rows: nat,
    head_width: usize,
) -> Qkv<Seq<Term>> {
    let scores = score_gradient(value, probabilities, gradient, heads, rows, head_width);
    let w = head_width as nat;
    Qkv {
        query: head_values(scores, key, heads, rows, rows, w),
        key: head_values(transpose_batches(scores, heads, rows, rows), query, heads, rows, rows, w),
        value: head_values(
            transpose_batches(probabilities, heads, rows, rows),
            gradient,
            heads,
            rows,
            rows,
            w,
        ),
    }
}

/// Shapes of what a self-attention retains.
pub open spec fn self_attended(
    heads: usize,
    query: Matrix,
    key: Matrix,
    value: Matrix,
    probabilities: Matrix,
) -> bool {
    &&& heads > 0
    &&& query.cols % heads == 0
    &&& key.rows == query.rows && key.cols == query.cols
    &&& value.rows == query.rows && value.cols == query.cols
    &&& probabilities.rows == heads * query.rows
    &&& probabilities.cols == query.rows
    &&& attendable(
        heads as int,
        query.rows as int,
        query.rows as int,
        (query.cols / heads) as int,
        false,
    )
}

/// The gradient of the scaled scores.
fn pass_to_scores(
    value: &Matrix,
    probabilities: &Matrix,
    gradient: &Matrix,
    heads: usize,
    runtime: &mut CudaRuntime,
) -> (r: Matrix)
    requires
        old(runtime).wf(),
        old(runtime).holds(*value),
        old(runtime).holds(*probabilities),
        old(runtime).holds(*gradient),
        self_attended(heads, *value, *value, *value, *probabilities),
        gradient.rows == value.rows,
        gradient.cols == value.cols,
    ensures
        final(runtime).grown(*old(runtime), r.buffer.id, None),
        final(runtime).holds(r),
        r.rows == probabilities.rows,
        r.cols == probabilities.cols,
        final(runtime).matrix(r) == score_gradient(
            old(runtime).matrix(*value),
            old(runtime).matrix(*probabilities),
            old(runtime).matrix(*gradient),
            heads as nat,
            value.rows as nat,
            value.cols / heads,
        ),
{
    let ghost before = *runtime;
    let head_width: usize = value.cols / heads;
    proof {
        vstd::arithmetic::div_mod::lemma_fundamental_div_mod(value.cols as int, heads as int);
    }
    let value_t = runtime.matrix_transpose(value, None);
    let ghost s1 = *runtime;
    assert(s1.buffers@[gradient.buffer.id as int] == gradient.buffer.len);
    let by_probability = multiply_heads(
        gradient,
        &value_t,
        heads,
        runtime,
        Ghost(before.matrix(*value)),
        Ghost(false),
    );
    let ghost s2 = *runtime;
    assert(s2.buffers@[value_t.buffer.id as int] == value_t.buffer.len);
    runtime.recycle_matrix(value_t);
    let ghost s3 = *runtime;
    proof {
        assert(s3.ran_on(s2, chosen(None)));
        assert(s3.buffers@[by_probability.buffer.id as int] == by_probability.buffer.len);
        assert(s3.buffers@[probabilities.buffer.id as int] == probabilities.buffer.len);
        assert(s3.matrix(*probabilities) == before.matrix(*probabilities));
        assert(s3.matrix(by_probability) == s2.matrix(by_probability));
    }
    let mut scores = runtime.softmax_rows_backward(probabilities, &by_probability, None);
    let ghost s4 = *runtime;
    assert(s4.buffers@[by_probability.buffer.id as int] == by_probability.buffer.len);
    runtime.recycle_matrix(by_probability);
    let ghost s5 = *runtime;
    proof {
        assert(s5.ran_on(s4, chosen(None)));
        assert(s5.buffers@[scores.buffer.id as int] == scores.buffer.len);
        assert(s5.matrix(scores) == s4.matrix(scores));
    }
    scores.scale(Scalar::InverseRoot(head_width), runtime, None);
    proof {
        assert(runtime.buffers@[scores.buffer.id as int] == scores.buffer.len);
        assert(runtime.live@ =~= before.live@.insert(scores.buffer.id));
        assert(runtime.keeps(before, Set::empty()));
    }
    scores
}

/// A stack of square matrices times a matrix whose heads stand side by side,
/// each matrix of the stack transposed.
fn weigh_transposed(
    stack: &Matrix,
    value: &Matrix,
    heads: usize,
    runtime: &mut CudaRuntime,
) -> (r: Matrix)
    requires
        old(runtime).wf(),
        old(runtime).holds(*stack),
        old(runtime).holds(*value),
        self_attended(heads, *value, *value, *value, *stack),
    ensures
        final(runtime).grown(*old(runtime), r.buffer.id, None),
        final(runtime).holds(r),
        r.rows == value.rows,
        r.cols == value.cols,
        final(runtime).matrix(r) == head_values(
            transpose_batches(
                old(runtime).matrix(*stack),
                heads as nat,
                value.rows as nat,
                value.rows as nat,
            ),
            old(runtime).matrix(*value),
            heads as nat,
            value.rows as nat,
            value.rows as nat,
            (value.cols / heads) as nat,
        ),
{
    let ghost before = *runtime;
    let rows: usize = value.rows;
    proof {
        let h = heads as int;
        let n = rows as int;
        lemma_ceil_div(n, 32);
        assert(h * ceil_div(n, 32) <= h * n) by (nonlinear_arith)
            requires
                ceil_div(n, 32) <= n,
                h > 0,
        ;
        assert(n <= h * n) by (nonlinear_arith)
            requires
                h >= 1,
                n > 0,
        ;
        before.lemma_whole(stack.buffer);
        vstd::arithmetic::div_mod::lemma_fundamental_div_mod_converse(h * n, h, n, 0);
    }
    let turned = runtime.matrix_transpose_batches(stack, heads, rows, rows, None);
    let ghost s1 = *runtime;
    assert(s1.buffers@[value.buffer.id as int] == value.buffer.len);
    let result = weigh_heads(&turned, value, heads, runtime, Ghost(false));
    let ghost s2 = *runtime;
    assert(s2.buffers@[turned.buffer.id as int] == turned.buffer.len);
    runtime.recycle_matrix(turned);
    proof {
        assert(runtime.ran_on(s2, chosen(None)));
        assert(runtime.buffers@[result.buffer.id as int] == result.buffer.len);
        assert(runtime.matrix(result) == s2.matrix(result));
        assert(runtime.live@ =~= before.live@.insert(result.buffer.id));
        assert(runtime.keeps(before, Set::empty()));
    }
    result
}

/// Three buffers.
pub open spec fn three_ids(qkv: Qkv<Matrix>) -> Set<usize> {
    set![qkv.query.buffer.id, qkv.key.buffer.id, qkv.value.buffer.id]
}

/// Passes a gradient back to queries, keys and values.
fn pass_to_projections(
    query: &Matrix,
    key: &Matrix,
    value: &Matrix,
    probabilities: &Matrix,
    gradient: &Matrix,
    heads: usize,
    runtime: &mut CudaRuntime,
) -> (r: Qkv<Matrix>)
    requires
        old(runtime).wf(),
        old(runtime).holds(*query),
        old(runtime).holds(*key),
        old(runtime).holds(*value),
        old(runtime).holds(*probabilities),
        old(runtime).holds(*gradient),
        self_attended(heads, *query, *key, *value, *probabilities),
        gradient.rows == query.rows,
        gradient.cols == query.cols,
    ensures
        final(runtime).exchanged(*old(runtime), Set::empty(), three_ids(r)),
        final(runtime).holds(r.query),
        final(runtime).holds(r.key),
        final(runtime).holds(r.value),
        r.query.buffer.id != r.key.buffer.id,
        r.query.buffer.id != r.value.buffer.id,
        r.key.buffer.id != r.value.buffer.id,
        r.query.rows == query.rows && r.query.cols == query.cols,
        r.key.rows == query.rows && r.key.cols == query.cols,
        r.value.rows == query.rows && r.value.cols == query.cols,
        ({
            let expected = attention_gradients(
                old(runtime).matrix(*query),
                old(runtime).matrix(*key),
                old(runtime).matrix(*value),
                old(runtime).matrix(*probabilities),
                old(runtime).matrix(*gradient),
                heads as nat,
                query.rows as nat,
                query.cols / heads,
            );
            &&& final(runtime).matrix(r.query) == expected.query
            &&& final(runtime).matrix(r.key) == expected.key
            &&& final(runtime).matrix(r.value) == expected.value
        }),
{
    let ghost before = *runtime;
    proof {
        let h = heads as int;
        let n = query.rows as int;
        vstd::arithmetic::div_mod::lemma_fundamental_div_mod_converse(h * n, h, n, 0);
    }
    let scores = pass_to_scores(value, probabilities, gradient, heads, runtime);
    let ghost s1 = *runtime;
    assert(s1.buffers@[key.buffer.id as int] == key.buffer.len);
    let to_query = weigh_heads(&scores, key, heads, runtime, Ghost(false));
    let ghost s2 = *runtime;
    proof {
        assert(s2.buffers@[query.buffer.id as int] == query.buffer.len);
        assert(s2.buffers@[scores.buffer.id as int] == scores.buffer.len);
        assert(s2.matrix(scores) == s1.matrix(scores));
        assert(s2.matrix(*query) == before.matrix(*query));
    }
    let to_key = weigh_transposed(&scores, query, heads, runtime);
    let ghost s3 = *runtime;
    assert(s3.buffers@[scores.buffer.id as int] == scores.buffer.len);
    runtime.recycle_matrix(scores);
    let ghost s4 = *runtime;
    proof {
        assert(s4.ran_on(s3, chosen(None)));
        assert(s4.buffers@[probabilities.buffer.id as int] == probabilities.buffer.len);
        assert(s4.buffers@[gradient.buffer.id as int] == gradient.buffer.len);
        assert(s4.matrix(*probabilities) == before.matrix(*probabilities));
        assert(s4.matrix(*gradient) == before.matrix(*gradient));
    }
    let to_value = weigh_transposed(probabilities, gradient, heads, runtime);
    let r = Qkv { query: to_query, key: to_key, value: to_value };
    proof {
        assert(runtime.buffers@[to_query.buffer.id as int] == to_query.buffer.len);
        assert(runtime.buffers@[to_key.buffer.id as int] == to_key.buffer.len);
        assert(runtime.matrix(to_query) == s2.matrix(to_query));
        assert(runtime.matrix(to_key) == s3.matrix(to_key));
        assert(runtime.live@ =~= before.live@.difference(Set::empty()).union(three_ids(r)));
        assert(runtime.keeps(before, Set::empty()));
        assert forall|id: usize| #![trigger three_ids(r).contains(id)] three_ids(r).contains(
            id,
        ) implies !before.live@.contains(id) by {}
    }
    r
}

/// What a self-attention retains for its backward pass.
pub struct AttentionState {
    pub input: Matrix,
    pub query: Matrix,
    pub key: Matrix,
    pub value: Matrix,
    pub probabilities: Matrix,
}

impl AttentionState {
    /// The buffers that were made during the forward pass.
    pub open spec fn made(self) -> Set<usize> {
        set![
            self.query.buffer.id,
            self.key.buffer.id,
            self.value.buffer.id,
            self.probabilities.buffer.id,
        ]
    }

    /// All retained buffers.
    pub open spec fn ids(self) -> Set<usize> {
        self.made().insert(self.input.buffer.id)
    }

    /// Everything is alive and nothing shares a buffer.
    pub open spec fn wf(self, runtime: CudaRuntime) -> bool {
        &&& runtime.holds(self.input)
        &&& runtime.holds(self.query)
        &&& runtime.holds(self.key)
        &&& runtime.holds(self.value)
        &&& runtime.holds(self.probabilities)
        &&& !self.made().contains(self.input.buffer.id)
        &&& self.query.buffer.id != self.key.buffer.id
        &&& self.query.buffer.id != self.value.buffer.id
        &&& self.query.buffer.id != self.probabilities.buffer.id
        &&& self.key.buffer.id != self.value.buffer.id
        &&& self.key.buffer.id != self.probabilities.buffer.id
        &&& self.value.buffer.id != self.probabilities.buffer.id
    }

    /// What is retained is the same at two moments.
    pub open spec fn same(self, before: CudaRuntime, after: CudaRuntime) -> bool {
        &&& after.matrix(self.input) == before.matrix(self.input)
        &&& after.matrix(self.query) == before.matrix(self.query)
        &&& after.matrix(self.key) == before.matrix(self.key)
        &&& after.matrix(self.value) == before.matrix(self.value)
        &&& after.matrix(self.probabilities) == before.matrix(self.probabilities)
    }

    /// What is retained stays as it is while other buffers are exchanged.
    pub proof fn lemma_spared(
        self,
        before: CudaRuntime,
        after: CudaRuntime,
        taken: Set<usize>,
        made: Set<usize>,
    )
        requires
            before.wf(),
            self.wf(before),
            after.replaced(before, taken, made),
            taken.disjoint(self.ids()),
        ensures
            self.wf(after),
            made.disjoint(self.ids()),
            self.same(before, after),
            self.ids().subset_of(before.live@),
    {
        assert(self.ids().contains(self.input.buffer.id));
        assert(self.ids().contains(self.query.buffer.id));
        assert(self.ids().contains(self.key.buffer.id));
        assert(self.ids().contains(self.value.buffer.id));
        assert(self.ids().contains(self.probabilities.buffer.id));
        lemma_matrix_spared(self.input, before, after, taken, made);
        lemma_matrix_spared(self.query, before, after, taken, made);
        lemma_matrix_spared(self.key, before, after, taken, made);
        lemma_matrix_spared(self.value, before, after, taken, made);
        lemma_matrix_spared(self.probabilities, before, after, taken, made);
    }

    /// Gives everything back.
    fn recycle(self, runtime: &mut CudaRuntime)
        requires
            old(runtime).wf(),
            self.wf(*old(runtime)),
        ensures
            final(runtime).exchanged(*old(runtime), self.ids(), Set::empty()),
    {
        let ghost before = *runtime;
        let ghost all = self;
        let AttentionState { input, query, key, value, probabilities } = self;
        runtime.recycle_matrix(input);
        let ghost s1 = *runtime;
        assert(s1.buffers@[query.buffer.id as int] == query.buffer.len);
        runtime.recycle_matrix(query);
        let ghost s2 = *runtime;
        assert(s2.buffers@[key.buffer.id as int] == key.buffer.len);
        runtime.recycle_matrix(key);
        let ghost s3 = *runtime;
        assert(s3.buffers@[value.buffer.id as int] == value.buffer.len);
        runtime.recycle_matrix(value);
        let ghost s4 = *runtime;
        assert(s4.buffers@[probabilities.buffer.id as int] == probabilities.buffer.len);
        runtime.recycle_matrix(probabilities);
        proof {
            assert(s1.ran_on(before, chosen(None)));
            assert(s2.ran_on(s1, chosen(None)));
            assert(s3.ran_on(s2, chosen(None)));
            assert(s4.ran_on(s3, chosen(None)));
            assert(runtime.ran_on(s4, chosen(None)));
            assert(runtime.live@ =~= before.live@.difference(all.ids()).union(Set::empty()));
            assert(runtime.keeps(before, all.ids()));
        }
    }
}

impl<const HEADS: usize> Attention<HEADS> {
    /// The probabilities for queries and keys, which stay.
    #[verifier::rlimit(40)]
    fn retained_scores(
        &self,
        query: &Matrix,
        key: &Matrix,
        masked: bool,
        runtime: &mut CudaRuntime,
        Ghost(lanes): Ghost<Seq<Lane>>,
    ) -> (r: Matrix)
        requires
            old(runtime).wf(),
            self.qkv.streams is Some,
            self.qkv.streams_wf(),
            old(runtime).holds(*query),
            old(runtime).holds(*key),
            HEADS > 0,
            query.cols % HEADS == 0,
            key.cols == query.cols,
            attendable(
                HEADS as int,
                query.rows as int,
                key.rows as int,
                (query.cols / HEADS) as int,
                masked,
            ),
        ensures
            final(runtime).swapped(*old(runtime), Set::empty(), set![r.buffer.id]),
            calm(old(runtime).issued@, lanes) && three_lanes(lanes, self.qkv.streams->0@) && spares(
                lanes[2],
                old(runtime).live@,
                query.buffer.id,
                key.buffer.id,
            ) ==> calm(final(runtime).issued@, seq![lanes[2]]),
            final(runtime).holds(r),
            r.rows == HEADS * query.rows,
            r.cols == key.rows,
            final(runtime).matrix(r) == attention_weights(
                old(runtime).matrix(*query),
                old(runtime).matrix(*key),
                HEADS as nat,
                query.rows,
                key.rows as nat,
                query.cols / HEADS,
                masked,
            ),
    {
        let ghost before = *runtime;
        self.qkv.wait_for_query_key(runtime);
        let ghost s0 = *runtime;
        let head_width: usize = query.cols / HEADS;
        let query_rows: usize = query.rows;
        proof {
            assert(s0.buffers@[query.buffer.id as int] == query.buffer.len);
            assert(s0.buffers@[key.buffer.id as int] == key.buffer.len);
        }
        proof {
            vstd::arithmetic::div_mod::lemma_fundamental_div_mod(query.cols as int, HEADS as int);
        }
        let key_t = runtime.matrix_transpose(key, None);
        let ghost s1 = *runtime;
        assert(s1.buffers@[query.buffer.id as int] == query.buffer.len);
        let scores = multiply_heads(
            query,
            &key_t,
            HEADS,
            runtime,
            Ghost(before.matrix(*key)),
            Ghost(masked),
        );
        let ghost s2 = *runtime;
        assert(s2.buffers@[key_t.buffer.id as int] == key_t.buffer.len);
        runtime.recycle_matrix(key_t);
        let ghost s5 = *runtime;
        proof {
            assert(s5.buffers@[scores.buffer.id as int] == scores.buffer.len);
            assert(s5.matrix(scores) == s2.matrix(scores));
            assert(s5.live@ =~= before.live@.insert(scores.buffer.id));
            assert(s5.keeps(before, Set::empty()));
        }
        let mut scores = scores;
        scores.scale(Scalar::InverseRoot(head_width), runtime, None);
        let ghost s6 = *runtime;
        assert(s6.buffers@[scores.buffer.id as int] == scores.buffer.len);
        if masked {
            proof {
                let h = HEADS as int;
                vstd::arithmetic::div_mod::lemma_mod_multiples_basic(h, query_rows as int);
                assert(h * query_rows > 0) by (nonlinear_arith)
                    requires
                        h > 0,
                        query_rows > 0,
                ;
            }
            scores.causal_mask_heads(query_rows, runtime, None);
            assert(runtime.buffers@[scores.buffer.id as int] == scores.buffer.len);
        }
        let ghost s7 = *runtime;
        let probabilities = SingleNode::new(SingleType::Softmax).forward(scores, runtime);
        proof {
            assert(s7.live@ == s5.live@);
            assert(runtime.live@ =~= before.live@.difference(Set::empty()).union(
                set![probabilities.buffer.id],
            ));
            assert(runtime.keeps(before, Set::empty()));
            let lane = lanes[2];
            if calm(before.issued@, lanes) && three_lanes(lanes, self.qkv.streams->0@) && spares(
                lane,
                before.live@,
                query.buffer.id,
                key.buffer.id,
            ) {
                let read = readable(lane);
                let written = writable(lane);
                let none = Set::<usize>::empty();
                let q = query.buffer.id;
                let k = key.buffer.id;
                let t = key_t.buffer.id;
                let id = scores.buffer.id;
                lemma_two_joined(before.issued@, s0.issued@, self.qkv.streams->0@, lanes);
                s1.lemma_confined_wider(s0, set![k], set![t], read, written);
                s2.lemma_confined_wider(s1, set![q, t], set![id], read, written);
                s5.lemma_confined_wider(s2, none, set![t], read, written);
                s6.lemma_confined_wider(s5, none, set![id], read, written);
                if masked {
                    s7.lemma_confined_wider(s6, none, set![id], read, written);
                } else {
                    s7.lemma_confined_same(s6, read, written);
                }
                runtime.lemma_confined_wider(s7, none, set![id], read, written);
                assert(s2.confined(s0, read, written));
                assert(s5.confined(s0, read, written));
                assert(s6.confined(s0, read, written));
                assert(s7.confined(s0, read, written));
                assert(runtime.confined(s0, read, written));
                s6.lemma_ran_on_nothing(primary());
                assert(s2.ran_on(s0, primary()));
                assert(s5.ran_on(s2, primary()));
                assert(s6.ran_on(s0, primary()));
                assert(s7.ran_on(s0, primary()));
                assert(runtime.ran_on(s0, primary()));
                lemma_works_beside(s0, *runtime, primary(), seq![lane], read, written);
            }
        }
        probabilities
    }
}

/// Self-attention with what its backward pass and its optimizer need.
pub struct TrainingAttention<const HEADS: usize> {
    pub attention: Attention<HEADS>,
    pub training: Qkv<NodeTrainState>,
    pub state: Option<AttentionState>,
}

impl<const HEADS: usize> TrainingAttention<HEADS> {
    /// The buffers of the query projection and its training state.
    pub open spec fn query_ids(self) -> Set<usize> {
        trained_ids(self.attention.qkv.layers.query, self.training.query)
    }

    /// The buffers of the key projection and its training state.
    pub open spec fn key_ids(self) -> Set<usize> {
        trained_ids(self.attention.qkv.layers.key, self.training.key)
    }

    /// The buffers of the value projection and its training state.
    pub open spec fn value_ids(self) -> Set<usize> {
        trained_ids(self.attention.qkv.layers.value, self.training.value)
    }

    /// The buffers of all projections and their training states.
    pub open spec fn parts(self) -> Set<usize> {
        self.query_ids().union(self.key_ids()).union(self.value_ids())
    }

    /// The buffers that a forward pass retained.
    pub open spec fn retained(self) -> Set<usize> {
        match self.state {
            Some(state) => state.ids(),
            None => Set::empty(),
        }
    }

    /// All buffers of the block.
    pub open spec fn owned(self) -> Set<usize> {
        self.parts().union(self.retained())
    }

    /// Projections and training states fit together and share no buffer.
    pub open spec fn parts_wf(self, runtime: CudaRuntime) -> bool {
        &&& self.attention.shaped()
        &&& self.attention.qkv.streams_wf()
        &&& self.attention.qkv.layers.query.trains_with(runtime, self.training.query)
        &&& self.attention.qkv.layers.key.trains_with(runtime, self.training.key)
        &&& self.attention.qkv.layers.value.trains_with(runtime, self.training.value)
        &&& self.query_ids().disjoint(self.key_ids())
        &&& self.query_ids().disjoint(self.value_ids())
        &&& self.key_ids().disjoint(self.value_ids())
    }

    /// The invariant.
    pub open spec fn wf(self, runtime: CudaRuntime) -> bool {
        &&& self.parts_wf(runtime)
        &&& self.state matches Some(state) ==> {
            &&& state.wf(runtime)
            &&& state.ids().disjoint(self.parts())
            &&& self.fits(state)
        }
    }

    /// The shapes of what is retained.
    pub open spec fn fits(self, state: AttentionState) -> bool {
        let l = self.attention.qkv.layers;
        &&& self_attended(HEADS, state.query, state.key, state.value, state.probabilities)
        &&& state.query.cols == self.attention.width()
        &&& state.query.rows == state.input.rows
        &&& state.input.cols == l.query.weights.rows
        &&& state.input.cols == l.key.weights.rows
        &&& state.input.cols == l.value.weights.rows
    }

    /// Rows that the projections can be trained on.
    pub open spec fn trains_rows(self, rows: int) -> bool {
        let l = self.attention.qkv.layers;
        &&& trainable(rows, l.query.weights.rows as int, l.query.weights.cols as int)
        &&& trainable(rows, l.key.weights.rows as int, l.key.weights.cols as int)
        &&& trainable(rows, l.value.weights.rows as int, l.value.weights.cols as int)
        &&& l.query.bias is None ==> self.training.query.parameters@[1].gradient is None
        &&& l.key.bias is None ==> self.training.key.parameters@[1].gradient is None
        &&& l.value.bias is None ==> self.training.value.parameters@[1].gradient is None
    }

    /// The projections and their training states have the same values at two
    /// moments.
    pub open spec fn same_parts(self, before: CudaRuntime, after: CudaRuntime) -> bool {
        let l = self.attention.qkv.layers;
        &&& same_values(l.query, self.training.query, before, after)
        &&& same_values(l.key, self.training.key, before, after)
        &&& same_values(l.value, self.training.value, before, after)
    }

    /// The buffers of the block are alive.
    pub proof fn lemma_owned_live(self, runtime: CudaRuntime)
        requires
            self.wf(runtime),
        ensures
            self.owned().subset_of(runtime.live@),
    {
        let l = self.attention.qkv.layers;
        l.query.lemma_trained_ids_live(self.training.query, runtime);
        l.key.lemma_trained_ids_live(self.training.key, runtime);
        l.value.lemma_trained_ids_live(self.training.value, runtime);
    }

    /// The projections stay as they are while other buffers are exchanged.
    pub proof fn lemma_parts_spared(
        self,
        before: CudaRuntime,
        after: CudaRuntime,
        taken: Set<usize>,
        made: Set<usize>,
    )
        requires
            before.wf(),
            self.parts_wf(before),
            after.replaced(before, taken, made),
            taken.disjoint(self.parts()),
        ensures
            self.parts_wf(after),
            made.disjoint(self.parts()),
            self.parts().subset_of(before.live@),
            self.same_parts(before, after),
    {
        let l = self.attention.qkv.layers;
        assert(taken.disjoint(self.query_ids()));
        assert(taken.disjoint(self.key_ids()));
        assert(taken.disjoint(self.value_ids()));
        l.query.lemma_trained_ids_live(self.training.query, before);
        l.key.lemma_trained_ids_live(self.training.key, before);
        l.value.lemma_trained_ids_live(self.training.value, before);
        l.query.lemma_spared(self.training.query, before, after, taken, made);
        l.key.lemma_spared(self.training.key, before, after, taken, made);
        l.value.lemma_spared(self.training.value, before, after, taken, made);
    }

    /// The whole block stays as it is while other buffers are exchanged.
    pub proof fn lemma_spared(
        self,
        before: CudaRuntime,
        after: CudaRuntime,
        taken: Set<usize>,
        made: Set<usize>,
    )
        requires
            before.wf(),
            self.wf(before),
            after.replaced(before, taken, made),
            taken.disjoint(self.owned()),
        ensures
            self.wf(after),
            made.disjoint(self.owned()),
            self.owned().subset_of(before.live@),
    {
        assert(taken.disjoint(self.parts()));
        self.lemma_parts_spared(before, after, taken, made);
        if let Some(state) = self.state {
            assert(taken.disjoint(state.ids()));
            state.lemma_spared(before, after, taken, made);
        }
    }

    /// The same with the values that a backward pass depends on.
    pub proof fn lemma_values_spared(
        self,
        before: CudaRuntime,
        after: CudaRuntime,
        taken: Set<usize>,
        made: Set<usize>,
    )
        requires
            before.wf(),
            self.wf(before),
            after.replaced(before, taken, made),
            taken.disjoint(self.owned()),
            self.state is Some,
        ensures
            self.wf(after),
            made.disjoint(self.owned()),
            self.owned().subset_of(before.live@),
            self.same_parts(before, after),
            self.state->0.same(before, after),
            forall|g: Seq<Term>| #[trigger]
                self.projection_gradients(after, g) == self.projection_gradients(before, g),
            forall|g: Seq<Term>| #[trigger]
                self.input_gradient(after, g) == self.input_gradient(before, g),
    {
        self.lemma_spared(before, after, taken, made);
        assert(taken.disjoint(self.parts()));
        self.lemma_parts_spared(before, after, taken, made);
        let state = self.state->0;
        assert(taken.disjoint(state.ids()));
        state.lemma_spared(before, after, taken, made);
    }

    /// What a backward pass adds counts from and to any moment at which the values
    /// are the same.
    pub proof fn lemma_absorbed_moved(
        self,
        before: CudaRuntime,
        from: CudaRuntime,
        to: CudaRuntime,
        after: CudaRuntime,
        end: Qkv<NodeTrainState>,
        gradient: Seq<Term>,
    )
        requires
            self.absorbed(from, to, end, gradient),
            self.projection_gradients(from, gradient) == self.projection_gradients(
                before,
                gradient,
            ),
            from.matrix(self.state->0.input) == before.matrix(self.state->0.input),
            self.same_parts(before, from),
            same_values(self.attention.qkv.layers.query, end.query, to, after),
            same_values(self.attention.qkv.layers.key, end.key, to, after),
            same_values(self.attention.qkv.layers.value, end.value, to, after),
        ensures
            self.absorbed(before, after, end, gradient),
    {
    }

    pub fn new(query: Linear, key: Linear, value: Linear, streams: Option<Vec<Stream>>) -> (r: Self)
        requires
            HEADS > 0,
            query.weights.cols % HEADS == 0,
            key.weights.cols == query.weights.cols,
            value.weights.cols == query.weights.cols,
            streams matches Some(streams) ==> streams@.len() == 3,
        ensures
            r.attention.qkv.layers == (Qkv { query, key, value }),
            r.attention.qkv.streams == streams,
            r.attention.shaped(),
            r.training.query.is_fresh(2),
            r.training.key.is_fresh(2),
            r.training.value.is_fresh(2),
            r.state is None,
    {
        TrainingAttention {
            attention: Attention::new(query, key, value, streams),
            training: Qkv {
                query: NodeTrainState::with_parameter_count(2),
                key: NodeTrainState::with_parameter_count(2),
                value: NodeTrainState::with_parameter_count(2),
            },
            state: None,
        }
    }

    /// Runs self-attention. Besides its value, what the backward pass needs is
    /// handed out.
    pub fn forward_self_training<const MASKED: bool>(
        &mut self,
        input: Matrix,
        runtime: &mut CudaRuntime,
    ) -> (r: (Matrix, AttentionState))
        requires
            old(runtime).wf(),
            old(self).wf(*old(runtime)),
            old(self).attention.accepts(*old(runtime), input, input, MASKED),
            !old(self).owned().contains(input.buffer.id),
        ensures
            final(self).attention.qkv.layers == old(self).attention.qkv.layers,
            final(self).attention.qkv.streams is Some,
            old(self).attention.qkv.streams is Some ==> final(self).attention.qkv.streams == old(
                self,
            ).attention.qkv.streams,
            final(self).training == old(self).training,
            final(self).state == old(self).state,
            final(self).wf(*final(runtime)),
            r.1.input == input,
            r.1.wf(*final(runtime)),
            r.1.ids().disjoint(final(self).owned()),
            final(self).fits(r.1),
            final(runtime).replaced(
                *old(runtime),
                Set::empty(),
                r.1.made().insert(r.0.buffer.id),
            ),
            !r.1.ids().contains(r.0.buffer.id),
            final(runtime).holds(r.0),
            r.0.rows == input.rows,
            r.0.cols == old(self).attention.width(),
            final(runtime).matrix(r.0) == old(self).attention.image(
                *old(runtime),
                old(runtime).matrix(input),
                input.rows,
                old(runtime).matrix(input),
                input.rows,
                MASKED,
            ),
            final(runtime).matrix(input) == old(runtime).matrix(input),
            old(self).attention.remembers(
                *old(runtime),
                *final(runtime),
                old(runtime).matrix(input),
                r.1,
                MASKED,
            ),
    {
        let ghost before = *runtime;
        let ghost start = *self;
        proof {
            self.lemma_owned_live(before);
            let q = self.attention.qkv;
            assert forall|id: usize|
                #![trigger q.layers.query.owns(id)]
                #![trigger q.layers.key.owns(id)]
                #![trigger q.layers.value.owns(id)]
                !(q.layers.query.owns(id) && q.layers.key.owns(id)) && !(q.layers.query.owns(id)
                    && q.layers.value.owns(id)) && !(q.layers.key.owns(id) && q.layers.value.owns(
                    id,
                )) by {
                assert(q.layers.query.owns(id) ==> self.query_ids().contains(id));
                assert(q.layers.key.owns(id) ==> self.key_ids().contains(id));
                assert(q.layers.value.owns(id) ==> self.value_ids().contains(id));
            }
        }
        let projected = self.attention.qkv.project(&input, &input, runtime);
        let ghost s1 = *runtime;
        let Qkv { query, key, value } = projected;
        let ghost three = set![query.buffer.id, key.buffer.id, value.buffer.id];
        proof {
            assert(three.contains(query.buffer.id) && three.contains(key.buffer.id)
                && three.contains(value.buffer.id));
            lemma_matrix_spared(input, before, s1, Set::empty(), three);
        }
        let ghost lanes = self.attention.qkv.lanes(
            self.attention.qkv.streams->0@,
            input,
            input,
            projected,
        );
        proof {
            assert(spares(lanes[2], s1.live@, query.buffer.id, key.buffer.id));
        }
        let probabilities = self.attention.retained_scores(
            &query,
            &key,
            MASKED,
            runtime,
            Ghost(lanes),
        );
        let ghost s2 = *runtime;
        proof {
            let h = HEADS as int;
            let rows = input.rows as int;
            vstd::arithmetic::div_mod::lemma_fundamental_div_mod_converse(
                probabilities.rows as int,
                h,
                rows,
                0,
            );
            let one = set![probabilities.buffer.id];
            assert(one.contains(probabilities.buffer.id));
            lemma_matrix_spared(input, s1, s2, Set::empty(), one);
            lemma_matrix_spared(query, s1, s2, Set::empty(), one);
            lemma_matrix_spared(key, s1, s2, Set::empty(), one);
            lemma_matrix_spared(value, s1, s2, Set::empty(), one);
        }
        let attention = self.attention.attention_value(
            &probabilities,
            &value,
            runtime,
            Ghost(MASKED),
            Ghost(lanes[2]),
        );
        let state = AttentionState { input, query, key, value, probabilities };
        proof {
            let one = set![attention.buffer.id];
            assert(one.contains(attention.buffer.id));
            lemma_matrix_spared(input, s2, *runtime, Set::empty(), one);
            lemma_matrix_spared(query, s2, *runtime, Set::empty(), one);
            lemma_matrix_spared(key, s2, *runtime, Set::empty(), one);
            lemma_matrix_spared(value, s2, *runtime, Set::empty(), one);
            lemma_matrix_spared(probabilities, s2, *runtime, Set::empty(), one);
            let made = state.made().insert(attention.buffer.id);
            assert(runtime.live@ =~= before.live@.difference(Set::empty()).union(made));
            assert(runtime.keeps(before, Set::empty()));
            assert forall|id: usize| #![trigger made.contains(id)] made.contains(id) implies !before.live@.contains(
                id,
            ) by {
                assert(three.contains(id) || id == probabilities.buffer.id || id
                    == attention.buffer.id);
                assert(set![probabilities.buffer.id].contains(id) || id != probabilities.buffer.id);
            }
            start.lemma_spared(before, *runtime, Set::empty(), made);
        }
        (attention, state)
    }

    /// Keeps what a forward pass handed out.
    pub fn retain_training_state(&mut self, state: AttentionState)
        requires
            old(self).state is None,
        ensures
            final(self).attention == old(self).attention,
            final(self).training == old(self).training,
            final(self).state == Some(state),
    {
        self.state = Some(state);
    }

    /// Gives back what a forward pass retained.
    pub fn clear_training_cache(&mut self, runtime: &mut CudaRuntime)
        requires
            old(runtime).wf(),
            old(self).wf(*old(runtime)),
        ensures
            final(self).attention == old(self).attention,
            final(self).training == old(self).training,
            final(self).state is None,
            final(self).wf(*final(runtime)),
            final(runtime).exchanged(*old(runtime), old(self).retained(), Set::empty()),
    {
        let ghost before = *runtime;
        let ghost start = *self;
        proof {
            runtime.lemma_ran_on_nothing(chosen(None));
            assert(before.live@ =~= before.live@.difference(Set::empty()).union(Set::empty()));
        }
        if let Some(state) = self.state.take() {
            state.recycle(runtime);
            proof {
                start.lemma_parts_spared(before, *runtime, start.retained(), Set::empty());
            }
        }
    }
}

impl<const HEADS: usize> Attention<HEADS> {
    /// What a forward pass over an input leaves for the backward pass.
    pub open spec fn remembers(
        self,
        before: CudaRuntime,
        after: CudaRuntime,
        input: Seq<Term>,
        state: AttentionState,
        masked: bool,
    ) -> bool {
        let rows = state.input.rows;
        let l = self.qkv.layers;
        &&& after.matrix(state.query) == projected(l.query, before, input, rows as nat)
        &&& after.matrix(state.key) == projected(l.key, before, input, rows as nat)
        &&& after.matrix(state.value) == projected(l.value, before, input, rows as nat)
        &&& after.matrix(state.probabilities) == attention_weights(
            after.matrix(state.query),
            after.matrix(state.key),
            HEADS as nat,
            rows,
            rows as nat,
            self.width() / HEADS,
            masked,
        )
    }
}

impl<const HEADS: usize> TrainingAttention<HEADS> {
    /// The gradients of queries, keys and values.
    pub open spec fn projection_gradients(self, runtime: CudaRuntime, gradient: Seq<Term>) -> Qkv<
        Seq<Term>,
    > {
        let state = self.state->0;
        attention_gradients(
            runtime.matrix(state.query),
            runtime.matrix(state.key),
            runtime.matrix(state.value),
            runtime.matrix(state.probabilities),
            gradient,
            HEADS as nat,
            state.query.rows as nat,
            state.query.cols / HEADS,
        )
    }

    /// The gradient of the block's input: what comes back through the three
    /// projections, added up.
    pub open spec fn input_gradient(self, runtime: CudaRuntime, gradient: Seq<Term>) -> Seq<Term> {
        let l = self.attention.qkv.layers;
        let input = self.state->0.input;
        let g = self.projection_gradients(runtime, gradient);
        zip(
            BinaryFn::Add,
            zip(
                BinaryFn::Add,
                l.query.through(runtime, input, g.query),
                l.key.through(runtime, input, g.key),
            ),
            l.value.through(runtime, input, g.value),
        )
    }

    /// What a backward pass adds to the training states.
    pub open spec fn absorbed(
        self,
        before: CudaRuntime,
        after: CudaRuntime,
        end: Qkv<NodeTrainState>,
        gradient: Seq<Term>,
    ) -> bool {
        let l = self.attention.qkv.layers;
        let input = self.state->0.input;
        let x = before.matrix(input);
        let rows = input.rows as nat;
        let g = self.projection_gradients(before, gradient);
        &&& l.query.absorbed(
            before,
            after,
            self.training.query,
            end.query,
            x,
            l.query.inner_gradient(before, input, g.query),
            rows,
        )
        &&& l.key.absorbed(
            before,
            after,
            self.training.key,
            end.key,
            x,
            l.key.inner_gradient(before, input, g.key),
            rows,
        )
        &&& l.value.absorbed(
            before,
            after,
            self.training.value,
            end.value,
            x,
            l.value.inner_gradient(before, input, g.value),
            rows,
        )
    }

    /// Passes a gradient back through the projections, adds their parameter
    /// gradients to the batch and returns the gradient of the input.
    #[verifier::rlimit(80)]
    pub fn backward_self_accumulate(&mut self, gradient: Matrix, runtime: &mut CudaRuntime) -> (r: Matrix)
        requires
            old(runtime).wf(),
            old(self).wf(*old(runtime)),
            old(self).state is Some,
            old(runtime).holds(gradient),
            !old(self).owned().contains(gradient.buffer.id),
            gradient.rows == old(self).state->0.query.rows,
            gradient.cols == old(self).state->0.query.cols,
            old(self).trains_rows(gradient.rows as int),
        ensures
            final(self).attention == old(self).attention,
            final(self).state == old(self).state,
            final(self).wf(*final(runtime)),
            final(self).trains_rows(gradient.rows as int),
            old(self).absorbed(
                *old(runtime),
                *final(runtime),
                final(self).training,
                old(runtime).matrix(gradient),
            ),
            final(runtime).exchanged(
                *old(runtime),
                old(self).parts().insert(gradient.buffer.id),
                final(self).parts().insert(r.buffer.id),
            ),
            !final(self).owned().contains(r.buffer.id),
            final(runtime).holds(r),
            r.rows == old(self).state->0.input.rows,
            r.cols == old(self).state->0.input.cols,
            final(runtime).matrix(r) == old(self).input_gradient(
                *old(runtime),
                old(runtime).matrix(gradient),
            ),
    {
        let ghost before = *runtime;
        let ghost start = *self;
        let ghost l = self.attention.qkv.layers;
        let ghost gid = gradient.buffer.id;
        proof {
            self.lemma_owned_live(before);
        }
        if let Some(state) = self.state.take() {
            let ghost held = state;
            let ghost g = start.projection_gradients(before, before.matrix(gradient));
            let made = pass_to_projections(
                &state.query,
                &state.key,
                &state.value,
                &state.probabilities,
                &gradient,
                HEADS,
                runtime,
            );
            let ghost s1 = *runtime;
            let ghost three = three_ids(made);
            proof {
                assert(three.contains(made.query.buffer.id) && three.contains(made.key.buffer.id)
                    && three.contains(made.value.buffer.id));
                start.lemma_parts_spared(before, s1, Set::empty(), three);
                held.lemma_spared(before, s1, Set::empty(), three);
                lemma_matrix_spared(gradient, before, s1, Set::empty(), three);
            }
            runtime.recycle_matrix(gradient);
            let ghost s2 = *runtime;
            let Qkv { query: to_query, key: to_key, value: to_value } = made;
            proof {
                s2.lemma_replaced_shrunk(s1, gid);
                assert(s2.ran_on(s1, chosen(None)));
                start.lemma_parts_spared(s1, s2, set![gid], Set::empty());
                held.lemma_spared(s1, s2, set![gid], Set::empty());
                lemma_matrix_spared(to_query, s1, s2, set![gid], Set::empty());
                lemma_matrix_spared(to_key, s1, s2, set![gid], Set::empty());
                lemma_matrix_spared(to_value, s1, s2, set![gid], Set::empty());
                assert(held.ids().contains(held.input.buffer.id));
            }
            let from_query = self.attention.qkv.layers.query.consume_gradient(
                &mut self.training.query,
                &state.input,
                to_query,
                runtime,
            );
            let ghost s3 = *runtime;
            let ghost end_query = self.training.query;
            let ghost t3 = start.query_ids().insert(to_query.buffer.id);
            let ghost m3 = trained_ids(l.query, end_query).insert(from_query.buffer.id);
            proof {
                assert(m3.contains(from_query.buffer.id));
                l.key.lemma_trained_ids_live(start.training.key, s2);
                l.value.lemma_trained_ids_live(start.training.value, s2);
                assert(t3.disjoint(start.key_ids()));
                assert(t3.disjoint(start.value_ids()));
                l.key.lemma_spared(start.training.key, s2, s3, t3, m3);
                l.value.lemma_spared(start.training.value, s2, s3, t3, m3);
                assert(t3.disjoint(held.ids()));
                held.lemma_spared(s2, s3, t3, m3);
                lemma_matrix_spared(to_key, s2, s3, t3, m3);
                lemma_matrix_spared(to_value, s2, s3, t3, m3);
                l.query.lemma_trained_ids_live(end_query, s3);
            }
            let from_key = self.attention.qkv.layers.key.consume_gradient(
                &mut self.training.key,
                &state.input,
                to_key,
                runtime,
            );
            let ghost s4 = *runtime;
            let ghost end_key = self.training.key;
            let ghost t4 = start.key_ids().insert(to_key.buffer.id);
            let ghost m4 = trained_ids(l.key, end_key).insert(from_key.buffer.id);
            proof {
                assert(m4.contains(from_key.buffer.id));
                assert(t4.disjoint(trained_ids(l.query, end_query)));
                assert(t4.disjoint(start.value_ids()));
                l.query.lemma_spared(end_query, s3, s4, t4, m4);
                l.value.lemma_spared(start.training.value, s3, s4, t4, m4);
                assert(t4.disjoint(held.ids()));
                held.lemma_spared(s3, s4, t4, m4);
                lemma_matrix_spared(to_value, s3, s4, t4, m4);
                lemma_matrix_spared(from_query, s3, s4, t4, m4);
                l.query.lemma_trained_ids_live(end_query, s4);
                l.key.lemma_trained_ids_live(end_key, s4);
            }
            let from_value = self.attention.qkv.layers.value.consume_gradient(
                &mut self.training.value,
                &state.input,
                to_value,
                runtime,
            );
            let ghost s5 = *runtime;
            let ghost end_value = self.training.value;
            let ghost t5 = start.value_ids().insert(to_value.buffer.id);
            let ghost m5 = trained_ids(l.value, end_value).insert(from_value.buffer.id);
            proof {
                assert(m5.contains(from_value.buffer.id));
                assert(t5.disjoint(trained_ids(l.query, end_query)));
                assert(t5.disjoint(trained_ids(l.key, end_key)));
                l.query.lemma_spared(end_query, s4, s5, t5, m5);
                l.key.lemma_spared(end_key, s4, s5, t5, m5);
                assert(t5.disjoint(held.ids()));
                held.lemma_spared(s4, s5, t5, m5);
                lemma_matrix_spared(from_query, s4, s5, t5, m5);
                lemma_matrix_spared(from_key, s4, s5, t5, m5);
            }
            let sum = add_pair(from_query, from_key, runtime);
            let ghost s6 = *runtime;
            let ghost t6 = set![from_query.buffer.id, from_key.buffer.id];
            let ghost m6 = set![from_query.buffer.id];
            let ghost end = Qkv { query: end_query, key: end_key, value: end_value };
            let ghost last = TrainingAttention::<HEADS> {
                attention: start.attention,
                training: end,
                state: start.state,
            };
            proof {
                assert(last.parts_wf(s5));
                assert(t6.disjoint(last.parts()));
                last.lemma_parts_spared(s5, s6, t6, m6);
                held.lemma_spared(s5, s6, t6, m6);
                lemma_matrix_spared(from_value, s5, s6, t6, m6);
            }
            let total = add_pair(sum, from_value, runtime);
            let ghost t7 = set![from_query.buffer.id, from_value.buffer.id];
            proof {
                assert(t7.disjoint(last.parts()));
                last.lemma_parts_spared(s6, *runtime, t7, m6);
                held.lemma_spared(s6, *runtime, t7, m6);
                l.query.lemma_absorbed_between(
                    before,
                    s2,
                    s3,
                    *runtime,
                    start.training.query,
                    end_query,
                    before.matrix(held.input),
                    l.query.inner_gradient(before, held.input, g.query),
                    held.input.rows as nat,
                );
                l.key.lemma_absorbed_between(
                    before,
                    s3,
                    s4,
                    *runtime,
                    start.training.key,
                    end_key,
                    before.matrix(held.input),
                    l.key.inner_gradient(before, held.input, g.key),
                    held.input.rows as nat,
                );
                l.value.lemma_absorbed_between(
                    before,
                    s4,
                    s5,
                    *runtime,
                    start.training.value,
                    end_value,
                    before.matrix(held.input),
                    l.value.inner_gradient(before, held.input, g.value),
                    held.input.rows as nat,
                );
            }
            self.state = Some(state);
            proof {
                lemma_backward_frame(
                    start,
                    last,
                    before,
                    s1,
                    s2,
                    s3,
                    s4,
                    s5,
                    s6,
                    *runtime,
                    gid,
                    made,
                    from_query.buffer.id,
                    from_key.buffer.id,
                    from_value.buffer.id,
                );
            }
            return total;
        }
        gradient
    }
}

/// The steps of a backward pass taken together.
proof fn lemma_backward_frame<const HEADS: usize>(
    start: TrainingAttention<HEADS>,
    last: TrainingAttention<HEADS>,
    before: CudaRuntime,
    s1: CudaRuntime,
    s2: CudaRuntime,
    s3: CudaRuntime,
    s4: CudaRuntime,
    s5: CudaRuntime,
    s6: CudaRuntime,
    after: CudaRuntime,
    gid: usize,
    made: Qkv<Matrix>,
    q: usize,
    k: usize,
    v: usize,
)
    requires
        before.wf(),
        start.parts().subset_of(before.live@),
        !start.parts().contains(gid),
        before.live@.contains(gid),
        s1.exchanged(before, Set::empty(), three_ids(made)),
        s2.exchanged(s1, set![gid], Set::empty()),
        s3.exchanged(
            s2,
            start.query_ids().insert(made.query.buffer.id),
            last.query_ids().insert(q),
        ),
        s4.exchanged(s3, start.key_ids().insert(made.key.buffer.id), last.key_ids().insert(k)),
        s5.exchanged(s4, start.value_ids().insert(made.value.buffer.id), last.value_ids().insert(v)),
        s6.exchanged(s5, set![q, k], set![q]),
        after.exchanged(s6, set![q, v], set![q]),
        start.query_ids().disjoint(start.key_ids()),
        start.query_ids().disjoint(start.value_ids()),
        start.key_ids().disjoint(start.value_ids()),
        made.query.buffer.id != made.key.buffer.id,
        made.query.buffer.id != made.value.buffer.id,
        made.key.buffer.id != made.value.buffer.id,
        last.parts_wf(s5),
        !last.parts().contains(q) && !last.parts().contains(k) && !last.parts().contains(v),
        q != k && q != v && k != v,
    ensures
        after.exchanged(before, start.parts().insert(gid), last.parts().insert(q)),
{
    let taken = start.parts().insert(gid);
    let held0 = taken;
    before.lemma_replaced_nothing(taken);
    assert(Set::<usize>::empty().subset_of(held0));
    assert(three_ids(made).contains(made.query.buffer.id));
    assert(three_ids(made).contains(made.key.buffer.id));
    assert(three_ids(made).contains(made.value.buffer.id));
    s1.lemma_replaced_again(before, before, taken, held0, Set::empty(), three_ids(made));
    let held1 = held0.difference(Set::empty()).union(three_ids(made));
    s2.lemma_replaced_again(s1, before, taken, held1, set![gid], Set::empty());
    let held2 = held1.difference(set![gid]).union(Set::empty());
    let p3 = start.query_ids().insert(made.query.buffer.id);
    assert(p3.subset_of(held2));
    s3.lemma_replaced_again(s2, before, taken, held2, p3, last.query_ids().insert(q));
    let held3 = held2.difference(p3).union(last.query_ids().insert(q));
    let p4 = start.key_ids().insert(made.key.buffer.id);
    assert(p4.subset_of(held3));
    s4.lemma_replaced_again(s3, before, taken, held3, p4, last.key_ids().insert(k));
    let held4 = held3.difference(p4).union(last.key_ids().insert(k));
    let p5 = start.value_ids().insert(made.value.buffer.id);
    assert forall|id: usize| p5.contains(id) implies held4.contains(id) by {
        assert(start.value_ids().contains(id) ==> before.live@.contains(id));
        assert(!p3.contains(id));
        assert(!p4.contains(id));
        assert(held2.contains(id));
    }
    s5.lemma_replaced_again(s4, before, taken, held4, p5, last.value_ids().insert(v));
    let held5 = held4.difference(p5).union(last.value_ids().insert(v));
    assert(set![q, k].subset_of(held5));
    s6.lemma_replaced_again(s5, before, taken, held5, set![q, k], set![q]);
    let held6 = held5.difference(set![q, k]).union(set![q]);
    assert(set![q, v].subset_of(held6));
    after.lemma_replaced_again(s6, before, taken, held6, set![q, v], set![q]);
    let held7 = held6.difference(set![q, v]).union(set![q]);
    assert(held7 =~= last.parts().insert(q));
}

impl<const HEADS: usize> TrainingAttention<HEADS> {
    /// Whether every projection has a gradient to apply.
    pub open spec fn batch_ready(self) -> bool {
        let l = self.attention.qkv.layers;
        &&& l.query.batch_ready(self.training.query)
        &&& l.key.batch_ready(self.training.key)
        &&& l.value.batch_ready(self.training.value)
    }

    /// The values after an optimizer step.
    pub open spec fn moved(
        self,
        before: CudaRuntime,
        after: CudaRuntime,
        end: Qkv<NodeTrainState>,
        config: LearnConfig,
    ) -> bool {
        let l = self.attention.qkv.layers;
        &&& l.query.moved(before, after, self.training.query, end.query, config)
        &&& l.key.moved(before, after, self.training.key, end.key, config)
        &&& l.value.moved(before, after, self.training.value, end.value, config)
    }

    /// Applies the mean gradients of the accumulated batch with momentum.
    #[verifier::rlimit(40)]
    pub fn learn(
        &mut self,
        learning_rate: Rate,
        momentum: F32,
        batch_len: usize,
        runtime: &mut CudaRuntime,
    )
        requires
            old(runtime).wf(),
            old(self).wf(*old(runtime)),
            (LearnConfig { learning_rate, momentum, batch_len }).valid(),
            old(self).batch_ready(),
        ensures
            final(self).attention == old(self).attention,
            final(self).state == old(self).state,
            final(self).wf(*final(runtime)),
            old(self).moved(
                *old(runtime),
                *final(runtime),
                final(self).training,
                (LearnConfig { learning_rate, momentum, batch_len }),
            ),
            final(runtime).exchanged(
                *old(runtime),
                old(self).parts(),
                final(self).parts(),
            ),
    {
        let ghost before = *runtime;
        let ghost start = *self;
        let ghost l = self.attention.qkv.layers;
        let config = LearnConfig { learning_rate, momentum, batch_len };
        proof {
            self.lemma_owned_live(before);
        }
        self.attention.qkv.layers.query.descend(&mut self.training.query, config, runtime);
        let ghost s1 = *runtime;
        let ghost end_query = self.training.query;
        let ghost m1 = trained_ids(l.query, end_query);
        proof {
            l.query.lemma_learned_exchanged(before, s1, start.training.query, end_query, config);
            l.key.lemma_spared(start.training.key, before, s1, start.query_ids(), m1);
            l.value.lemma_spared(start.training.value, before, s1, start.query_ids(), m1);
            l.key.lemma_trained_ids_live(start.training.key, s1);
            l.value.lemma_trained_ids_live(start.training.value, s1);
            l.query.lemma_trained_ids_live(end_query, s1);
        }
        self.attention.qkv.layers.key.descend(&mut self.training.key, config, runtime);
        let ghost s2 = *runtime;
        let ghost end_key = self.training.key;
        let ghost m2 = trained_ids(l.key, end_key);
        proof {
            l.key.lemma_learned_exchanged(s1, s2, start.training.key, end_key, config);
            l.query.lemma_spared(end_query, s1, s2, start.key_ids(), m2);
            l.value.lemma_spared(start.training.value, s1, s2, start.key_ids(), m2);
            l.query.lemma_trained_ids_live(end_query, s2);
            l.key.lemma_trained_ids_live(end_key, s2);
        }
        self.attention.qkv.layers.value.descend(&mut self.training.value, config, runtime);
        let ghost s3 = *runtime;
        let ghost end_value = self.training.value;
        let ghost m3 = trained_ids(l.value, end_value);
        proof {
            l.value.lemma_learned_exchanged(s2, s3, start.training.value, end_value, config);
            l.query.lemma_spared(end_query, s2, s3, start.value_ids(), m3);
            l.key.lemma_spared(end_key, s2, s3, start.value_ids(), m3);
            lemma_moved_between(
                l.query,
                before,
                before,
                s1,
                s3,
                start.training.query,
                end_query,
                config,
            );
            lemma_moved_between(
                l.key,
                before,
                s1,
                s2,
                s3,
                start.training.key,
                end_key,
                config,
            );
            lemma_moved_between(
                l.value,
                before,
                s2,
                s3,
                s3,
                start.training.value,
                end_value,
                config,
            );
            let taken = start.parts();
            before.lemma_replaced_nothing(taken);
            assert(start.query_ids().subset_of(taken));
            s1.lemma_replaced_again(before, before, taken, taken, start.query_ids(), m1);
            let held1 = taken.difference(start.query_ids()).union(m1);
            assert(start.key_ids().subset_of(held1));
            s2.lemma_replaced_again(s1, before, taken, held1, start.key_ids(), m2);
            let held2 = held1.difference(start.key_ids()).union(m2);
            assert(start.value_ids().subset_of(held2));
            s3.lemma_replaced_again(s2, before, taken, held2, start.value_ids(), m3);
            let held3 = held2.difference(start.value_ids()).union(m3);
            assert(held3 =~= self.parts());
            if let Some(state) = start.state {
                assert(taken.disjoint(state.ids()));
                state.lemma_spared(before, s3, taken, held3);
            }
        }
    }
}

} // verus!
