//! The two stages of a transformer block that is being trained.

use vstd::prelude::*;

use crate::cuda::algebra::{zip, Term};
use crate::cuda::container::{ids, values_of, Matrix};
use crate::cuda::ops::BinaryFn;
use crate::cuda::runtime::{chosen, CudaRuntime};
use crate::cuda::scalar::F32;
use crate::graph::config::LearnConfig;
use crate::graph::schedule::Rate;
use crate::net::gradient::{add_pair, lemma_matrix_spared};
use crate::net::mlp::footprint::{lemma_inputs_spared, stack_ids};
use crate::net::mlp::training::TrainingMlp;
use crate::net::node::binary::{referenced, sum_of_first};
use crate::net::node::{BinaryOp, SingleType, TrainingBinaryNode, TrainingSingleNode};
use crate::net::transformer::attention::training::{AttentionState, TrainingAttention};

verus! {

broadcast use crate::cuda::runtime::group_streams;

/// A node that adds without retaining anything.
pub open spec fn adds(node: TrainingBinaryNode) -> bool {
    node.node.op is Add && node.cache is None
}

/// Adds two matrices that stay.
fn add_borrowed(
    node: &mut TrainingBinaryNode,
    first: &Matrix,
    second: &Matrix,
    runtime: &mut CudaRuntime,
) -> (r: Matrix)
    requires
        old(runtime).wf(),
        adds(*old(node)),
        old(node).wf(*old(runtime)),
        old(runtime).holds(*first),
        old(runtime).holds(*second),
        first.rows == second.rows,
        first.cols == second.cols,
    ensures
        final(node).node == old(node).node,
        adds(*final(node)),
        final(node).forward_pending,
        final(node).input_count == 2,
        final(runtime).grown(*old(runtime), r.buffer.id, None),
        final(runtime).holds(r),
        r.rows == first.rows,
        r.cols == first.cols,
        final(runtime).matrix(r) == zip(
            BinaryFn::Add,
            old(runtime).matrix(*first),
            old(runtime).matrix(*second),
        ),
{
    let mut both: Vec<&Matrix> = Vec::new();
    both.push(first);
    both.push(second);
    proof {
        let two = referenced(both@);
        assert(two =~= seq![*first, *second]);
        reveal_with_fuel(sum_of_first, 3);
        assert forall|k: int| #![trigger two[k]] 0 <= k < two.len() implies two[k].rows == two[0].rows
            && two[k].cols == two[0].cols by {}
        assert forall|k: int| 0 <= k < both@.len() implies runtime.holds(*#[trigger] both@[k]) by {
            if k == 0 {
                assert(*both@[k] == *first);
            } else {
                assert(*both@[k] == *second);
            }
        }
    }
    node.forward_borrowed(&both, runtime)
}

/// Passes a gradient back through an addition of two.
fn split_gradient(node: &mut TrainingBinaryNode, gradient: Matrix, runtime: &mut CudaRuntime) -> (r: (
    Matrix,
    Matrix,
))
    requires
        old(runtime).wf(),
        adds(*old(node)),
        old(node).wf(*old(runtime)),
        old(node).forward_pending,
        old(node).input_count == 2,
        old(runtime).holds(gradient),
    ensures
        final(node).node == old(node).node,
        adds(*final(node)),
        !final(node).forward_pending,
        final(runtime).exchanged(
            *old(runtime),
            set![gradient.buffer.id],
            set![r.0.buffer.id, r.1.buffer.id],
        ),
        r.0.buffer.id != r.1.buffer.id,
        final(runtime).holds(r.0),
        final(runtime).holds(r.1),
        r.0.rows == gradient.rows && r.0.cols == gradient.cols,
        r.1.rows == gradient.rows && r.1.cols == gradient.cols,
        final(runtime).matrix(r.0) == old(runtime).matrix(gradient),
        final(runtime).matrix(r.1) == old(runtime).matrix(gradient),
{
    let ghost before = *runtime;
    let ghost one = node.retained().push(gradient);
    proof {
        assert(one =~= seq![gradient]);
        assert forall|id: usize| #[trigger] ids(one).contains(id) <==> id == gradient.buffer.id by {
            if id == gradient.buffer.id {
                assert(one[0].buffer.id == id);
            }
        }
        assert(ids(one) =~= set![gradient.buffer.id]);
    }
    let mut parts = node.backward(gradient, runtime);
    let ghost all = parts@;
    proof {
        assert forall|id: usize| #[trigger] ids(all).contains(id) <==> id == all[0].buffer.id || id
            == all[1].buffer.id by {
            if id == all[0].buffer.id {
                assert(all[0].buffer.id == id);
            }
        }
        assert(ids(all) =~= set![all[0].buffer.id, all[1].buffer.id]);
        assert(runtime.holds(all[0]) && runtime.holds(all[1]));
    }
    let second = parts.pop();
    let first = parts.pop();
    (first.unwrap(), second.unwrap())
}

/// Attention, its residual and the normalisation after it.
pub struct AttentionStage<const HEADS: usize> {
    pub attention: TrainingAttention<HEADS>,
    pub residual: TrainingBinaryNode,
    pub normalization: TrainingSingleNode,
}

impl<const HEADS: usize> AttentionStage<HEADS> {
    /// All buffers of the stage.
    pub open spec fn owned(self) -> Set<usize> {
        self.attention.owned().union(self.normalization.retained())
    }

    /// The invariant.
    pub open spec fn wf(self, runtime: CudaRuntime) -> bool {
        &&& self.attention.wf(runtime)
        &&& adds(self.residual)
        &&& self.residual.wf(runtime)
        &&& self.normalization.node.op is LayerNorm || self.normalization.node.op is RmsNorm
        &&& self.normalization.wf(runtime)
        &&& self.attention.owned().disjoint(self.normalization.retained())
    }

    /// Nothing is retained.
    pub open spec fn cleared(self) -> bool {
        self.attention.state is None && self.normalization.cache is None
    }

    /// A forward pass over this many rows waits for its backward pass.
    pub open spec fn pending(self, rows: usize) -> bool {
        &&& self.attention.state matches Some(state) && state.input.rows == rows
            && state.input.cols == self.attention.attention.width()
        &&& self.residual.forward_pending && self.residual.input_count == 2
        &&& self.normalization.forward_pending
        &&& self.normalization.cache matches Some(cache) && cache.matrix().rows == rows
            && cache.matrix().cols == self.attention.attention.width()
    }

    /// The buffers of the stage are alive.
    pub proof fn lemma_owned_live(self, runtime: CudaRuntime)
        requires
            self.wf(runtime),
        ensures
            self.owned().subset_of(runtime.live@),
    {
        self.attention.lemma_owned_live(runtime);
    }

    /// The stage stays as it is while other buffers are exchanged.
    pub proof fn lemma_spared(
        self,
        before: CudaRuntime,
        after: CudaRuntime,
        taken: Set<usize>,
        made: Set<usize>,
    )
        requires
            before.wf(),
            self.wf(before),
            after.replaced(before, taken, made),
            taken.disjoint(self.owned()),
        ensures
            self.wf(after),
            made.disjoint(self.owned()),
            self.owned().subset_of(before.live@),
            self.normalization.cache matches Some(cache) ==> after.matrix(cache.matrix())
                == before.matrix(cache.matrix()),
            self.attention.same_parts(before, after),
            self.attention.state matches Some(state) ==> state.same(before, after),
            self.attention.state is Some ==> (forall|g: Seq<Term>| #[trigger]
                self.attention.projection_gradients(after, g)
                    == self.attention.projection_gradients(before, g)),
            self.attention.state is Some ==> (forall|g: Seq<Term>| #[trigger]
                self.attention.input_gradient(after, g) == self.attention.input_gradient(
                    before,
                    g,
                )),
    {
        assert(taken.disjoint(self.attention.owned()));
        self.attention.lemma_spared(before, after, taken, made);
        if self.attention.state is Some {
            self.attention.lemma_values_spared(before, after, taken, made);
        } else {
            assert(taken.disjoint(self.attention.parts()));
            self.attention.lemma_parts_spared(before, after, taken, made);
        }
        if let Some(cache) = self.normalization.cache {
            assert(self.normalization.retained().contains(cache.matrix().buffer.id));
            lemma_matrix_spared(cache.matrix(), before, after, taken, made);
        }
        self.lemma_owned_live(before);
    }

    /// What the stage makes of a matrix.
    pub open spec fn image(
        self,
        runtime: CudaRuntime,
        x: Seq<Term>,
        rows: usize,
        masked: bool,
    ) -> Seq<Term> {
        self.normalization.node.op.image(
            self.sum(runtime, x, rows, masked),
            rows as nat,
            self.attention.attention.width() as nat,
        )
    }

    /// The values before the normalisation.
    pub open spec fn sum(self, runtime: CudaRuntime, x: Seq<Term>, rows: usize, masked: bool) -> Seq<
        Term,
    > {
        zip(
            BinaryFn::Add,
            x,
            self.attention.attention.image(runtime, x, rows, x, rows, masked),
        )
    }

    /// Runs the stage and retains what its backward pass needs.
    #[verifier::rlimit(60)]
    pub fn forward<const MASKED: bool>(&mut self, input: Matrix, runtime: &mut CudaRuntime) -> (r: Matrix)
        requires
            old(runtime).wf(),
            old(self).wf(*old(runtime)),
            old(self).cleared(),
            old(self).attention.attention.accepts(*old(runtime), input, input, MASKED),
            input.cols == old(self).attention.attention.width(),
            !old(self).owned().contains(input.buffer.id),
        ensures
            final(self).attention.attention.qkv.layers == old(self).attention.attention.qkv.layers,
            final(self).attention.attention.qkv.streams is Some,
            old(self).attention.attention.qkv.streams is Some ==> final(self).attention.attention.qkv.streams == old(
                self,
            ).attention.attention.qkv.streams,
            final(self).attention.training == old(self).attention.training,
            final(self).residual.node == old(self).residual.node,
            final(self).normalization.node == old(self).normalization.node,
            final(self).wf(*final(runtime)),
            final(self).pending(input.rows),
            old(self).attention.same_parts(*old(runtime), *final(runtime)),
            final(self).attention.state->0.input == input,
            final(runtime).matrix(input) == old(runtime).matrix(input),
            old(self).attention.attention.remembers(
                *old(runtime),
                *final(runtime),
                old(runtime).matrix(input),
                final(self).attention.state->0,
                MASKED,
            ),
            final(runtime).matrix(final(self).normalization.cache->0.matrix()) == old(self).sum(
                *old(runtime),
                old(runtime).matrix(input),
                input.rows,
                MASKED,
            ),
            final(runtime).replaced(
                *old(runtime),
                old(self).owned().insert(input.buffer.id),
                final(self).owned().insert(r.buffer.id),
            ),
            !final(self).owned().contains(r.buffer.id),
            final(runtime).holds(r),
            r.rows == input.rows,
            r.cols == input.cols,
            final(runtime).matrix(r) == old(self).image(
                *old(runtime),
                old(runtime).matrix(input),
                input.rows,
                MASKED,
            ),
    {
        let ghost before = *runtime;
        let ghost start = *self;
        let ghost x = before.matrix(input);
        proof {
            start.lemma_owned_live(before);
        }
        let (attention, state) = self.attention.forward_self_training::<MASKED>(input, runtime);
        let ghost s1 = *runtime;
        let ghost held = state;
        let ghost made1 = state.made().insert(attention.buffer.id);
        let pre = add_borrowed(&mut self.residual, &state.input, &attention, runtime);
        let ghost s2 = *runtime;
        let ghost aid = attention.buffer.id;
        let ghost pid = pre.buffer.id;
        proof {
            s2.lemma_replaced_grown(s1, pid, None);
            lemma_matrix_spared(attention, s1, s2, Set::empty(), set![pid]);
            self.attention.lemma_spared(s1, s2, Set::empty(), set![pid]);
            held.lemma_spared(s1, s2, Set::empty(), set![pid]);
        }
        runtime.recycle_matrix(attention);
        let ghost s3 = *runtime;
        proof {
            s3.lemma_replaced_shrunk(s2, aid);
            assert(!self.attention.owned().contains(aid)) by {
                assert(made1.contains(aid));
            }
            self.attention.lemma_spared(s2, s3, set![aid], Set::empty());
            held.lemma_spared(s2, s3, set![aid], Set::empty());
            lemma_matrix_spared(pre, s2, s3, set![aid], Set::empty());
        }
        self.attention.retain_training_state(state);
        let ghost a3 = self.attention;
        proof {
            assert(set![pid].contains(pid));
            assert(a3.owned() =~= start.attention.owned().union(held.ids()));
            assert(a3.wf(s3));
        }
        let output = self.normalization.forward(pre, runtime);
        let ghost taken4 = set![pid];
        let ghost made4 = set![pid].insert(output.buffer.id);
        proof {
            assert(start.normalization.retained().insert(pid) =~= taken4);
            assert(self.normalization.retained() =~= set![pid]);
            assert(self.normalization.retained().insert(output.buffer.id) =~= made4);
            assert(taken4.disjoint(a3.owned()));
            a3.lemma_spared(s3, *runtime, taken4, made4);
            held.lemma_spared(s3, *runtime, taken4, made4);
            assert(made4.contains(output.buffer.id) && made4.contains(pid));
            assert(self.owned() =~= start.owned().union(held.ids()).insert(pid));
            lemma_forward_frame(
                start,
                *self,
                before,
                s1,
                s2,
                s3,
                *runtime,
                held,
                aid,
                pid,
                output.buffer.id,
            );
        }
        output
    }
}

/// The steps of a forward pass taken together.
proof fn lemma_forward_frame<const HEADS: usize>(
    start: AttentionStage<HEADS>,
    end: AttentionStage<HEADS>,
    before: CudaRuntime,
    s1: CudaRuntime,
    s2: CudaRuntime,
    s3: CudaRuntime,
    after: CudaRuntime,
    held: AttentionState,
    aid: usize,
    pid: usize,
    out: usize,
)
    requires
        before.wf(),
        start.owned().subset_of(before.live@),
        start.cleared(),
        before.live@.contains(held.input.buffer.id),
        !start.owned().contains(held.input.buffer.id),
        s1.replaced(before, Set::empty(), held.made().insert(aid)),
        s2.replaced(s1, Set::empty(), set![pid]),
        s3.replaced(s2, set![aid], Set::empty()),
        after.replaced(s3, set![pid], set![pid].insert(out)),
        end.owned() == start.owned().union(held.ids()).insert(pid),
        !held.ids().contains(aid),
        !start.owned().contains(aid),
        aid != pid,
    ensures
        after.replaced(
            before,
            start.owned().insert(held.input.buffer.id),
            end.owned().insert(out),
        ),
{
    let taken = start.owned().insert(held.input.buffer.id);
    let first = held.made().insert(aid);
    before.lemma_replaced_nothing(taken);
    assert(Set::<usize>::empty().subset_of(taken));
    s1.lemma_replaced_again(before, before, taken, taken, Set::empty(), first);
    let held1 = taken.difference(Set::empty()).union(first);
    assert(Set::<usize>::empty().subset_of(held1));
    s2.lemma_replaced_again(s1, before, taken, held1, Set::empty(), set![pid]);
    let held2 = held1.difference(Set::empty()).union(set![pid]);
    assert(set![aid].subset_of(held2));
    s3.lemma_replaced_again(s2, before, taken, held2, set![aid], Set::empty());
    let held3 = held2.difference(set![aid]).union(Set::empty());
    assert(set![pid].subset_of(held3));
    after.lemma_replaced_again(s3, before, taken, held3, set![pid], set![pid].insert(out));
    let held4 = held3.difference(set![pid]).union(set![pid].insert(out));
    assert(held4 =~= end.owned().insert(out));
}

impl<const HEADS: usize> AttentionStage<HEADS> {
    /// The gradient before the normalisation.
    pub open spec fn inner_gradient(
        self,
        runtime: CudaRuntime,
        gradient: Seq<Term>,
        rows: nat,
        cols: nat,
    ) -> Seq<Term> {
        self.normalization.node.op.pullback(
            runtime.matrix(self.normalization.cache->0.matrix()),
            gradient,
            rows,
            cols,
        )
    }

    /// Passes a gradient back: through the normalisation, then both past and
    /// through the attention.
    #[verifier::rlimit(60)]
    pub fn backward(&mut self, gradient: Matrix, runtime: &mut CudaRuntime) -> (r: Matrix)
        requires
            old(runtime).wf(),
            old(self).wf(*old(runtime)),
            old(self).pending(gradient.rows),
            gradient.cols == old(self).attention.attention.width(),
            old(self).attention.trains_rows(gradient.rows as int),
            old(runtime).holds(gradient),
            !old(self).owned().contains(gradient.buffer.id),
        ensures
            final(self).attention.attention == old(self).attention.attention,
            final(self).attention.state == old(self).attention.state,
            final(self).attention.trains_rows(gradient.rows as int),
            final(self).residual.node == old(self).residual.node,
            final(self).normalization.node == old(self).normalization.node,
            final(self).normalization.cache is None,
            final(self).wf(*final(runtime)),
            old(self).attention.absorbed(
                *old(runtime),
                *final(runtime),
                final(self).attention.training,
                old(self).inner_gradient(
                    *old(runtime),
                    old(runtime).matrix(gradient),
                    gradient.rows as nat,
                    gradient.cols as nat,
                ),
            ),
            final(runtime).exchanged(
                *old(runtime),
                old(self).owned().insert(gradient.buffer.id),
                final(self).owned().insert(r.buffer.id),
            ),
            !final(self).owned().contains(r.buffer.id),
            final(runtime).holds(r),
            r.rows == gradient.rows,
            r.cols == gradient.cols,
            final(runtime).matrix(r) == zip(
                BinaryFn::Add,
                old(self).inner_gradient(
                    *old(runtime),
                    old(runtime).matrix(gradient),
                    gradient.rows as nat,
                    gradient.cols as nat,
                ),
                old(self).attention.input_gradient(
                    *old(runtime),
                    old(self).inner_gradient(
                    *old(runtime),
                    old(runtime).matrix(gradient),
                    gradient.rows as nat,
                    gradient.cols as nat,
                ),
                ),
            ),
    {
        let ghost before = *runtime;
        let ghost start = *self;
        let ghost a = self.attention;
        let ghost state = self.attention.state->0;
        let ghost gid = gradient.buffer.id;
        let ghost nid = self.normalization.cache->0.matrix().buffer.id;
        proof {
            start.lemma_owned_live(before);
            assert(start.normalization.retained().contains(nid));
            a.lemma_owned_live(before);
        }
        let passed = self.normalization.backward(gradient, runtime);
        let ghost s1 = *runtime;
        let ghost taken1 = set![nid, gid];
        let ghost pid = passed.buffer.id;
        proof {
            assert(start.normalization.retained().insert(gid) =~= taken1);
            assert(taken1.disjoint(a.owned()));
            assert(set![pid].contains(pid));
            a.lemma_values_spared(before, s1, taken1, set![pid]);
        }
        let ghost inner = start.inner_gradient(
            before,
            before.matrix(gradient),
            gradient.rows as nat,
            gradient.cols as nat,
        );
        let (direct, through) = split_gradient(&mut self.residual, passed, runtime);
        let ghost s2 = *runtime;
        let ghost did = direct.buffer.id;
        let ghost tid = through.buffer.id;
        proof {
            assert(set![did, tid].contains(did) && set![did, tid].contains(tid));
            assert(set![pid].disjoint(a.owned()));
            a.lemma_values_spared(s1, s2, set![pid], set![did, tid]);
        }
        let projected = self.attention.backward_self_accumulate(through, runtime);
        let ghost s3 = *runtime;
        let ghost taken3 = a.parts().insert(tid);
        let ghost made3 = self.attention.parts().insert(projected.buffer.id);
        let ghost qid = projected.buffer.id;
        proof {
            assert(made3.contains(qid));
            assert(!taken3.contains(did));
            lemma_matrix_spared(direct, s2, s3, taken3, made3);
        }
        let ghost a3 = self.attention;
        let total = add_pair(direct, projected, runtime);
        let ghost taken4 = set![did, qid];
        proof {
            assert(taken4.disjoint(a3.owned())) by {
                a3.lemma_owned_live(s3);
                assert(a3.owned() =~= a3.parts().union(state.ids()));
                assert(!state.ids().contains(did)) by {
                    assert(a.owned().contains(did) || !state.ids().contains(did));
                }
            }
            a3.lemma_values_spared(s3, *runtime, taken4, set![did]);
            a.lemma_absorbed_moved(before, s2, s3, *runtime, a3.training, inner);
            lemma_backward_frame(
                start,
                *self,
                before,
                s1,
                s2,
                s3,
                *runtime,
                gid,
                nid,
                pid,
                did,
                tid,
                qid,
            );
        }
        total
    }
}

/// The steps of a backward pass taken together.
proof fn lemma_backward_frame<const HEADS: usize>(
    start: AttentionStage<HEADS>,
    end: AttentionStage<HEADS>,
    before: CudaRuntime,
    s1: CudaRuntime,
    s2: CudaRuntime,
    s3: CudaRuntime,
    after: CudaRuntime,
    gid: usize,
    nid: usize,
    pid: usize,
    did: usize,
    tid: usize,
    qid: usize,
)
    requires
        before.wf(),
        start.owned().subset_of(before.live@),
        before.live@.contains(gid),
        !start.owned().contains(gid),
        start.owned().contains(nid),
        start.attention.state is Some,
        end.attention.state == start.attention.state,
        start.attention.retained().disjoint(start.attention.parts()),
        start.normalization.retained() == set![nid],
        !start.attention.owned().contains(nid),
        end.normalization.retained() == Set::<usize>::empty(),
        s1.exchanged(before, set![nid, gid], set![pid]),
        s2.exchanged(s1, set![pid], set![did, tid]),
        s3.exchanged(
            s2,
            start.attention.parts().insert(tid),
            end.attention.parts().insert(qid),
        ),
        after.exchanged(s3, set![did, qid], set![did]),
        did != tid,
        !start.attention.owned().contains(did),
        !start.attention.owned().contains(tid),
        !end.attention.owned().contains(did),
        !end.attention.owned().contains(qid),
        qid != did,
    ensures
        after.exchanged(
            before,
            start.owned().insert(gid),
            end.owned().insert(did),
        ),
{
    let taken = start.owned().insert(gid);
    before.lemma_replaced_nothing(taken);
    assert(set![nid, gid].subset_of(taken));
    s1.lemma_replaced_again(before, before, taken, taken, set![nid, gid], set![pid]);
    let held1 = taken.difference(set![nid, gid]).union(set![pid]);
    assert(set![pid].subset_of(held1));
    s2.lemma_replaced_again(s1, before, taken, held1, set![pid], set![did, tid]);
    let held2 = held1.difference(set![pid]).union(set![did, tid]);
    let part = start.attention.parts().insert(tid);
    assert forall|id: usize| part.contains(id) implies held2.contains(id) by {
        if id != tid {
            assert(start.attention.owned().contains(id));
            assert(start.owned().contains(id));
            assert(before.live@.contains(id));
            if id == pid {
                assert(set![pid].contains(pid));
            }
        }
    }
    let made = end.attention.parts().insert(qid);
    s3.lemma_replaced_again(s2, before, taken, held2, part, made);
    let held3 = held2.difference(part).union(made);
    assert(set![did, qid].subset_of(held3));
    after.lemma_replaced_again(s3, before, taken, held3, set![did, qid], set![did]);
    let held4 = held3.difference(set![did, qid]).union(set![did]);
    assert forall|id: usize| #[trigger] held4.contains(id) <==> end.owned().insert(did).contains(id) by {
        if start.attention.retained().contains(id) {
            assert(start.attention.owned().contains(id));
            assert(before.live@.contains(id));
            if id == pid {
                assert(set![pid].contains(pid));
            }
        }
    }
    assert(held4 =~= end.owned().insert(did));
}

/// The multilayer perceptron, its residual and the normalisation after it.
pub struct FeedForwardStage {
    pub fcs: TrainingMlp,
    pub residual: TrainingBinaryNode,
    pub normalization: TrainingSingleNode,
}

impl FeedForwardStage {
    /// All buffers of the stage.
    pub open spec fn owned(self) -> Set<usize> {
        self.fcs.owned().union(self.normalization.retained())
    }

    /// The invariant.
    pub open spec fn wf(self, runtime: CudaRuntime) -> bool {
        &&& self.fcs.wf(runtime)
        &&& adds(self.residual)
        &&& self.residual.wf(runtime)
        &&& self.normalization.node.op is LayerNorm || self.normalization.node.op is RmsNorm
        &&& self.normalization.wf(runtime)
        &&& self.fcs.owned().disjoint(self.normalization.retained())
    }

    /// Nothing is retained.
    pub open spec fn cleared(self) -> bool {
        self.fcs.layer_inputs@.len() == 0 && self.normalization.cache is None
    }

    /// The layers map to the width that they start from.
    pub open spec fn square(self, width: usize) -> bool {
        &&& self.fcs.executor.width(0) == width
        &&& self.fcs.executor.width(self.fcs.executor.layers@.len() as int) == width
    }

    /// A forward pass over this many rows waits for its backward pass.
    pub open spec fn pending(self, runtime: CudaRuntime, rows: usize, cols: usize) -> bool {
        &&& self.fcs.executor.retains(
            runtime,
            self.fcs.layer_inputs@,
            rows,
            self.fcs.executor.layers@.len() as int,
        )
        &&& self.residual.forward_pending && self.residual.input_count == 2
        &&& self.normalization.forward_pending
        &&& self.normalization.cache matches Some(cache) && cache.matrix().rows == rows
            && cache.matrix().cols == cols
    }

    /// The buffers of the stage are alive.
    pub proof fn lemma_owned_live(self, runtime: CudaRuntime)
        requires
            self.wf(runtime),
        ensures
            self.owned().subset_of(runtime.live@),
    {
        self.fcs.lemma_owned_live(runtime);
    }

    /// The stage stays as it is while other buffers are exchanged.
    pub proof fn lemma_spared(
        self,
        before: CudaRuntime,
        after: CudaRuntime,
        taken: Set<usize>,
        made: Set<usize>,
    )
        requires
            before.wf(),
            self.wf(before),
            after.replaced(before, taken, made),
            taken.disjoint(self.owned()),
        ensures
            self.wf(after),
            made.disjoint(self.owned()),
            self.owned().subset_of(before.live@),
            self.normalization.cache matches Some(cache) ==> after.matrix(cache.matrix())
                == before.matrix(cache.matrix()),
            values_of(after, self.fcs.layer_inputs@) == values_of(before, self.fcs.layer_inputs@),
            self.fcs.same_parts(before, after),
            forall|rows: usize, cols: usize|
                self.pending(before, rows, cols) ==> #[trigger] self.pending(after, rows, cols),
    {
        assert(taken.disjoint(self.fcs.owned()));
        self.fcs.lemma_spared(before, after, taken, made);
        if let Some(cache) = self.normalization.cache {
            assert(self.normalization.retained().contains(cache.matrix().buffer.id));
            lemma_matrix_spared(cache.matrix(), before, after, taken, made);
        }
        self.lemma_owned_live(before);
    }

    /// The values before the normalisation.
    pub open spec fn sum(self, runtime: CudaRuntime, x: Seq<Term>, rows: usize) -> Seq<Term> {
        let ex = self.fcs.executor;
        zip(BinaryFn::Add, x, ex.stage(runtime, x, rows as nat, ex.layers@.len() as int))
    }

    /// What the stage makes of a matrix.
    pub open spec fn image(self, runtime: CudaRuntime, x: Seq<Term>, rows: usize, cols: usize) -> Seq<
        Term,
    > {
        self.normalization.node.op.image(
            self.sum(runtime, x, rows),
            rows as nat,
            cols as nat,
        )
    }

    /// Runs the stage and retains what its backward pass needs.
    #[verifier::rlimit(60)]
    pub fn forward(&mut self, input: Matrix, runtime: &mut CudaRuntime) -> (r: Matrix)
        requires
            old(runtime).wf(),
            old(self).wf(*old(runtime)),
            old(self).cleared(),
            old(self).square(input.cols),
            old(self).fcs.executor.accepts(*old(runtime), input),
            input.rows <= u32::MAX,
            !old(self).owned().contains(input.buffer.id),
        ensures
            final(self).fcs.executor == old(self).fcs.executor,
            final(self).fcs.training == old(self).fcs.training,
            final(self).residual.node == old(self).residual.node,
            final(self).normalization.node == old(self).normalization.node,
            final(self).wf(*final(runtime)),
            final(self).pending(*final(runtime), input.rows, input.cols),
            old(self).fcs.same_parts(*old(runtime), *final(runtime)),
            forall|i: int|
                0 <= i < old(self).fcs.executor.layers@.len() ==> final(runtime).matrix(
                    #[trigger] final(self).fcs.layer_inputs@[i],
                ) == old(self).fcs.executor.stage(
                    *old(runtime),
                    old(runtime).matrix(input),
                    input.rows as nat,
                    i,
                ),
            final(runtime).matrix(final(self).normalization.cache->0.matrix()) == old(self).sum(
                *old(runtime),
                old(runtime).matrix(input),
                input.rows,
            ),
            final(runtime).exchanged(
                *old(runtime),
                old(self).owned().insert(input.buffer.id),
                final(self).owned().insert(r.buffer.id),
            ),
            !final(self).owned().contains(r.buffer.id),
            final(runtime).holds(r),
            r.rows == input.rows,
            r.cols == input.cols,
            final(runtime).matrix(r) == old(self).image(
                *old(runtime),
                old(runtime).matrix(input),
                input.rows,
                input.cols,
            ),
    {
        let ghost before = *runtime;
        let ghost start = *self;
        let ghost x = before.matrix(input);
        let ghost iid = input.buffer.id;
        proof {
            start.lemma_owned_live(before);
            assert(!start.fcs.parts_own(iid)) by {
                if start.fcs.parts_own(iid) {
                    assert(start.fcs.parts().contains(iid));
                }
            }
        }
        let ffn = self.fcs.forward(input, runtime);
        let ghost s1 = *runtime;
        let ghost fid = ffn.buffer.id;
        let ghost f1 = self.fcs;
        proof {
            f1.lemma_ran(start.fcs, before, s1, input, ffn);
            assert(!f1.owned().contains(fid)) by {
                if f1.parts().contains(fid) {
                    assert(f1.parts_own(fid));
                }
            }
            f1.lemma_owned_live(s1);
            assert(s1.holds(f1.layer_inputs@[0]));
            assert(f1.executor.stage(before, x, input.rows as nat, 0) == x);
        }
        let pre = add_borrowed(&mut self.residual, &self.fcs.layer_inputs[0], &ffn, runtime);
        let ghost s2 = *runtime;
        let ghost pid = pre.buffer.id;
        proof {
            s2.lemma_replaced_grown(s1, pid, None);
            f1.lemma_spared(s1, s2, Set::empty(), set![pid]);
            lemma_matrix_spared(ffn, s1, s2, Set::empty(), set![pid]);
            assert(set![pid].contains(pid));
        }
        runtime.recycle_matrix(ffn);
        let ghost s3 = *runtime;
        proof {
            s3.lemma_replaced_shrunk(s2, fid);
            assert(s3.ran_on(s2, chosen(None)));
            f1.lemma_spared(s2, s3, set![fid], Set::empty());
            lemma_matrix_spared(pre, s2, s3, set![fid], Set::empty());
        }
        let output = self.normalization.forward(pre, runtime);
        let ghost taken4 = set![pid];
        let ghost made4 = set![pid].insert(output.buffer.id);
        proof {
            assert(start.normalization.retained().insert(pid) =~= taken4);
            assert(self.normalization.retained() =~= set![pid]);
            assert(self.normalization.retained().insert(output.buffer.id) =~= made4);
            assert(taken4.disjoint(f1.owned()));
            f1.lemma_spared(s3, *runtime, taken4, made4);
            assert(made4.contains(output.buffer.id) && made4.contains(pid));
            assert forall|i: int|
                0 <= i < f1.executor.layers@.len() implies runtime.matrix(
                #[trigger] f1.layer_inputs@[i],
            ) == f1.executor.stage(before, x, input.rows as nat, i) by {
                assert(values_of(*runtime, f1.layer_inputs@)[i] == values_of(s1, f1.layer_inputs@)[i]);
            }
            let taken = start.owned().insert(iid);
            let more = start.fcs.owned().insert(iid);
            assert(taken =~= more);
            let held1 = f1.owned().insert(fid);
            assert(Set::<usize>::empty().subset_of(held1));
            s2.lemma_replaced_again(s1, before, taken, held1, Set::empty(), set![pid]);
            let held2 = held1.difference(Set::empty()).union(set![pid]);
            assert(set![fid].subset_of(held2));
            s3.lemma_replaced_again(s2, before, taken, held2, set![fid], Set::empty());
            let held3 = held2.difference(set![fid]).union(Set::empty());
            assert(taken4.subset_of(held3));
            runtime.lemma_replaced_again(s3, before, taken, held3, taken4, made4);
            let held4 = held3.difference(taken4).union(made4);
            assert(held4 =~= self.owned().insert(output.buffer.id));
        }
        output
    }

    /// The gradient before the normalisation.
    pub open spec fn inner_gradient(
        self,
        runtime: CudaRuntime,
        gradient: Seq<Term>,
        rows: nat,
        cols: nat,
    ) -> Seq<Term> {
        self.normalization.node.op.pullback(
            runtime.matrix(self.normalization.cache->0.matrix()),
            gradient,
            rows,
            cols,
        )
    }

    /// Passes a gradient back: through the normalisation, then both past and
    /// through the layers.
    #[verifier::rlimit(60)]
    pub fn backward(&mut self, gradient: Matrix, runtime: &mut CudaRuntime) -> (r: Matrix)
        requires
            old(runtime).wf(),
            old(self).wf(*old(runtime)),
            old(self).square(gradient.cols),
            old(self).pending(*old(runtime), gradient.rows, gradient.cols),
            old(self).fcs.executor.trains_rows(gradient.rows as int),
            old(runtime).holds(gradient),
            gradient.rows <= u32::MAX,
            !old(self).owned().contains(gradient.buffer.id),
        ensures
            final(self).fcs.executor == old(self).fcs.executor,
            final(self).fcs.layer_inputs == old(self).fcs.layer_inputs,
            final(self).residual.node == old(self).residual.node,
            final(self).normalization.node == old(self).normalization.node,
            final(self).normalization.cache is None,
            final(self).wf(*final(runtime)),
            old(self).fcs.executor.all_absorbed(
                *old(runtime),
                *final(runtime),
                old(self).fcs.training@,
                final(self).fcs.training@,
                values_of(*old(runtime), old(self).fcs.layer_inputs@),
                gradient.rows as nat,
                old(self).inner_gradient(
                    *old(runtime),
                    old(runtime).matrix(gradient),
                    gradient.rows as nat,
                    gradient.cols as nat,
                ),
            ),
            final(runtime).exchanged(
                *old(runtime),
                old(self).owned().insert(gradient.buffer.id),
                final(self).owned().insert(r.buffer.id),
            ),
            !final(self).owned().contains(r.buffer.id),
            final(runtime).holds(r),
            r.rows == gradient.rows,
            r.cols == gradient.cols,
            final(runtime).matrix(r) == zip(
                BinaryFn::Add,
                old(self).inner_gradient(
                    *old(runtime),
                    old(runtime).matrix(gradient),
                    gradient.rows as nat,
                    gradient.cols as nat,
                ),
                old(self).fcs.executor.upstream(
                    *old(runtime),
                    values_of(*old(runtime), old(self).fcs.layer_inputs@),
                    gradient.rows as nat,
                    old(self).inner_gradient(
                    *old(runtime),
                    old(runtime).matrix(gradient),
                    gradient.rows as nat,
                    gradient.cols as nat,
                ),
                    0,
                ),
            ),
    {
        let ghost before = *runtime;
        let ghost start = *self;
        let ghost f0 = self.fcs;
        let ghost ex = self.fcs.executor;
        let ghost gid = gradient.buffer.id;
        let ghost nid = self.normalization.cache->0.matrix().buffer.id;
        let ghost rows = gradient.rows as nat;
        let ghost inputs = values_of(before, f0.layer_inputs@);
        proof {
            start.lemma_owned_live(before);
            assert(start.normalization.retained().contains(nid));
            f0.lemma_owned_live(before);
        }
        let passed = self.normalization.backward(gradient, runtime);
        let ghost s1 = *runtime;
        let ghost taken1 = set![nid, gid];
        let ghost pid = passed.buffer.id;
        proof {
            assert(start.normalization.retained().insert(gid) =~= taken1);
            assert(taken1.disjoint(f0.owned()));
            assert(set![pid].contains(pid));
            f0.lemma_spared(before, s1, taken1, set![pid]);
        }
        let ghost inner = start.inner_gradient(
            before,
            before.matrix(gradient),
            gradient.rows as nat,
            gradient.cols as nat,
        );
        let (direct, through) = split_gradient(&mut self.residual, passed, runtime);
        let ghost s2 = *runtime;
        let ghost did = direct.buffer.id;
        let ghost tid = through.buffer.id;
        proof {
            assert(set![did, tid].contains(did) && set![did, tid].contains(tid));
            assert(set![pid].disjoint(f0.owned()));
            f0.lemma_spared(s1, s2, set![pid], set![did, tid]);
            f0.lemma_gradients_owned(tid);
        }
        let back = self.fcs.backward_accumulate(&through, runtime);
        let ghost s3 = *runtime;
        let ghost f3 = self.fcs;
        let ghost bid = back.buffer.id;
        let ghost made3 = stack_ids(ex, f3.training@).insert(bid);
        proof {
            ex.lemma_backpropagated_exchanged(
                s2,
                s3,
                f0.layer_inputs@,
                through,
                f0.training@,
                f3.training@,
                back,
            );
            assert(made3.contains(bid));
            lemma_matrix_spared(direct, s2, s3, f0.parts(), made3);
            lemma_matrix_spared(through, s2, s3, f0.parts(), made3);
            lemma_inputs_spared(f0, f3, s2, s3, made3);
            f3.lemma_owned_live(s3);
            assert(f3.owned() =~= f3.parts().union(ids(f0.layer_inputs@)));
        }
        runtime.recycle_matrix(through);
        let ghost s4 = *runtime;
        proof {
            s4.lemma_replaced_shrunk(s3, tid);
            assert(s4.ran_on(s3, chosen(None)));
            f3.lemma_spared(s3, s4, set![tid], Set::empty());
            lemma_matrix_spared(direct, s3, s4, set![tid], Set::empty());
            lemma_matrix_spared(back, s3, s4, set![tid], Set::empty());
        }
        let total = add_pair(direct, back, runtime);
        let ghost taken5 = set![did, bid];
        proof {
            assert(taken5.disjoint(f3.owned()));
            f3.lemma_spared(s4, *runtime, taken5, set![did]);
            ex.lemma_upstream_kept(before, s2, inputs, rows, inner, 0);
            ex.lemma_all_absorbed_moved(
                before,
                s2,
                s3,
                *runtime,
                f0.training@,
                f3.training@,
                inputs,
                rows,
                inner,
            );
            lemma_feed_backward_frame(
                before,
                s1,
                s2,
                s3,
                s4,
                *runtime,
                f0.parts(),
                f3.parts(),
                ids(f0.layer_inputs@),
                gid,
                nid,
                pid,
                did,
                tid,
                bid,
            );
            assert(start.owned() =~= f0.parts().union(ids(f0.layer_inputs@)).insert(nid));
            assert(self.owned() =~= f3.parts().union(ids(f0.layer_inputs@)));
        }
        total
    }
}

/// The steps of a backward pass taken together.
proof fn lemma_feed_backward_frame(
    before: CudaRuntime,
    s1: CudaRuntime,
    s2: CudaRuntime,
    s3: CudaRuntime,
    s4: CudaRuntime,
    after: CudaRuntime,
    parts: Set<usize>,
    parts_after: Set<usize>,
    inputs: Set<usize>,
    gid: usize,
    nid: usize,
    pid: usize,
    did: usize,
    tid: usize,
    bid: usize,
)
    requires
        before.wf(),
        parts.union(inputs).insert(nid).insert(gid).subset_of(before.live@),
        parts.disjoint(inputs),
        !parts.contains(nid) && !inputs.contains(nid),
        !parts.contains(gid) && !inputs.contains(gid) && gid != nid,
        s1.replaced(before, set![nid, gid], set![pid]),
        s2.replaced(s1, set![pid], set![did, tid]),
        s3.replaced(s2, parts, parts_after.insert(bid)),
        s4.replaced(s3, set![tid], Set::empty()),
        after.replaced(s4, set![did, bid], set![did]),
        did != tid && bid != did && bid != tid,
        !parts.contains(did) && !parts.contains(tid) && !parts.contains(pid),
        !parts_after.contains(did) && !parts_after.contains(tid) && !parts_after.contains(bid),
        !inputs.contains(did) && !inputs.contains(tid) && !inputs.contains(bid)
            && !inputs.contains(pid),
    ensures
        after.replaced(
            before,
            parts.union(inputs).insert(nid).insert(gid),
            parts_after.union(inputs).insert(did),
        ),
{
    let taken = parts.union(inputs).insert(nid).insert(gid);
    before.lemma_replaced_nothing(taken);
    assert(set![nid, gid].subset_of(taken));
    s1.lemma_replaced_again(before, before, taken, taken, set![nid, gid], set![pid]);
    let held1 = taken.difference(set![nid, gid]).union(set![pid]);
    assert(held1 =~= parts.union(inputs).insert(pid));
    assert(set![pid].subset_of(held1));
    s2.lemma_replaced_again(s1, before, taken, held1, set![pid], set![did, tid]);
    let held2 = held1.difference(set![pid]).union(set![did, tid]);
    assert(held2 =~= parts.union(inputs).insert(did).insert(tid));
    assert(parts.subset_of(held2));
    s3.lemma_replaced_again(s2, before, taken, held2, parts, parts_after.insert(bid));
    let held3 = held2.difference(parts).union(parts_after.insert(bid));
    assert(held3 =~= parts_after.union(inputs).insert(did).insert(tid).insert(bid));
    assert(set![tid].subset_of(held3));
    s4.lemma_replaced_again(s3, before, taken, held3, set![tid], Set::empty());
    let held4 = held3.difference(set![tid]).union(Set::empty());
    assert(held4 =~= parts_after.union(inputs).insert(did).insert(bid));
    assert(set![did, bid].subset_of(held4));
    after.lemma_replaced_again(s4, before, taken, held4, set![did, bid], set![did]);
    let held5 = held4.difference(set![did, bid]).union(set![did]);
    assert(held5 =~= parts_after.union(inputs).insert(did));
}

impl<const HEADS: usize> AttentionStage<HEADS> {
    pub fn new(attention: TrainingAttention<HEADS>, op: SingleType) -> (r: Self)
        ensures
            r.attention == attention,
            adds(r.residual),
            !r.residual.forward_pending,
            r.normalization.node.op == op,
            !r.normalization.forward_pending,
            r.normalization.cache is None,
    {
        AttentionStage {
            attention,
            residual: TrainingBinaryNode::new(BinaryOp::Add),
            normalization: TrainingSingleNode::new(op),
        }
    }

    /// Gives back what is retained.
    pub fn clear_cache(&mut self, runtime: &mut CudaRuntime)
        requires
            old(runtime).wf(),
            old(self).wf(*old(runtime)),
        ensures
            final(self).attention.attention == old(self).attention.attention,
            final(self).attention.training == old(self).attention.training,
            final(self).residual.node == old(self).residual.node,
            final(self).normalization.node == old(self).normalization.node,
            final(self).cleared(),
            final(self).wf(*final(runtime)),
            old(self).attention.same_parts(*old(runtime), *final(runtime)),
            final(runtime).exchanged(*old(runtime), old(self).owned(), final(self).owned()),
    {
        let ghost before = *runtime;
        let ghost start = *self;
        proof {
            start.lemma_owned_live(before);
        }
        self.attention.clear_training_cache(runtime);
        let ghost s1 = *runtime;
        let ghost a1 = self.attention;
        let ghost r1 = start.attention.retained();
        proof {
            start.attention.lemma_parts_spared(before, s1, r1, Set::empty());
            if let Some(cache) = start.normalization.cache {
                assert(start.normalization.retained().contains(cache.matrix().buffer.id));
                lemma_matrix_spared(cache.matrix(), before, s1, r1, Set::empty());
            }
            assert(self.residual.retained() =~= Seq::<Matrix>::empty());
        }
        self.residual.clear_cache(runtime);
        let ghost s2 = *runtime;
        proof {
            lemma_nothing_released(s1, s2);
            a1.lemma_parts_spared(s1, s2, Set::empty(), Set::empty());
            if let Some(cache) = start.normalization.cache {
                lemma_matrix_spared(cache.matrix(), s1, s2, Set::empty(), Set::empty());
            }
        }
        self.normalization.clear_cache(runtime);
        proof {
            let r3 = start.normalization.retained();
            assert(r3.disjoint(a1.parts()));
            a1.lemma_parts_spared(s2, *runtime, r3, Set::empty());
            let taken = start.owned();
            before.lemma_replaced_nothing(taken);
            s1.lemma_replaced_again(before, before, taken, taken, r1, Set::empty());
            let held1 = taken.difference(r1).union(Set::empty());
            assert(Set::<usize>::empty().subset_of(held1));
            s2.lemma_replaced_again(s1, before, taken, held1, Set::empty(), Set::empty());
            let held2 = held1.difference(Set::empty()).union(Set::empty());
            assert(r3.subset_of(held2));
            runtime.lemma_replaced_again(s2, before, taken, held2, r3, Set::empty());
            let held3 = held2.difference(r3).union(Set::empty());
            assert(held3 =~= self.owned());
        }
    }
}

/// Releasing no matrices changes nothing.
proof fn lemma_nothing_released(before: CudaRuntime, after: CudaRuntime)
    requires
        before.wf(),
        after.released(before, Seq::<Matrix>::empty()),
    ensures
        after.exchanged(before, Set::empty(), Set::empty()),
{
    let none = Seq::<Matrix>::empty();
    assert(ids(none) =~= Set::<usize>::empty());
    assert(after.live@ =~= before.live@.difference(Set::empty()).union(Set::empty()));
    assert(after.ran_on(before, chosen(None)));
}

/// Releasing matrices is an exchange for nothing.
proof fn lemma_released_exchanged(before: CudaRuntime, after: CudaRuntime, ms: Seq<Matrix>)
    requires
        after.released(before, ms),
    ensures
        after.exchanged(before, ids(ms), Set::empty()),
{
    assert(after.live@ =~= before.live@.difference(ids(ms)).union(Set::empty()));
    assert(after.ran_on(before, chosen(None)));
}

impl FeedForwardStage {
    pub fn new(fcs: TrainingMlp, op: SingleType) -> (r: Self)
        ensures
            r.fcs == fcs,
            adds(r.residual),
            !r.residual.forward_pending,
            r.normalization.node.op == op,
            !r.normalization.forward_pending,
            r.normalization.cache is None,
    {
        FeedForwardStage {
            fcs,
            residual: TrainingBinaryNode::new(BinaryOp::Add),
            normalization: TrainingSingleNode::new(op),
        }
    }

    /// Gives back what is retained.
    pub fn clear_cache(&mut self, runtime: &mut CudaRuntime)
        requires
            old(runtime).wf(),
            old(self).wf(*old(runtime)),
        ensures
            final(self).fcs.executor == old(self).fcs.executor,
            final(self).fcs.training == old(self).fcs.training,
            final(self).residual.node == old(self).residual.node,
            final(self).normalization.node == old(self).normalization.node,
            final(self).cleared(),
            final(self).wf(*final(runtime)),
            old(self).fcs.same_parts(*old(runtime), *final(runtime)),
            final(runtime).exchanged(*old(runtime), old(self).owned(), final(self).owned()),
    {
        let ghost before = *runtime;
        let ghost start = *self;
        let ghost ex = self.fcs.executor;
        proof {
            start.lemma_owned_live(before);
            start.fcs.lemma_owned_live(before);
        }
        self.fcs.clear_cache(runtime);
        let ghost s1 = *runtime;
        let ghost f1 = self.fcs;
        let ghost r1 = ids(start.fcs.layer_inputs@);
        proof {
            lemma_released_exchanged(before, s1, start.fcs.layer_inputs@);
            if let Some(cache) = start.normalization.cache {
                assert(start.normalization.retained().contains(cache.matrix().buffer.id));
                lemma_matrix_spared(cache.matrix(), before, s1, r1, Set::empty());
            }
            assert forall|id: usize| #[trigger] start.fcs.parts().contains(id) implies s1.mem(id)
                == before.mem(id) by {
                assert(before.live@.contains(id) && !r1.contains(id));
            }
            start.fcs.lemma_same_parts(before, s1);
            assert(self.residual.retained() =~= Seq::<Matrix>::empty());
            assert(f1.owned() =~= start.fcs.parts());
        }
        self.residual.clear_cache(runtime);
        let ghost s2 = *runtime;
        proof {
            lemma_nothing_released(s1, s2);
            f1.lemma_spared(s1, s2, Set::empty(), Set::empty());
            if let Some(cache) = start.normalization.cache {
                lemma_matrix_spared(cache.matrix(), s1, s2, Set::empty(), Set::empty());
            }
        }
        self.normalization.clear_cache(runtime);
        proof {
            let r3 = start.normalization.retained();
            assert(r3.disjoint(f1.owned()));
            f1.lemma_spared(s2, *runtime, r3, Set::empty());
            let taken = start.owned();
            before.lemma_replaced_nothing(taken);
            s1.lemma_replaced_again(before, before, taken, taken, r1, Set::empty());
            let held1 = taken.difference(r1).union(Set::empty());
            assert(Set::<usize>::empty().subset_of(held1));
            s2.lemma_replaced_again(s1, before, taken, held1, Set::empty(), Set::empty());
            let held2 = held1.difference(Set::empty()).union(Set::empty());
            assert(r3.subset_of(held2));
            runtime.lemma_replaced_again(s2, before, taken, held2, r3, Set::empty());
            let held3 = held2.difference(r3).union(Set::empty());
            assert(held3 =~= self.owned());
        }
    }
}

impl<const HEADS: usize> AttentionStage<HEADS> {
    /// Applies the gradients of the current batch.
    pub fn learn(
        &mut self,
        learning_rate: Rate,
        momentum: F32,
        batch_len: usize,
        runtime: &mut CudaRuntime,
    )
        requires
            old(runtime).wf(),
            old(self).wf(*old(runtime)),
            (LearnConfig { learning_rate, momentum, batch_len }).valid(),
            old(self).attention.batch_ready(),
        ensures
            final(self).attention.attention == old(self).attention.attention,
            final(self).attention.state == old(self).attention.state,
            final(self).residual == old(self).residual,
            final(self).normalization == old(self).normalization,
            final(self).wf(*final(runtime)),
            old(self).attention.moved(
                *old(runtime),
                *final(runtime),
                final(self).attention.training,
                (LearnConfig { learning_rate, momentum, batch_len }),
            ),
            final(runtime).exchanged(*old(runtime), old(self).owned(), final(self).owned()),
    {
        let ghost before = *runtime;
        let ghost start = *self;
        let ghost more = start.attention.retained().union(start.normalization.retained());
        proof {
            start.lemma_owned_live(before);
        }
        self.attention.learn(learning_rate, momentum, batch_len, runtime);
        proof {
            let made = self.attention.parts();
            runtime.lemma_replaced_more(before, start.attention.parts(), made, more);
            assert(start.owned() =~= start.attention.parts().union(more));
            assert(self.owned() =~= made.union(more));
            if let Some(cache) = start.normalization.cache {
                assert(start.normalization.retained().contains(cache.matrix().buffer.id));
                lemma_matrix_spared(
                    cache.matrix(),
                    before,
                    *runtime,
                    start.attention.parts(),
                    made,
                );
            }
        }
    }
}

impl FeedForwardStage {
    /// Applies the gradients of the current batch.
    pub fn learn(
        &mut self,
        learning_rate: Rate,
        momentum: F32,
        batch_len: usize,
        runtime: &mut CudaRuntime,
    )
        requires
            old(runtime).wf(),
            old(self).wf(*old(runtime)),
            (LearnConfig { learning_rate, momentum, batch_len }).valid(),
            old(self).fcs.executor.batch_ready(old(self).fcs.training@),
        ensures
            final(self).fcs.executor == old(self).fcs.executor,
            final(self).fcs.layer_inputs == old(self).fcs.layer_inputs,
            final(self).residual == old(self).residual,
            final(self).normalization == old(self).normalization,
            final(self).wf(*final(runtime)),
            old(self).fcs.executor.all_moved(
                *old(runtime),
                *final(runtime),
                old(self).fcs.training@,
                final(self).fcs.training@,
                (LearnConfig { learning_rate, momentum, batch_len }),
            ),
            final(runtime).exchanged(*old(runtime), old(self).owned(), final(self).owned()),
    {
        let ghost before = *runtime;
        let ghost start = *self;
        let ghost more = ids(start.fcs.layer_inputs@).union(start.normalization.retained());
        proof {
            start.lemma_owned_live(before);
            start.fcs.lemma_owned_live(before);
        }
        self.fcs.learn(learning_rate, momentum, batch_len, runtime);
        proof {
            let made = self.fcs.parts();
            start.fcs.executor.lemma_learned_exchanged(
                before,
                *runtime,
                start.fcs.training@,
                self.fcs.training@,
                LearnConfig { learning_rate, momentum, batch_len },
            );
            runtime.lemma_replaced_more(before, start.fcs.parts(), made, more);
            assert(start.owned() =~= start.fcs.parts().union(more));
            assert(self.owned() =~= made.union(more));
            if let Some(cache) = start.normalization.cache {
                assert(start.normalization.retained().contains(cache.matrix().buffer.id));
                lemma_matrix_spared(cache.matrix(), before, *runtime, start.fcs.parts(), made);
            }
        }
    }
}

} // verus!
