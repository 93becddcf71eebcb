//! A transformer block that can be trained.

use vstd::prelude::*;

use crate::cuda::algebra::{zip, Term};
use crate::cuda::container::matrix::multipliable;
use crate::cuda::container::{values_of, Matrix};
use crate::cuda::ops::BinaryFn;
use crate::cuda::runtime::{addressable, chosen, CudaRuntime};
use crate::cuda::scalar::F32;
use crate::graph::config::LearnConfig;
use crate::graph::schedule::Rate;
use crate::graph::state::NodeTrainState;
use crate::net::gradient::{
    gradient_ids, lemma_matrix_spared, lemma_moved_between, same_values, trained_ids, PassedBack,
};
use crate::net::linear::{loaded, took, trainable, Linear};
use crate::net::metadata::{HostDataCursor, HostRead, MetadataCursor};
use crate::net::mlp::training::TrainingMlp;
use crate::net::mlp::InferenceMLP;
use crate::net::transformer::attention::training::TrainingAttention;
use crate::net::transformer::attention::{projected, Qkv};
use crate::net::transformer::inference::{
    describe_parts, load_parts, read_parts, InferenceTransformer, TransformerMetadata,
};
use crate::net::transformer::position::PositionEncoding;
use crate::net::transformer::stages::{adds, AttentionStage, FeedForwardStage};
use crate::net::transformer::NormType;

verus! {

broadcast use crate::cuda::runtime::group_streams;

/// A transformer block that can be trained.
pub struct TrainingTransformer<const HEADS: usize, const MASKED: bool> {
    pub first: AttentionStage<HEADS>,
    pub norm_type: NormType,
    pub position_encoding: PositionEncoding,
    pub second: FeedForwardStage,
    pub output_matrix: Linear,
    pub output_training: NodeTrainState,
    pub cache: Option<TransformerCache>,
}

/// What the output layer needs for its backward pass.
pub struct TransformerCache {
    pub encoded: Matrix,
}

impl<const HEADS: usize, const MASKED: bool> TrainingTransformer<HEADS, MASKED> {
    /// The buffers of the position encoding.
    pub open spec fn position_ids(self) -> Set<usize> {
        Set::new(|id: usize| self.position_encoding.owns(id))
    }

    /// The buffers of the output layer and its training state.
    pub open spec fn output_ids(self) -> Set<usize> {
        trained_ids(self.output_matrix, self.output_training)
    }

    /// The retained input of the output layer.
    pub open spec fn cache_ids(self) -> Set<usize> {
        match self.cache {
            Some(cache) => set![cache.encoded.buffer.id],
            None => Set::empty(),
        }
    }

    /// All buffers of the block.
    pub open spec fn owned(self) -> Set<usize> {
        self.position_ids().union(self.first.owned()).union(self.second.owned()).union(
            self.output_ids(),
        ).union(self.cache_ids())
    }

    /// No two parts share a buffer.
    pub open spec fn apart(self) -> bool {
        &&& self.position_ids().disjoint(self.first.owned())
        &&& self.position_ids().disjoint(self.second.owned())
        &&& self.position_ids().disjoint(self.output_ids())
        &&& self.position_ids().disjoint(self.cache_ids())
        &&& self.first.owned().disjoint(self.second.owned())
        &&& self.first.owned().disjoint(self.output_ids())
        &&& self.first.owned().disjoint(self.cache_ids())
        &&& self.second.owned().disjoint(self.output_ids())
        &&& self.second.owned().disjoint(self.cache_ids())
        &&& self.output_ids().disjoint(self.cache_ids())
    }

    /// Every part is in order.
    pub open spec fn sound(self, runtime: CudaRuntime) -> bool {
        &&& self.position_encoding.wf(runtime)
        &&& self.first.wf(runtime)
        &&& self.first.normalization.node.op == self.norm_type.spec_op()
        &&& self.second.wf(runtime)
        &&& self.second.normalization.node.op == self.norm_type.spec_op()
        &&& self.output_matrix.trains_with(runtime, self.output_training)
        &&& self.cache matches Some(cache) ==> runtime.holds(cache.encoded)
    }

    /// The invariant.
    pub open spec fn wf(self, runtime: CudaRuntime) -> bool {
        self.sound(runtime) && self.apart()
    }

    /// The width of the rows inside the block.
    pub open spec fn width(self) -> usize {
        self.first.attention.attention.width()
    }

    /// Inputs that the block accepts.
    pub open spec fn accepts(self, runtime: CudaRuntime, input: Matrix) -> bool {
        &&& runtime.holds(input)
        &&& self.position_encoding.accepts(input.rows, input.cols)
        &&& self.first.attention.attention.accepts(runtime, input, input, MASKED)
        &&& input.cols == self.width()
        &&& self.second.square(input.cols)
        &&& self.second.fcs.executor.accepts_rows(input.rows as int)
        &&& self.output_matrix.weights.rows == input.cols
        &&& multipliable(
            input.rows as int,
            input.cols as int,
            self.output_matrix.weights.cols as int,
        )
        &&& addressable(input.rows * self.output_matrix.weights.cols)
    }

    /// The values after the second normalisation.
    pub open spec fn encoded(self, runtime: CudaRuntime, x: Seq<Term>, rows: usize) -> Seq<Term> {
        let p = self.position_encoding.image(runtime, x);
        let m = self.first.image(runtime, p, rows, MASKED);
        self.second.image(runtime, m, rows, self.width())
    }

    /// What the block makes of a matrix.
    pub open spec fn image(self, runtime: CudaRuntime, x: Seq<Term>, rows: usize) -> Seq<Term> {
        projected(self.output_matrix, runtime, self.encoded(runtime, x, rows), rows as nat)
    }

    /// Nothing is retained.
    pub open spec fn cleared(self) -> bool {
        self.first.cleared() && self.second.cleared() && self.cache is None
    }

    /// A forward pass over this many rows waits for its backward pass.
    pub open spec fn pending(self, runtime: CudaRuntime, rows: usize) -> bool {
        &&& self.first.pending(rows)
        &&& self.second.pending(runtime, rows, self.width())
        &&& self.cache matches Some(cache) && cache.encoded.rows == rows && cache.encoded.cols
            == self.width()
    }

    /// The buffers of the block are alive.
    pub proof fn lemma_owned_live(self, runtime: CudaRuntime)
        requires
            self.sound(runtime),
        ensures
            self.owned().subset_of(runtime.live@),
    {
        self.first.lemma_owned_live(runtime);
        self.second.lemma_owned_live(runtime);
        self.output_matrix.lemma_trained_ids_live(self.output_training, runtime);
    }

    /// The position encoding stays as it is while other buffers are exchanged.
    pub proof fn lemma_position_spared(
        self,
        before: CudaRuntime,
        after: CudaRuntime,
        taken: Set<usize>,
        made: Set<usize>,
    )
        requires
            before.wf(),
            self.position_encoding.wf(before),
            after.replaced(before, taken, made),
            taken.disjoint(self.position_ids()),
        ensures
            self.position_encoding.wf(after),
            made.disjoint(self.position_ids()),
            forall|x: Seq<Term>| #[trigger]
                self.position_encoding.image(after, x) == self.position_encoding.image(before, x),
    {
        if let PositionEncoding::Additive(values) = self.position_encoding {
            assert(self.position_ids().contains(values.buffer.id));
            lemma_matrix_spared(values, before, after, taken, made);
            assert forall|id: usize| made.contains(id) implies !self.position_ids().contains(id) by {
                if self.position_ids().contains(id) {
                    assert(id == values.buffer.id);
                }
            }
        }
    }

    /// Configuration and parameters are those of another state of the block.
    pub open spec fn continues(self, start: Self) -> bool {
        &&& self.first.attention.attention.qkv.layers == start.first.attention.attention.qkv.layers
        &&& start.first.attention.attention.qkv.streams is Some
            ==> self.first.attention.attention.qkv.streams
            == start.first.attention.attention.qkv.streams
        &&& self.first.residual.node == start.first.residual.node
        &&& self.first.normalization.node == start.first.normalization.node
        &&& self.norm_type == start.norm_type
        &&& self.position_encoding == start.position_encoding
        &&& self.second.fcs.executor == start.second.fcs.executor
        &&& self.second.residual.node == start.second.residual.node
        &&& self.second.normalization.node == start.second.normalization.node
        &&& self.output_matrix == start.output_matrix
    }

    /// The training states are those of another state of the block.
    pub open spec fn same_training(self, start: Self) -> bool {
        &&& self.first.attention.training == start.first.attention.training
        &&& self.second.fcs.training == start.second.fcs.training
        &&& self.output_training == start.output_training
    }

    /// Parameters, gradients and velocities are the same at two moments.
    pub open spec fn unchanged(self, before: CudaRuntime, after: CudaRuntime) -> bool {
        &&& forall|x: Seq<Term>| #[trigger]
            self.position_encoding.image(after, x) == self.position_encoding.image(before, x)
        &&& self.first.attention.same_parts(before, after)
        &&& self.second.fcs.same_parts(before, after)
        &&& same_values(self.output_matrix, self.output_training, before, after)
    }

    /// What the block retains of a forward pass that it began as another.
    pub open spec fn remembers(
        self,
        start: Self,
        before: CudaRuntime,
        after: CudaRuntime,
        x: Seq<Term>,
        rows: usize,
    ) -> bool {
        let p = start.position_encoding.image(before, x);
        let m = start.first.image(before, p, rows, MASKED);
        let ex = start.second.fcs.executor;
        let state = self.first.attention.state->0;
        &&& after.matrix(state.input) == p
        &&& start.first.attention.attention.remembers(before, after, p, state, MASKED)
        &&& after.matrix(self.first.normalization.cache->0.matrix()) == start.first.sum(
            before,
            p,
            rows,
            MASKED,
        )
        &&& forall|i: int|
            0 <= i < ex.layers@.len() ==> after.matrix(#[trigger] self.second.fcs.layer_inputs@[i])
                == ex.stage(before, m, rows as nat, i)
        &&& after.matrix(self.second.normalization.cache->0.matrix()) == start.second.sum(
            before,
            m,
            rows,
        )
        &&& after.matrix(self.cache->0.encoded) == start.encoded(before, x, rows)
    }

    /// Gives back everything that is retained.
    #[verifier::rlimit(60)]
    pub fn clear_cache(&mut self, runtime: &mut CudaRuntime)
        requires
            old(runtime).wf(),
            old(self).wf(*old(runtime)),
        ensures
            final(self).continues(*old(self)),
            final(self).same_training(*old(self)),
            final(self).cleared(),
            final(self).wf(*final(runtime)),
            old(self).unchanged(*old(runtime), *final(runtime)),
            final(runtime).exchanged(*old(runtime), old(self).owned(), final(self).owned()),
    {
        let ghost before = *runtime;
        let ghost start = *self;
        proof {
            start.lemma_owned_live(before);
            runtime.lemma_ran_on_nothing(chosen(None));
            before.lemma_replaced_nothing(Set::empty());
        }
        let ghost e = start.cache_ids();
        if let Some(cache) = self.cache.take() {
            let ghost id = cache.encoded.buffer.id;
            runtime.recycle_matrix(cache.encoded);
            proof {
                runtime.lemma_replaced_shrunk(before, id);
                assert(runtime.ran_on(before, chosen(None)));
                assert(e =~= set![id]);
            }
        }
        let ghost s1 = *runtime;
        proof {
            assert(s1.exchanged(before, e, Set::empty()));
            start.lemma_position_spared(before, s1, e, Set::empty());
            start.first.lemma_spared(before, s1, e, Set::empty());
            start.second.lemma_spared(before, s1, e, Set::empty());
            start.output_matrix.lemma_spared(start.output_training, before, s1, e, Set::empty());
        }
        self.first.clear_cache(runtime);
        let ghost s2 = *runtime;
        let ghost f2 = self.first.owned();
        let ghost f1 = start.first.owned();
        proof {
            start.lemma_position_spared(s1, s2, f1, f2);
            start.second.lemma_spared(s1, s2, f1, f2);
            start.output_matrix.lemma_spared(start.output_training, s1, s2, f1, f2);
        }
        self.second.clear_cache(runtime);
        let ghost g1 = start.second.owned();
        let ghost g2 = self.second.owned();
        proof {
            start.lemma_position_spared(s2, *runtime, g1, g2);
            self.first.lemma_spared(s2, *runtime, g1, g2);
            start.output_matrix.lemma_spared(start.output_training, s2, *runtime, g1, g2);
            let taken = start.owned();
            before.lemma_replaced_nothing(taken);
            assert(e.subset_of(taken));
            s1.lemma_replaced_again(before, before, taken, taken, e, Set::empty());
            let held1 = taken.difference(e).union(Set::empty());
            assert(f1.subset_of(held1));
            s2.lemma_replaced_again(s1, before, taken, held1, f1, f2);
            let held2 = held1.difference(f1).union(f2);
            assert(g1.subset_of(held2));
            runtime.lemma_replaced_again(s2, before, taken, held2, g1, g2);
            let held3 = held2.difference(g1).union(g2);
            assert(held3 =~= self.owned());
        }
    }

    /// The block's values depend on its parameters alone.
    pub proof fn lemma_image_kept(
        self,
        before: CudaRuntime,
        after: CudaRuntime,
        x: Seq<Term>,
        rows: usize,
    )
        requires
            self.second.fcs.executor.shaped(),
            self.unchanged(before, after),
        ensures
            self.image(after, x, rows) == self.image(before, x, rows),
            self.encoded(after, x, rows) == self.encoded(before, x, rows),
            self.first.image(after, self.position_encoding.image(before, x), rows, MASKED)
                == self.first.image(before, self.position_encoding.image(before, x), rows, MASKED),
    {
        let p = self.position_encoding.image(before, x);
        assert(self.position_encoding.image(after, x) == p);
        let m = self.first.image(before, p, rows, MASKED);
        assert(self.first.image(after, p, rows, MASKED) == m);
        let ex = self.second.fcs.executor;
        ex.lemma_stage_kept(before, after, m, rows as nat, ex.layers@.len() as int);
    }
}

impl<const HEADS: usize, const MASKED: bool> TrainingTransformer<HEADS, MASKED> {
    pub fn new(
        q_matrix: Linear,
        k_matrix: Linear,
        v_matrix: Linear,
        position_encoding: PositionEncoding,
        fcs: TrainingMlp,
        output_matrix: Linear,
        norm_type: NormType,
    ) -> (r: Self)
        requires
            HEADS > 0,
            q_matrix.weights.cols % HEADS == 0,
            k_matrix.weights.cols == q_matrix.weights.cols,
            v_matrix.weights.cols == q_matrix.weights.cols,
        ensures
            r.first.attention.attention.qkv.layers == (Qkv {
                query: q_matrix,
                key: k_matrix,
                value: v_matrix,
            }),
            r.first.attention.attention.qkv.streams is None,
            r.first.attention.attention.shaped(),
            r.first.attention.training.query.is_fresh(2),
            r.first.attention.training.key.is_fresh(2),
            r.first.attention.training.value.is_fresh(2),
            r.first.attention.state is None,
            adds(r.first.residual),
            r.first.normalization.node.op == norm_type.spec_op(),
            r.first.normalization.cache is None,
            r.norm_type == norm_type,
            r.position_encoding == position_encoding,
            r.second.fcs == fcs,
            adds(r.second.residual),
            r.second.normalization.node.op == norm_type.spec_op(),
            norm_type is Layer ==> r.first.normalization.node.op is LayerNorm
                && r.second.normalization.node.op is LayerNorm,
            norm_type is Rms ==> r.first.normalization.node.op is RmsNorm
                && r.second.normalization.node.op is RmsNorm,
            r.second.normalization.cache is None,
            r.output_matrix == output_matrix,
            r.output_training.is_fresh(2),
            r.cache is None,
    {
        TrainingTransformer {
            first: AttentionStage::new(
                TrainingAttention::new(q_matrix, k_matrix, v_matrix, None),
                norm_type.op(),
            ),
            norm_type,
            position_encoding,
            second: FeedForwardStage::new(fcs, norm_type.op()),
            output_matrix,
            output_training: NodeTrainState::with_parameter_count(2),
            cache: None,
        }
    }

    /// Runs the block and retains what its backward pass needs.
    #[verifier::rlimit(80)]
    pub fn forward(&mut self, input: &Matrix, runtime: &mut CudaRuntime) -> (r: Matrix)
        requires
            old(runtime).wf(),
            old(self).wf(*old(runtime)),
            old(self).accepts(*old(runtime), *input),
            !old(self).owned().contains(input.buffer.id),
        ensures
            final(self).continues(*old(self)),
            final(self).same_training(*old(self)),
            final(self).wf(*final(runtime)),
            final(self).pending(*final(runtime), input.rows),
            old(self).unchanged(*old(runtime), *final(runtime)),
            final(self).remembers(
                *old(self),
                *old(runtime),
                *final(runtime),
                old(runtime).matrix(*input),
                input.rows,
            ),
            final(runtime).replaced(
                *old(runtime),
                old(self).owned(),
                final(self).owned().insert(r.buffer.id),
            ),
            !final(self).owned().contains(r.buffer.id),
            final(runtime).holds(r),
            r.rows == input.rows,
            r.cols == old(self).output_matrix.weights.cols,
            final(runtime).matrix(r) == old(self).image(
                *old(runtime),
                old(runtime).matrix(*input),
                input.rows,
            ),
    {
        let ghost before = *runtime;
        let ghost start = *self;
        let ghost x = before.matrix(*input);
        let ghost rows = input.rows;
        self.clear_cache(runtime);
        let ghost s0 = *runtime;
        let ghost t = *self;
        proof {
            lemma_matrix_spared(*input, before, s0, start.owned(), t.owned());
            t.lemma_owned_live(s0);
        }
        let positioned = self.position_encoding.forward(input, runtime);
        let ghost s1 = *runtime;
        let ghost pid = positioned.buffer.id;
        proof {
            s1.lemma_replaced_grown(s0, pid, None);
            assert(set![pid].contains(pid));
            t.first.lemma_spared(s0, s1, Set::empty(), set![pid]);
            t.second.lemma_spared(s0, s1, Set::empty(), set![pid]);
            t.lemma_position_spared(s0, s1, Set::empty(), set![pid]);
            t.output_matrix.lemma_spared(t.output_training, s0, s1, Set::empty(), set![pid]);
        }
        let middle = self.first.forward::<MASKED>(positioned, runtime);
        let ghost s2 = *runtime;
        let ghost taken2 = t.first.owned().insert(pid);
        let ghost mid = middle.buffer.id;
        let ghost made2 = self.first.owned().insert(mid);
        proof {
            assert(made2.contains(mid));
            t.second.lemma_spared(s1, s2, taken2, made2);
            t.lemma_position_spared(s1, s2, taken2, made2);
            t.output_matrix.lemma_spared(t.output_training, s1, s2, taken2, made2);
        }
        let ghost first2 = self.first;
        let encoded = self.second.forward(middle, runtime);
        let ghost s3 = *runtime;
        let ghost taken3 = t.second.owned().insert(mid);
        let ghost eid = encoded.buffer.id;
        let ghost made3 = self.second.owned().insert(eid);
        let ghost second3 = self.second;
        proof {
            assert(made3.contains(eid));
            assert(taken3.disjoint(first2.owned()));
            first2.lemma_spared(s2, s3, taken3, made3);
            t.lemma_position_spared(s2, s3, taken3, made3);
            t.output_matrix.lemma_spared(t.output_training, s2, s3, taken3, made3);
        }
        let output = self.output_matrix.forward(&encoded, None, runtime, None);
        let ghost s4 = *runtime;
        let ghost oid = output.buffer.id;
        self.cache = Some(TransformerCache { encoded });
        proof {
            s4.lemma_replaced_grown(s3, oid, None);
            assert(set![oid].contains(oid));
            first2.lemma_spared(s3, s4, Set::empty(), set![oid]);
            second3.lemma_spared(s3, s4, Set::empty(), set![oid]);
            t.lemma_position_spared(s3, s4, Set::empty(), set![oid]);
            t.output_matrix.lemma_spared(t.output_training, s3, s4, Set::empty(), set![oid]);
            lemma_matrix_spared(encoded, s3, s4, Set::empty(), set![oid]);
            assert(start.unchanged(before, s4));
            start.lemma_image_kept(before, s1, x, rows);
            start.lemma_image_kept(before, s2, x, rows);
            start.lemma_image_kept(before, s3, x, rows);
            let p = start.position_encoding.image(before, x);
            let m = start.first.image(before, p, rows, MASKED);
            let ex = start.second.fcs.executor;
            ex.lemma_stage_kept(before, s2, m, rows as nat, ex.layers@.len() as int);
            assert forall|i: int| 0 <= i < ex.layers@.len() implies s4.matrix(
                #[trigger] self.second.fcs.layer_inputs@[i],
            ) == ex.stage(before, m, rows as nat, i) by {
                ex.lemma_stage_kept(before, s2, m, rows as nat, i);
                let inputs = self.second.fcs.layer_inputs@;
                assert(values_of(s4, inputs)[i] == values_of(s3, inputs)[i]);
            }
            self.lemma_forward_frame(
                start,
                t,
                before,
                s0,
                s1,
                s2,
                s3,
                s4,
                pid,
                mid,
                eid,
                oid,
            );
        }
        output
    }

    /// The steps of a forward pass taken together.
    proof fn lemma_forward_frame(
        self,
        start: Self,
        t: Self,
        before: CudaRuntime,
        s0: CudaRuntime,
        s1: CudaRuntime,
        s2: CudaRuntime,
        s3: CudaRuntime,
        s4: CudaRuntime,
        pid: usize,
        mid: usize,
        eid: usize,
        oid: usize,
    )
        requires
            before.wf(),
            s0.replaced(before, start.owned(), t.owned()),
            t.wf(s0),
            t.cleared(),
            s1.replaced(s0, Set::empty(), set![pid]),
            s2.replaced(s1, t.first.owned().insert(pid), self.first.owned().insert(mid)),
            s3.replaced(s2, t.second.owned().insert(mid), self.second.owned().insert(eid)),
            s4.replaced(s3, Set::empty(), set![oid]),
            self.position_ids() == t.position_ids(),
            self.output_ids() == t.output_ids(),
            self.cache_ids() == set![eid],
            !self.first.owned().contains(mid),
            !t.second.owned().contains(mid),
            !t.output_ids().contains(mid),
            !t.position_ids().contains(mid),
            !t.owned().contains(pid),
        ensures
            s4.replaced(before, start.owned(), self.owned().insert(oid)),
    {
        let taken = start.owned();
        let held0 = t.owned();
        assert(Set::<usize>::empty().subset_of(held0));
        s1.lemma_replaced_again(s0, before, taken, held0, Set::empty(), set![pid]);
        let held1 = held0.difference(Set::empty()).union(set![pid]);
        let p2 = t.first.owned().insert(pid);
        assert(p2.subset_of(held1));
        let m2 = self.first.owned().insert(mid);
        s2.lemma_replaced_again(s1, before, taken, held1, p2, m2);
        let held2 = held1.difference(p2).union(m2);
        assert(held2 =~= t.position_ids().union(t.second.owned()).union(t.output_ids()).union(m2));
        let p3 = t.second.owned().insert(mid);
        assert(p3.subset_of(held2));
        let m3 = self.second.owned().insert(eid);
        s3.lemma_replaced_again(s2, before, taken, held2, p3, m3);
        let held3 = held2.difference(p3).union(m3);
        assert(Set::<usize>::empty().subset_of(held3));
        s4.lemma_replaced_again(s3, before, taken, held3, Set::empty(), set![oid]);
        let held4 = held3.difference(Set::empty()).union(set![oid]);
        assert forall|id: usize| #[trigger] held4.contains(id) <==> self.owned().insert(oid).contains(
            id,
        ) by {
            if self.first.owned().contains(id) && t.second.owned().contains(id) {
                assert(m2.contains(id));
                assert(s0.live@.contains(id)) by {
                    t.lemma_owned_live(s0);
                    assert(t.owned().contains(id));
                }
                assert(s1.live@.contains(id));
            }
        }
        assert(held4 =~= self.owned().insert(oid));
    }
}

impl<const HEADS: usize, const MASKED: bool> TrainingTransformer<HEADS, MASKED> {
    /// Gradients of this many rows can pass back.
    pub open spec fn trains_rows(self, rows: int) -> bool {
        &&& self.output_matrix.weights.rows == self.width()
        &&& trainable(rows, self.width() as int, self.output_matrix.weights.cols as int)
        &&& self.second.square(self.width())
        &&& self.second.fcs.executor.trains_rows(rows)
        &&& self.first.attention.trains_rows(rows)
    }

    /// The gradient that reaches the second residual.
    pub open spec fn second_gradient(self, runtime: CudaRuntime, gradient: Seq<Term>, rows: usize) -> Seq<
        Term,
    > {
        self.second.inner_gradient(
            runtime,
            self.output_matrix.through(runtime, self.cache->0.encoded, gradient),
            rows as nat,
            self.width() as nat,
        )
    }

    /// The gradient that reaches the first residual.
    pub open spec fn first_gradient(self, runtime: CudaRuntime, gradient: Seq<Term>, rows: usize) -> Seq<
        Term,
    > {
        let inner = self.second_gradient(runtime, gradient, rows);
        self.first.inner_gradient(
            runtime,
            zip(
                BinaryFn::Add,
                inner,
                self.second.fcs.executor.upstream(
                    runtime,
                    values_of(runtime, self.second.fcs.layer_inputs@),
                    rows as nat,
                    inner,
                    0,
                ),
            ),
            rows as nat,
            self.width() as nat,
        )
    }

    /// The gradient of the block's input.
    pub open spec fn input_gradient(self, runtime: CudaRuntime, gradient: Seq<Term>, rows: usize) -> Seq<
        Term,
    > {
        let inner = self.first_gradient(runtime, gradient, rows);
        zip(BinaryFn::Add, inner, self.first.attention.input_gradient(runtime, inner))
    }

    /// What a backward pass adds to the training states.
    pub open spec fn absorbed(
        self,
        before: CudaRuntime,
        after: CudaRuntime,
        end: Self,
        gradient: Seq<Term>,
        rows: usize,
    ) -> bool {
        let encoded = self.cache->0.encoded;
        &&& self.output_matrix.absorbed(
            before,
            after,
            self.output_training,
            end.output_training,
            before.matrix(encoded),
            self.output_matrix.inner_gradient(before, encoded, gradient),
            rows as nat,
        )
        &&& self.second.fcs.executor.all_absorbed(
            before,
            after,
            self.second.fcs.training@,
            end.second.fcs.training@,
            values_of(before, self.second.fcs.layer_inputs@),
            rows as nat,
            self.second_gradient(before, gradient, rows),
        )
        &&& self.first.attention.absorbed(
            before,
            after,
            end.first.attention.training,
            self.first_gradient(before, gradient, rows),
        )
    }

    /// Passes one sample's gradient back and adds to the gradients of every parameter.
    #[verifier::rlimit(100)]
    pub fn backward_accumulate(&mut self, output_gradient: &Matrix, runtime: &mut CudaRuntime) -> (r: Matrix)
        requires
            old(runtime).wf(),
            old(self).wf(*old(runtime)),
            old(self).pending(*old(runtime), output_gradient.rows),
            old(self).trains_rows(output_gradient.rows as int),
            old(runtime).holds(*output_gradient),
            output_gradient.cols == old(self).output_matrix.weights.cols,
            !old(self).owned().contains(output_gradient.buffer.id),
        ensures
            final(self).continues(*old(self)),
            final(self).wf(*final(runtime)),
            final(self).trains_rows(output_gradient.rows as int),
            final(self).first.attention.state == old(self).first.attention.state,
            final(self).first.normalization.cache is None,
            final(self).second.fcs.layer_inputs == old(self).second.fcs.layer_inputs,
            final(self).second.normalization.cache is None,
            final(self).cache == old(self).cache,
            old(self).absorbed(
                *old(runtime),
                *final(runtime),
                *final(self),
                old(runtime).matrix(*output_gradient),
                output_gradient.rows,
            ),
            final(runtime).exchanged(
                *old(runtime),
                old(self).owned(),
                final(self).owned().insert(r.buffer.id),
            ),
            !final(self).owned().contains(r.buffer.id),
            final(runtime).holds(r),
            r.rows == output_gradient.rows,
            r.cols == old(self).width(),
            final(runtime).matrix(r) == old(self).input_gradient(
                *old(runtime),
                old(runtime).matrix(*output_gradient),
                output_gradient.rows,
            ),
    {
        let ghost before = *runtime;
        let ghost start = *self;
        let ghost rows = output_gradient.rows;
        let ghost g = before.matrix(*output_gradient);
        let ghost encoded = self.cache->0.encoded;
        let ghost o0 = start.output_ids();
        proof {
            start.lemma_owned_live(before);
            assert(start.cache_ids().contains(encoded.buffer.id));
            assert(start.owned().contains(encoded.buffer.id));
            assert(gradient_ids(start.output_training).subset_of(o0));
        }
        let passed = self.output_matrix.pass_back(
            &mut self.output_training,
            &self.cache.as_ref().unwrap().encoded,
            output_gradient,
            runtime,
        );
        let ghost s1 = *runtime;
        let ghost all = passed;
        let ghost left = passed.leftovers();
        let ghost ig = passed.input_gradient.buffer.id;
        let ghost o1 = self.output_ids();
        let ghost state1 = self.output_training;
        let ghost made1 = o1.union(left).insert(ig);
        proof {
            start.output_matrix.lemma_passed_exchanged(
                before,
                s1,
                start.output_training,
                state1,
                passed,
            );
            assert(made1.contains(ig));
            start.first.lemma_spared(before, s1, o0, made1);
            start.second.lemma_spared(before, s1, o0, made1);
            start.lemma_position_spared(before, s1, o0, made1);
            lemma_matrix_spared(encoded, before, s1, o0, made1);
            start.output_matrix.lemma_trained_ids_live(state1, s1);
        }
        let PassedBack { input_gradient, gradient, bias_gradient, pre_activation } = passed;
        let middle = self.second.backward(input_gradient, runtime);
        let ghost s2 = *runtime;
        let ghost second2 = self.second;
        let ghost mid = middle.buffer.id;
        let ghost taken2 = start.second.owned().insert(ig);
        let ghost made2 = second2.owned().insert(mid);
        proof {
            assert(made2.contains(mid));
            assert(taken2.disjoint(start.first.owned()));
            assert(taken2.disjoint(left)) by {
                assert forall|id: usize| left.contains(id) implies !taken2.contains(id) by {
                    assert(made1.contains(id));
                }
            }
            assert(taken2.disjoint(o1)) by {
                assert forall|id: usize| o1.contains(id) implies !taken2.contains(id) by {
                    assert(made1.contains(id));
                }
            }
            start.first.lemma_spared(s1, s2, taken2, made2);
            start.lemma_position_spared(s1, s2, taken2, made2);
            start.output_matrix.lemma_spared(state1, s1, s2, taken2, made2);
            lemma_matrix_spared(encoded, s1, s2, taken2, made2);
            all.lemma_leftovers_spared(s1, s2, taken2, made2);
        }
        let total = self.first.backward(middle, runtime);
        let ghost s3 = *runtime;
        let ghost first3 = self.first;
        let ghost tid = total.buffer.id;
        let ghost taken3 = start.first.owned().insert(mid);
        let ghost made3 = first3.owned().insert(tid);
        proof {
            assert(made3.contains(tid));
            assert(taken3.disjoint(second2.owned())) by {
                assert forall|id: usize| second2.owned().contains(id) implies !taken3.contains(id) by {
                    assert(made2.contains(id));
                }
            }
            assert(taken3.disjoint(left)) by {
                assert forall|id: usize| left.contains(id) implies !taken3.contains(id) by {
                    assert(made1.contains(id));
                }
            }
            assert(taken3.disjoint(o1)) by {
                assert forall|id: usize| o1.contains(id) implies !taken3.contains(id) by {
                    assert(made1.contains(id));
                }
            }
            second2.lemma_spared(s2, s3, taken3, made3);
            start.lemma_position_spared(s2, s3, taken3, made3);
            start.output_matrix.lemma_spared(state1, s2, s3, taken3, made3);
            lemma_matrix_spared(encoded, s2, s3, taken3, made3);
            all.lemma_leftovers_spared(s2, s3, taken3, made3);
        }
        PassedBack::discard(gradient, bias_gradient, pre_activation, runtime, Ghost(all));
        proof {
            let none = Set::<usize>::empty();
            assert(left.disjoint(first3.owned())) by {
                assert forall|id: usize| first3.owned().contains(id) implies !left.contains(id) by {
                    assert(made3.contains(id));
                }
            }
            assert(left.disjoint(second2.owned())) by {
                assert forall|id: usize| second2.owned().contains(id) implies !left.contains(id) by {
                    assert(made2.contains(id));
                }
            }
            first3.lemma_spared(s3, *runtime, left, none);
            second2.lemma_spared(s3, *runtime, left, none);
            start.lemma_position_spared(s3, *runtime, left, none);
            start.output_matrix.lemma_spared(state1, s3, *runtime, left, none);
            lemma_matrix_spared(encoded, s3, *runtime, left, none);
            lemma_matrix_spared(total, s3, *runtime, left, none);
            let ex = start.second.fcs.executor;
            let inputs = values_of(before, start.second.fcs.layer_inputs@);
            let inner = start.second_gradient(before, g, rows);
            ex.lemma_upstream_kept(before, s1, inputs, rows as nat, inner, 0);
            ex.lemma_all_absorbed_moved(
                before,
                s1,
                s2,
                *runtime,
                start.second.fcs.training@,
                second2.fcs.training@,
                inputs,
                rows as nat,
                inner,
            );
            let last = start.first_gradient(before, g, rows);
            start.first.attention.lemma_absorbed_moved(
                before,
                s2,
                s3,
                *runtime,
                first3.attention.training,
                last,
            );
            start.output_matrix.lemma_absorbed_between(
                before,
                before,
                s1,
                *runtime,
                start.output_training,
                state1,
                before.matrix(encoded),
                start.output_matrix.inner_gradient(before, encoded, g),
                rows as nat,
            );
            lemma_block_backward_frame(
                before,
                s1,
                s2,
                s3,
                *runtime,
                start.position_ids().union(start.cache_ids()),
                start.first.owned(),
                first3.owned(),
                start.second.owned(),
                second2.owned(),
                o0,
                o1,
                left,
                ig,
                mid,
                tid,
            );
            assert(self.owned() =~= start.position_ids().union(start.cache_ids()).union(
                first3.owned(),
            ).union(second2.owned()).union(o1));
            assert(start.owned() =~= start.position_ids().union(start.cache_ids()).union(
                start.first.owned(),
            ).union(start.second.owned()).union(o0));
        }
        total
    }

    /// Passes one sample's gradient back.
    pub fn backward(&mut self, output_gradient: &Matrix, runtime: &mut CudaRuntime) -> (r: Matrix)
        requires
            old(runtime).wf(),
            old(self).wf(*old(runtime)),
            old(self).pending(*old(runtime), output_gradient.rows),
            old(self).trains_rows(output_gradient.rows as int),
            old(runtime).holds(*output_gradient),
            output_gradient.cols == old(self).output_matrix.weights.cols,
            !old(self).owned().contains(output_gradient.buffer.id),
        ensures
            final(self).continues(*old(self)),
            final(self).wf(*final(runtime)),
            final(self).trains_rows(output_gradient.rows as int),
            final(self).first.attention.state == old(self).first.attention.state,
            final(self).first.normalization.cache is None,
            final(self).second.fcs.layer_inputs == old(self).second.fcs.layer_inputs,
            final(self).second.normalization.cache is None,
            final(self).cache == old(self).cache,
            old(self).absorbed(
                *old(runtime),
                *final(runtime),
                *final(self),
                old(runtime).matrix(*output_gradient),
                output_gradient.rows,
            ),
            final(runtime).exchanged(
                *old(runtime),
                old(self).owned(),
                final(self).owned().insert(r.buffer.id),
            ),
            !final(self).owned().contains(r.buffer.id),
            final(runtime).holds(r),
            r.rows == output_gradient.rows,
            r.cols == old(self).width(),
            final(runtime).matrix(r) == old(self).input_gradient(
                *old(runtime),
                old(runtime).matrix(*output_gradient),
                output_gradient.rows,
            ),
    {
        self.backward_accumulate(output_gradient, runtime)
    }
}

/// The steps of a backward pass taken together.
proof fn lemma_block_backward_frame(
    before: CudaRuntime,
    s1: CudaRuntime,
    s2: CudaRuntime,
    s3: CudaRuntime,
    after: CudaRuntime,
    rest: Set<usize>,
    f0: Set<usize>,
    f1: Set<usize>,
    g0: Set<usize>,
    g1: Set<usize>,
    o0: Set<usize>,
    o1: Set<usize>,
    left: Set<usize>,
    ig: usize,
    mid: usize,
    tid: usize,
)
    requires
        before.wf(),
        rest.union(f0).union(g0).union(o0).subset_of(before.live@),
        rest.disjoint(f0) && rest.disjoint(g0) && rest.disjoint(o0),
        f0.disjoint(g0) && f0.disjoint(o0) && g0.disjoint(o0),
        s1.exchanged(before, o0, o1.union(left).insert(ig)),
        s2.exchanged(s1, g0.insert(ig), g1.insert(mid)),
        s3.exchanged(s2, f0.insert(mid), f1.insert(tid)),
        after.exchanged(s3, left, Set::empty()),
        o1.disjoint(left) && !o1.contains(ig) && !left.contains(ig),
        left.disjoint(f0) && left.disjoint(g0) && left.disjoint(rest),
        left.disjoint(f1) && left.disjoint(g1) && !left.contains(mid) && !left.contains(tid),
        !f0.contains(ig) && !g0.contains(ig) && !rest.contains(ig),
        !f0.contains(mid) && !g1.contains(mid) && !o1.contains(mid) && !rest.contains(mid),
        o1.disjoint(f0) && o1.disjoint(g0),
        g1.disjoint(f0),
        !f1.contains(tid),
    ensures
        after.exchanged(
            before,
            rest.union(f0).union(g0).union(o0),
            rest.union(f1).union(g1).union(o1).insert(tid),
        ),
{
    let taken = rest.union(f0).union(g0).union(o0);
    let made1 = o1.union(left).insert(ig);
    before.lemma_replaced_nothing(taken);
    assert(o0.subset_of(taken));
    s1.lemma_replaced_again(before, before, taken, taken, o0, made1);
    let held1 = taken.difference(o0).union(made1);
    assert(held1 =~= rest.union(f0).union(g0).union(o1).union(left).insert(ig));
    assert(g0.insert(ig).subset_of(held1));
    s2.lemma_replaced_again(s1, before, taken, held1, g0.insert(ig), g1.insert(mid));
    let held2 = held1.difference(g0.insert(ig)).union(g1.insert(mid));
    assert(held2 =~= rest.union(f0).union(g1).union(o1).union(left).insert(mid));
    assert(f0.insert(mid).subset_of(held2));
    s3.lemma_replaced_again(s2, before, taken, held2, f0.insert(mid), f1.insert(tid));
    let held3 = held2.difference(f0.insert(mid)).union(f1.insert(tid));
    assert(held3 =~= rest.union(f1).union(g1).union(o1).union(left).insert(tid));
    assert(left.subset_of(held3));
    after.lemma_replaced_again(s3, before, taken, held3, left, Set::empty());
    let held4 = held3.difference(left).union(Set::empty());
    assert(held4 =~= rest.union(f1).union(g1).union(o1).insert(tid)) by {
        assert(left.disjoint(rest) && left.disjoint(f1) && left.disjoint(g1) && left.disjoint(o1));
    }
}

impl<const HEADS: usize, const MASKED: bool> TrainingTransformer<HEADS, MASKED> {
    /// Every parameter has a gradient.
    pub open spec fn batch_ready(self) -> bool {
        &&& self.output_matrix.batch_ready(self.output_training)
        &&& self.second.fcs.executor.batch_ready(self.second.fcs.training@)
        &&& self.first.attention.batch_ready()
    }

    /// An optimizer step moved every parameter.
    pub open spec fn moved(
        self,
        before: CudaRuntime,
        after: CudaRuntime,
        end: Self,
        config: LearnConfig,
    ) -> bool {
        &&& self.output_matrix.moved(
            before,
            after,
            self.output_training,
            end.output_training,
            config,
        )
        &&& self.second.fcs.executor.all_moved(
            before,
            after,
            self.second.fcs.training@,
            end.second.fcs.training@,
            config,
        )
        &&& self.first.attention.moved(before, after, end.first.attention.training, config)
    }

    /// The block stays as it is while other buffers are exchanged.
    pub proof fn lemma_spared(
        self,
        before: CudaRuntime,
        after: CudaRuntime,
        taken: Set<usize>,
        made: Set<usize>,
    )
        requires
            before.wf(),
            self.wf(before),
            after.replaced(before, taken, made),
            taken.disjoint(self.owned()),
        ensures
            self.wf(after),
            made.disjoint(self.owned()),
            self.unchanged(before, after),
    {
        assert(taken.disjoint(self.first.owned()));
        assert(taken.disjoint(self.second.owned()));
        assert(taken.disjoint(self.position_ids()));
        assert(taken.disjoint(self.output_ids()));
        assert(taken.disjoint(self.cache_ids()));
        self.first.lemma_spared(before, after, taken, made);
        self.second.lemma_spared(before, after, taken, made);
        self.lemma_position_spared(before, after, taken, made);
        self.output_matrix.lemma_spared(self.output_training, before, after, taken, made);
        self.lemma_cache_spared(before, after, taken, made);
    }

    /// What a backward pass added is still there while the training states are the same.
    pub proof fn lemma_absorbed_kept(
        self,
        before: CudaRuntime,
        after: CudaRuntime,
        later: CudaRuntime,
        middle: Self,
        end: Self,
        gradient: Seq<Term>,
        rows: usize,
    )
        requires
            self.absorbed(before, after, middle, gradient, rows),
            middle.continues(self),
            middle.unchanged(after, later),
            end.same_training(middle),
            self.second.fcs.training@.len() == self.second.fcs.executor.layers@.len(),
            middle.second.fcs.training@.len() == self.second.fcs.executor.layers@.len(),
        ensures
            self.absorbed(before, later, end, gradient, rows),
    {
        let encoded = self.cache->0.encoded;
        self.output_matrix.lemma_absorbed_between(
            before,
            before,
            after,
            later,
            self.output_training,
            middle.output_training,
            before.matrix(encoded),
            self.output_matrix.inner_gradient(before, encoded, gradient),
            rows as nat,
        );
        self.second.fcs.executor.lemma_all_absorbed_moved(
            before,
            before,
            after,
            later,
            self.second.fcs.training@,
            middle.second.fcs.training@,
            values_of(before, self.second.fcs.layer_inputs@),
            rows as nat,
            self.second_gradient(before, gradient, rows),
        );
        self.first.attention.lemma_absorbed_moved(
            before,
            before,
            after,
            later,
            middle.first.attention.training,
            self.first_gradient(before, gradient, rows),
        );
    }

    /// Applies the gradients of the current batch to every parameter.
    #[verifier::rlimit(60)]
    pub fn learn(
        &mut self,
        learning_rate: Rate,
        momentum: F32,
        batch_len: usize,
        runtime: &mut CudaRuntime,
    )
        requires
            old(runtime).wf(),
            old(self).wf(*old(runtime)),
            (LearnConfig { learning_rate, momentum, batch_len }).valid(),
            old(self).batch_ready(),
        ensures
            final(self).continues(*old(self)),
            final(self).wf(*final(runtime)),
            final(self).first.attention.state == old(self).first.attention.state,
            final(self).first.normalization == old(self).first.normalization,
            final(self).second.fcs.layer_inputs == old(self).second.fcs.layer_inputs,
            final(self).second.normalization == old(self).second.normalization,
            final(self).cache == old(self).cache,
            old(self).moved(
                *old(runtime),
                *final(runtime),
                *final(self),
                (LearnConfig { learning_rate, momentum, batch_len }),
            ),
            final(runtime).exchanged(*old(runtime), old(self).owned(), final(self).owned()),
    {
        let ghost before = *runtime;
        let ghost start = *self;
        let config = LearnConfig { learning_rate, momentum, batch_len };
        let ghost o0 = start.output_ids();
        proof {
            start.lemma_owned_live(before);
        }
        self.output_matrix.descend(&mut self.output_training, config, runtime);
        let ghost s1 = *runtime;
        let ghost state1 = self.output_training;
        let ghost o1 = self.output_ids();
        proof {
            start.output_matrix.lemma_learned_exchanged(
                before,
                s1,
                start.output_training,
                state1,
                config,
            );
            start.first.lemma_spared(before, s1, o0, o1);
            start.second.lemma_spared(before, s1, o0, o1);
            start.lemma_position_spared(before, s1, o0, o1);
            start.lemma_cache_spared(before, s1, o0, o1);
        }
        self.second.learn(learning_rate, momentum, batch_len, runtime);
        let ghost s2 = *runtime;
        let ghost second2 = self.second;
        let ghost g0 = start.second.owned();
        let ghost g1 = second2.owned();
        proof {
            start.output_matrix.lemma_spared(state1, s1, s2, g0, g1);
            start.first.lemma_spared(s1, s2, g0, g1);
            start.lemma_position_spared(s1, s2, g0, g1);
            start.lemma_cache_spared(s1, s2, g0, g1);
        }
        self.first.learn(learning_rate, momentum, batch_len, runtime);
        let ghost s3 = *runtime;
        let ghost f0 = start.first.owned();
        let ghost f1 = self.first.owned();
        proof {
            assert(g1.disjoint(f0));
            start.output_matrix.lemma_spared(state1, s2, s3, f0, f1);
            second2.lemma_spared(s2, s3, f0, f1);
            start.lemma_position_spared(s2, s3, f0, f1);
            start.lemma_cache_spared(s2, s3, f0, f1);
            lemma_moved_between(
                start.output_matrix,
                before,
                before,
                s1,
                s3,
                start.output_training,
                state1,
                config,
            );
            let ex = start.second.fcs.executor;
            assert forall|j: int| #![trigger second2.fcs.training@[j]] 0 <= j < ex.layers@.len() implies ex.layers@[j].moved(
                before,
                s3,
                start.second.fcs.training@[j],
                second2.fcs.training@[j],
                config,
            ) by {
                let was = start.second.fcs.training@[j];
                lemma_moved_between(
                    ex.layers@[j],
                    before,
                    s1,
                    s2,
                    s3,
                    was,
                    second2.fcs.training@[j],
                    config,
                );
            }
            let l = start.first.attention.attention.qkv.layers;
            let t0 = start.first.attention.training;
            let t1 = self.first.attention.training;
            lemma_moved_between(l.query, before, s2, s3, s3, t0.query, t1.query, config);
            lemma_moved_between(l.key, before, s2, s3, s3, t0.key, t1.key, config);
            lemma_moved_between(l.value, before, s2, s3, s3, t0.value, t1.value, config);
            let taken = start.owned();
            before.lemma_replaced_nothing(taken);
            assert(o0.subset_of(taken));
            s1.lemma_replaced_again(before, before, taken, taken, o0, o1);
            let held1 = taken.difference(o0).union(o1);
            assert(g0.subset_of(held1));
            s2.lemma_replaced_again(s1, before, taken, held1, g0, g1);
            let held2 = held1.difference(g0).union(g1);
            assert(f0.subset_of(held2));
            s3.lemma_replaced_again(s2, before, taken, held2, f0, f1);
            let held3 = held2.difference(f0).union(f1);
            assert(held3 =~= self.owned());
        }
    }

    /// The retained input of the output layer stays while other buffers are exchanged.
    proof fn lemma_cache_spared(
        self,
        before: CudaRuntime,
        after: CudaRuntime,
        taken: Set<usize>,
        made: Set<usize>,
    )
        requires
            before.wf(),
            self.cache matches Some(cache) ==> before.holds(cache.encoded),
            after.replaced(before, taken, made),
            taken.disjoint(self.cache_ids()),
        ensures
            self.cache matches Some(cache) ==> after.holds(cache.encoded),
            made.disjoint(self.cache_ids()),
    {
        if let Some(cache) = self.cache {
            assert(self.cache_ids().contains(cache.encoded.buffer.id));
            lemma_matrix_spared(cache.encoded, before, after, taken, made);
        }
    }
}

impl<const HEADS: usize, const MASKED: bool> TrainingTransformer<HEADS, MASKED> {
    /// The same block without its training states.
    pub open spec fn inference(self) -> InferenceTransformer<HEADS, MASKED> {
        InferenceTransformer {
            attention: self.first.attention.attention,
            norm_type: self.norm_type,
            attention_residual: self.first.residual.node,
            attention_normalization: self.first.normalization.node,
            position_encoding: self.position_encoding,
            fcs: InferenceMLP { executor: self.second.fcs.executor },
            output_matrix: self.output_matrix,
            feed_forward_residual: self.second.residual.node,
            feed_forward_normalization: self.second.normalization.node,
        }
    }

    /// Training changes nothing in what a block computes: a block that is being trained
    /// makes the same of every input as the same block at inference.
    pub proof fn law_training_computes_as_inference(self, runtime: CudaRuntime, x: Seq<Term>, rows: usize)
        requires
            self.sound(runtime),
        ensures
            self.encoded(runtime, x, rows) == self.inference().encoded(runtime, x, rows),
            self.image(runtime, x, rows) == self.inference().image(runtime, x, rows),
    {
    }

    /// Without its training states the block is in order too.
    pub proof fn lemma_inference_wf(self, runtime: CudaRuntime)
        requires
            self.wf(runtime),
        ensures
            self.inference().wf(runtime),
            forall|id: usize| #[trigger]
                self.inference().owns(id) ==> self.owned().contains(id),
    {
        let l = self.first.attention.attention.qkv.layers;
        let a = self.first.attention;
        self.second.fcs.lemma_layers_in_order(runtime);
        assert forall|id: usize| #[trigger] a.attention.qkv.owns(
            id,
        ) implies self.first.owned().contains(id) by {
            assert(l.query.owns(id) ==> a.query_ids().contains(id));
            assert(l.key.owns(id) ==> a.key_ids().contains(id));
            assert(l.value.owns(id) ==> a.value_ids().contains(id));
        }
        assert forall|id: usize|
            #![trigger l.query.owns(id)]
            #![trigger l.key.owns(id)]
            #![trigger l.value.owns(id)]
            !(l.query.owns(id) && l.key.owns(id)) && !(l.query.owns(id) && l.value.owns(id)) && !(
            l.key.owns(id) && l.value.owns(id)) by {
            assert(l.query.owns(id) ==> a.query_ids().contains(id));
            assert(l.key.owns(id) ==> a.key_ids().contains(id));
            assert(l.value.owns(id) ==> a.value_ids().contains(id));
        }
        assert forall|id: usize| #[trigger] self.position_encoding.owns(
            id,
        ) implies self.position_ids().contains(id) by {}
        assert forall|id: usize| #[trigger] self.output_matrix.owns(
            id,
        ) implies self.output_ids().contains(id) by {}
    }

    /// The block is in order while its buffers are alive.
    proof fn lemma_wf_alive(self, before: CudaRuntime, after: CudaRuntime)
        requires
            before.wf(),
            self.wf(before),
            after.live@ == before.live@,
            before.buffers@.len() <= after.buffers@.len(),
            forall|id: usize|
                #![trigger after.buffers@[id as int]]
                id < before.buffers@.len() ==> after.buffers@[id as int]
                    == before.buffers@[id as int],
        ensures
            self.wf(after),
    {
        let a = self.first.attention;
        let l = a.attention.qkv.layers;
        self.lemma_owned_live(before);
        assert forall|m: Matrix| before.holds(m) implies #[trigger] after.holds(m) by {
            assert(after.buffers@[m.buffer.id as int] == before.buffers@[m.buffer.id as int]);
        }
        l.query.lemma_trains_alive(a.training.query, before, after);
        l.key.lemma_trains_alive(a.training.key, before, after);
        l.value.lemma_trains_alive(a.training.value, before, after);
        self.second.fcs.lemma_alive(before, after);
        self.output_matrix.lemma_trains_alive(self.output_training, before, after);
        assert forall|id: usize| #[trigger] self.position_encoding.owns(id) implies after.live@.contains(
            id,
        ) by {
            assert(self.position_ids().contains(id));
            assert(self.owned().contains(id));
        }
        self.position_encoding.lemma_wf_kept(before, after);
    }

    /// Reserves the block's place in a checkpoint.
    pub fn get_meta_data(&self, cursor: &mut MetadataCursor) -> (r: TransformerMetadata)
        requires
            self.inference().countable(),
            old(cursor).position + self.inference().offset(4) <= u64::MAX,
        ensures
            self.inference().described(r, old(cursor).position as int),
            final(cursor).position == old(cursor).position + self.inference().offset(4),
    {
        describe_parts::<HEADS, MASKED>(
            &self.first.attention.attention.qkv,
            &self.position_encoding,
            &self.second.fcs.executor,
            &self.output_matrix,
            self.norm_type,
            cursor,
            Ghost(self.inference()),
        )
    }

    /// Brings all parameters to the host in checkpoint order.
    pub fn get_data(&self, runtime: &mut CudaRuntime) -> (r: Vec<HostRead>)
        requires
            old(runtime).wf(),
            self.wf(*old(runtime)),
        ensures
            final(runtime).read_out(*old(runtime), r@, self.inference().parameters(*old(runtime))),
    {
        proof {
            self.lemma_inference_wf(*runtime);
        }
        read_parts::<HEADS, MASKED>(
            &self.first.attention.attention.qkv,
            &self.position_encoding,
            &self.second.fcs.executor,
            &self.output_matrix,
            runtime,
            Ghost(self.inference()),
        )
    }

    /// Replaces all parameters by the next ones of a source.
    pub fn set_data(&mut self, data: &mut HostDataCursor, runtime: &mut CudaRuntime)
        requires
            old(runtime).wf(),
            old(self).wf(*old(runtime)),
            old(self).inference().fits(*old(data)),
        ensures
            *final(self) == *old(self),
            final(self).wf(*final(runtime)),
            took(
                *old(runtime),
                *final(runtime),
                *old(data),
                *final(data),
                old(self).inference().parameter_sizes().len(),
                |id: usize| old(self).inference().owns(id),
            ),
            old(self).inference().parameters(*final(runtime)) == loaded(
                old(data).data@,
                old(self).inference().parameter_sizes().len(),
            ),
    {
        let ghost before = *runtime;
        let ghost start = *self;
        let ghost whole = self.inference();
        proof {
            self.lemma_inference_wf(before);
        }
        load_parts::<HEADS, MASKED>(
            &mut self.first.attention.attention.qkv,
            &mut self.position_encoding,
            &mut self.second.fcs.executor,
            &mut self.output_matrix,
            data,
            runtime,
            Ghost(whole),
        );
        proof {
            start.lemma_wf_alive(before, *runtime);
        }
    }
}

/// A block whose queries see every key, in training.
pub type TrainingEncoder<const HEADS: usize> = TrainingTransformer<HEADS, false>;

/// A block whose queries see no later key, in training.
pub type TrainingDecoder<const HEADS: usize> = TrainingTransformer<HEADS, true>;

} // verus!
