//! Transformer blocks for inference.

use vstd::prelude::*;

use super::attention::{projected, Attention, Qkv, QkvProjector};
use super::position::{PositionEncoding, PositionEncodingMetadata};
use super::NormType;
use crate::cuda::algebra::{zip, Term};
use crate::cuda::command::Stream;
use crate::cuda::container::matrix::multipliable;
use crate::cuda::container::{ids, values_of, Matrix};
use crate::cuda::ops::BinaryFn;
use crate::cuda::runtime::{addressable, CudaRuntime};
use crate::net::linear::{
    lemma_read_out_append, lemma_took_append, loaded, took, Linear, LinearMetadata,
};
use crate::net::metadata::{HostDataCursor, HostRead, MetadataCursor};
use crate::net::mlp::{InferenceMLP, MlpExecutor, MlpMetadata, ResidualMetadata};
use crate::net::node::binary::{referenced, sum_of_first};
use crate::net::node::{BinaryNode, BinaryOp, SingleNode, SingleType};

verus! {

broadcast use crate::cuda::runtime::group_streams;

/// The place of a transformer in a checkpoint.
pub struct TransformerMetadata {
    pub block_count: usize,
    pub attention_heads: usize,
    pub attention_residual: bool,
    pub feed_forward_residual: bool,
    pub normalization: NormType,
    pub position_encoding: PositionEncodingMetadata,
    pub query: LinearMetadata,
    pub key: LinearMetadata,
    pub value: LinearMetadata,
    pub feed_forward: MlpMetadata,
    pub output: LinearMetadata,
}

/// One block: attention and a feed-forward stack, each with a residual and a
/// normalisation, and an output layer.
pub struct InferenceTransformer<const HEADS: usize, const MASKED: bool> {
    pub attention: Attention<HEADS>,
    pub norm_type: NormType,
    pub attention_residual: BinaryNode,
    pub attention_normalization: SingleNode,
    pub position_encoding: PositionEncoding,
    pub fcs: InferenceMLP,
    pub output_matrix: Linear,
    pub feed_forward_residual: BinaryNode,
    pub feed_forward_normalization: SingleNode,
}

/// A block whose queries see every key.
pub type InferenceEncoder<const HEADS: usize> = InferenceTransformer<HEADS, false>;

/// A block whose queries see no later key.
pub type InferenceDecoder<const HEADS: usize> = InferenceTransformer<HEADS, true>;

impl NormType {
    /// The operation that normalises.
    pub open spec fn spec_op(self) -> SingleType {
        match self {
            NormType::Layer => SingleType::LayerNorm,
            NormType::Rms => SingleType::RmsNorm,
        }
    }

    /// The operation that normalises.
    pub fn op(self) -> (r: SingleType)
        ensures
            r == self.spec_op(),
            self is Layer ==> r is LayerNorm,
            self is Rms ==> r is RmsNorm,
    {
        match self {
            NormType::Layer => SingleType::LayerNorm,
            NormType::Rms => SingleType::RmsNorm,
        }
    }
}

impl<const HEADS: usize, const MASKED: bool> InferenceTransformer<HEADS, MASKED> {
    /// The parts are set up for one another.
    pub open spec fn shaped(self) -> bool {
        &&& self.attention.shaped()
        &&& self.attention_residual.op is Add
        &&& self.feed_forward_residual.op is Add
        &&& self.attention_normalization.op == self.norm_type.spec_op()
        &&& self.feed_forward_normalization.op == self.norm_type.spec_op()
        &&& self.fcs.executor.shaped()
    }

    /// The parts are alive and share no buffer.
    pub open spec fn wf(self, runtime: CudaRuntime) -> bool {
        &&& self.shaped()
        &&& self.attention.wf(runtime)
        &&& self.position_encoding.wf(runtime)
        &&& self.fcs.executor.wf(runtime)
        &&& self.fcs.executor.separate()
        &&& self.output_matrix.wf(runtime)
        &&& self.separate()
    }

    pub open spec fn separate(self) -> bool {
        forall|id: usize|
            #![trigger self.attention.qkv.owns(id)]
            #![trigger self.position_encoding.owns(id)]
            #![trigger self.fcs.executor.owns(id)]
            #![trigger self.output_matrix.owns(id)]
            {
                &&& self.attention.qkv.owns(id) ==> !self.position_encoding.owns(id)
                    && !self.fcs.executor.owns(id) && !self.output_matrix.owns(id)
                &&& self.position_encoding.owns(id) ==> !self.fcs.executor.owns(id)
                    && !self.output_matrix.owns(id)
                &&& self.fcs.executor.owns(id) ==> !self.output_matrix.owns(id)
            }
    }

    /// Whether a buffer belongs to the block.
    pub open spec fn owns(self, id: usize) -> bool {
        ||| self.attention.qkv.owns(id)
        ||| self.position_encoding.owns(id)
        ||| self.fcs.executor.owns(id)
        ||| self.output_matrix.owns(id)
    }

    /// The parameters in checkpoint order.
    pub open spec fn parameters(self, runtime: CudaRuntime) -> Seq<Seq<Term>> {
        self.attention.qkv.parameters(runtime) + self.position_encoding.parameters(runtime)
            + self.fcs.executor.parameters(runtime) + self.output_matrix.parameters(runtime)
    }

    /// The sizes of the parameters in checkpoint order.
    pub open spec fn parameter_sizes(self) -> Seq<usize> {
        self.attention.qkv.parameter_sizes() + self.position_encoding.parameter_sizes()
            + self.fcs.executor.parameter_sizes() + self.output_matrix.parameter_sizes()
    }

    /// Inputs that the block accepts.
    pub open spec fn accepts(self, runtime: CudaRuntime, input: Matrix) -> bool {
        let ex = self.fcs.executor;
        &&& runtime.holds(input)
        &&& self.position_encoding.accepts(input.rows, input.cols)
        &&& self.attention.accepts(runtime, input, input, MASKED)
        &&& input.cols == self.attention.width()
        &&& ex.width(0) == input.cols
        &&& ex.width(ex.layers@.len() as int) == input.cols
        &&& ex.accepts_rows(input.rows as int)
        &&& self.output_matrix.weights.rows == input.cols
        &&& multipliable(
            input.rows as int,
            input.cols as int,
            self.output_matrix.weights.cols as int,
        )
        &&& addressable(input.rows * self.output_matrix.weights.cols)
    }

    /// The values after the first normalisation.
    pub open spec fn middle(self, runtime: CudaRuntime, x: Seq<Term>, rows: usize) -> Seq<Term> {
        let p = self.position_encoding.image(runtime, x);
        let a = self.attention.image(runtime, p, rows, p, rows, MASKED);
        self.norm_type.spec_op().image(
            zip(BinaryFn::Add, p, a),
            rows as nat,
            self.attention.width() as nat,
        )
    }

    /// The values after the second normalisation.
    pub open spec fn encoded(self, runtime: CudaRuntime, x: Seq<Term>, rows: usize) -> Seq<Term> {
        let ex = self.fcs.executor;
        let m = self.middle(runtime, x, rows);
        let f = ex.stage(runtime, m, rows as nat, ex.layers@.len() as int);
        self.norm_type.spec_op().image(
            zip(BinaryFn::Add, m, f),
            rows as nat,
            self.attention.width() as nat,
        )
    }

    /// What the block makes of a matrix.
    pub open spec fn image(self, runtime: CudaRuntime, x: Seq<Term>, rows: usize) -> Seq<Term> {
        projected(self.output_matrix, runtime, self.encoded(runtime, x, rows), rows as nat)
    }

    pub fn new(
        q_matrix: Linear,
        k_matrix: Linear,
        v_matrix: Linear,
        position_encoding: PositionEncoding,
        fcs: InferenceMLP,
        output_matrix: Linear,
        qkv_streams: Option<Vec<Stream>>,
        norm_type: NormType,
    ) -> (r: Self)
        requires
            HEADS > 0,
            q_matrix.weights.cols % HEADS == 0,
            k_matrix.weights.cols == q_matrix.weights.cols,
            v_matrix.weights.cols == q_matrix.weights.cols,
            qkv_streams matches Some(streams) ==> streams@.len() == 3,
            fcs.executor.shaped(),
        ensures
            r.shaped(),
            r.attention.qkv.layers == (Qkv { query: q_matrix, key: k_matrix, value: v_matrix }),
            r.attention.qkv.streams == qkv_streams,
            r.norm_type == norm_type,
            norm_type is Layer ==> r.attention_normalization.op is LayerNorm
                && r.feed_forward_normalization.op is LayerNorm,
            norm_type is Rms ==> r.attention_normalization.op is RmsNorm
                && r.feed_forward_normalization.op is RmsNorm,
            r.attention_residual.op is Add,
            r.feed_forward_residual.op is Add,
            r.position_encoding == position_encoding,
            r.fcs == fcs,
            r.output_matrix == output_matrix,
    {
        InferenceTransformer {
            attention: Attention::new(q_matrix, k_matrix, v_matrix, qkv_streams),
            norm_type,
            attention_residual: BinaryNode::new(BinaryOp::Add),
            attention_normalization: SingleNode::new(norm_type.op()),
            position_encoding,
            fcs,
            output_matrix,
            feed_forward_residual: BinaryNode::new(BinaryOp::Add),
            feed_forward_normalization: SingleNode::new(norm_type.op()),
        }
    }

    /// Where the parts start in a checkpoint: projections, position encoding,
    /// feed-forward stack, output layer.
    pub open spec fn offset(self, part: int) -> int {
        let ex = self.fcs.executor;
        let after_attention = self.attention.qkv.byte_len();
        let after_position = after_attention + self.position_encoding.byte_len();
        let after_stack = after_position + ex.byte_len_of(ex.layers@.len() as int);
        if part <= 0 {
            0
        } else if part == 1 {
            after_attention
        } else if part == 2 {
            after_position
        } else if part == 3 {
            after_stack
        } else {
            after_stack + self.output_matrix.byte_len()
        }
    }

    /// The block is made of these parts.
    pub open spec fn consists_of(
        self,
        qkv: QkvProjector,
        position: PositionEncoding,
        executor: MlpExecutor,
        output: Linear,
    ) -> bool {
        &&& self.attention.qkv == qkv
        &&& self.position_encoding == position
        &&& self.fcs.executor == executor
        &&& self.output_matrix == output
    }

    /// The sizes of the parameters can be counted.
    pub open spec fn countable(self) -> bool {
        &&& self.attention.qkv.layers.query.weights.rows
            * self.attention.qkv.layers.query.weights.cols <= usize::MAX
        &&& self.attention.qkv.layers.key.weights.rows
            * self.attention.qkv.layers.key.weights.cols <= usize::MAX
        &&& self.attention.qkv.layers.value.weights.rows
            * self.attention.qkv.layers.value.weights.cols <= usize::MAX
        &&& self.position_encoding matches PositionEncoding::Additive(values) ==> values.rows
            * values.cols <= usize::MAX
        &&& forall|i: int|
            #![trigger self.fcs.executor.layers@[i]]
            0 <= i < self.fcs.executor.layers@.len()
                ==> self.fcs.executor.layers@[i].weights.rows
                * self.fcs.executor.layers@[i].weights.cols <= usize::MAX
        &&& self.output_matrix.weights.rows * self.output_matrix.weights.cols <= usize::MAX
    }

    /// Metadata that places the block at a position.
    pub open spec fn described(self, r: TransformerMetadata, position: int) -> bool {
        &&& r.block_count == 1
        &&& r.attention_heads == HEADS
        &&& r.attention_residual
        &&& r.feed_forward_residual
        &&& r.normalization == self.norm_type
        &&& r.query.describes(self.attention.qkv.layers.query, position)
        &&& r.key.describes(
            self.attention.qkv.layers.key,
            position + self.attention.qkv.layers.query.byte_len(),
        )
        &&& r.value.describes(
            self.attention.qkv.layers.value,
            position + self.attention.qkv.layers.query.byte_len()
                + self.attention.qkv.layers.key.byte_len(),
        )
        &&& r.position_encoding.describes(
            self.position_encoding,
            position + self.offset(1),
        )
        &&& r.feed_forward.layer_count == self.fcs.executor.layers@.len()
        &&& r.feed_forward.loss == self.fcs.executor.loss
        &&& r.feed_forward.residual == match self.fcs.executor.res_range {
            Some(range) => Some(ResidualMetadata { start: range.0, end: range.1 }),
            None => None,
        }
        &&& r.feed_forward.layers@.len() == self.fcs.executor.layers@.len()
        &&& forall|i: int|
            0 <= i < r.feed_forward.layers@.len() ==> (
            #[trigger] r.feed_forward.layers@[i]).describes(
                self.fcs.executor.layers@[i],
                position + self.offset(2) + self.fcs.executor.byte_len_of(i),
            )
        &&& r.output.describes(self.output_matrix, position + self.offset(3))
    }

    /// Reserves the block's place in a checkpoint.
    pub fn get_meta_data(&self, cursor: &mut MetadataCursor) -> (r: TransformerMetadata)
        requires
            self.countable(),
            old(cursor).position + self.offset(4) <= u64::MAX,
        ensures
            self.described(r, old(cursor).position as int),
            final(cursor).position == old(cursor).position + self.offset(4),
    {
        describe_parts::<HEADS, MASKED>(
            &self.attention.qkv,
            &self.position_encoding,
            &self.fcs.executor,
            &self.output_matrix,
            self.norm_type,
            cursor,
            Ghost(*self),
        )
    }

    /// Brings all parameters to the host in checkpoint order.
    pub fn get_data(&self, runtime: &mut CudaRuntime) -> (r: Vec<HostRead>)
        requires
            old(runtime).wf(),
            self.wf(*old(runtime)),
        ensures
            final(runtime).read_out(*old(runtime), r@, self.parameters(*old(runtime))),
    {
        read_parts::<HEADS, MASKED>(
            &self.attention.qkv,
            &self.position_encoding,
            &self.fcs.executor,
            &self.output_matrix,
            runtime,
            Ghost(*self),
        )
    }

    /// Whether a source goes on with values for all parameters.
    pub open spec fn fits(self, source: HostDataCursor) -> bool {
        &&& source.wf()
        &&& source.data@.len() >= self.parameter_sizes().len()
        &&& forall|k: int|
            0 <= k < self.parameter_sizes().len() ==> (#[trigger] source.data@[k]).values@.len()
                == self.parameter_sizes()[k]
    }

    /// Replaces all parameters by the next ones of a source.
    pub fn set_data(&mut self, data: &mut HostDataCursor, runtime: &mut CudaRuntime)
        requires
            old(runtime).wf(),
            old(self).wf(*old(runtime)),
            old(self).fits(*old(data)),
        ensures
            *final(self) == *old(self),
            final(self).wf(*final(runtime)),
            took(
                *old(runtime),
                *final(runtime),
                *old(data),
                *final(data),
                old(self).parameter_sizes().len(),
                |id: usize| old(self).owns(id),
            ),
            old(self).parameters(*final(runtime)) == loaded(
                old(data).data@,
                old(self).parameter_sizes().len(),
            ),
    {
        let ghost start = *self;
        load_parts::<HEADS, MASKED>(
            &mut self.attention.qkv,
            &mut self.position_encoding,
            &mut self.fcs.executor,
            &mut self.output_matrix,
            data,
            runtime,
            Ghost(start),
        );
    }

    /// The block is in order while its buffers are alive.
    pub proof fn lemma_wf_kept(self, before: CudaRuntime, after: CudaRuntime)
        requires
            before.wf(),
            self.wf(before),
            before.buffers@.len() <= after.buffers@.len(),
            forall|id: usize|
                #![trigger after.buffers@[id as int]]
                id < before.buffers@.len() ==> after.buffers@[id as int]
                    == before.buffers@[id as int],
            forall|id: usize| #[trigger] self.owns(id) ==> after.live@.contains(id),
        ensures
            self.wf(after),
    {
        let l = self.attention.qkv.layers;
        let ex = self.fcs.executor;
        assert forall|id: usize| #[trigger] self.attention.qkv.owns(id) implies after.live@.contains(
            id,
        ) by {
            assert(self.owns(id));
        }
        assert forall|id: usize|
            l.query.owns(id) || l.key.owns(id) || l.value.owns(id) implies after.live@.contains(
            id,
        ) by {
            assert(self.attention.qkv.owns(id));
        }
        l.query.lemma_wf_kept(before, after);
        l.key.lemma_wf_kept(before, after);
        l.value.lemma_wf_kept(before, after);
        assert forall|id: usize| #[trigger] self.position_encoding.owns(
            id,
        ) implies after.live@.contains(id) by {
            assert(self.owns(id));
        }
        self.position_encoding.lemma_wf_kept(before, after);
        assert forall|id: usize| #[trigger] ex.owns(id) implies after.live@.contains(id) by {
            assert(self.owns(id));
        }
        ex.lemma_wf_kept(before, after);
        assert forall|id: usize| #[trigger] self.output_matrix.owns(id) implies after.live@.contains(
            id,
        ) by {
            assert(self.owns(id));
        }
        self.output_matrix.lemma_wf_kept(before, after);
    }

    /// The buffers of the block are alive.
    pub proof fn lemma_owns_live(self, runtime: CudaRuntime)
        requires
            self.wf(runtime),
        ensures
            forall|id: usize| #[trigger] self.owns(id) ==> runtime.live@.contains(id),
    {
        assert forall|id: usize| #[trigger] self.owns(id) implies runtime.live@.contains(id) by {
            if self.fcs.executor.owns(id) {
                self.fcs.executor.lemma_owned_live(runtime, id);
            }
        }
    }

    /// A block is in order with any streams.
    pub proof fn lemma_same_parts(self, end: Self, runtime: CudaRuntime)
        requires
            self.wf(runtime),
            end.attention.qkv.layers == self.attention.qkv.layers,
            end.attention.qkv.streams_wf(),
            end.norm_type == self.norm_type,
            end.attention_residual == self.attention_residual,
            end.attention_normalization == self.attention_normalization,
            end.position_encoding == self.position_encoding,
            end.fcs == self.fcs,
            end.output_matrix == self.output_matrix,
            end.feed_forward_residual == self.feed_forward_residual,
            end.feed_forward_normalization == self.feed_forward_normalization,
        ensures
            end.wf(runtime),
            forall|id: usize| #[trigger] end.owns(id) <==> self.owns(id),
    {
        assert forall|id: usize| #[trigger] end.attention.qkv.owns(id)
            <==> self.attention.qkv.owns(id) by {}
        assert(end.attention.qkv.separate());
        assert(end.separate());
    }

    /// Loading a part leaves what was loaded before it.
    proof fn lemma_loads_kept(
        self,
        before: CudaRuntime,
        s1: CudaRuntime,
        s2: CudaRuntime,
        s3: CudaRuntime,
        s4: CudaRuntime,
    )
        requires
            before.wf(),
            self.wf(before),
            s1.live@ == before.live@,
            s2.live@ == before.live@,
            s3.live@ == before.live@,
            s2.keeps_but(s1, |id: usize| self.position_encoding.owns(id)),
            s3.keeps_but(s2, |id: usize| self.fcs.executor.owns(id)),
            s4.keeps_but(s3, |id: usize| self.output_matrix.owns(id)),
        ensures
            self.attention.qkv.parameters(s4) == self.attention.qkv.parameters(s1),
            self.position_encoding.parameters(s4) == self.position_encoding.parameters(s2),
            self.fcs.executor.parameters(s4) == self.fcs.executor.parameters(s3),
    {
        let qkv = self.attention.qkv;
        let ex = self.fcs.executor;
        assert forall|id: usize| #[trigger] qkv.owns(id) implies s4.mem(id) == s1.mem(id) by {
            assert(before.live@.contains(id));
            assert(s2.mem(id) == s1.mem(id));
            assert(s3.mem(id) == s2.mem(id));
        }
        qkv.lemma_kept(s1, s4);
        assert forall|id: usize| #[trigger] self.position_encoding.owns(id) implies s4.mem(id)
            == s2.mem(id) by {
            assert(before.live@.contains(id));
            assert(s3.mem(id) == s2.mem(id));
        }
        self.position_encoding.lemma_kept(s2, s4);
        assert forall|id: usize| #[trigger] ex.owns(id) implies s4.mem(id) == s3.mem(id) by {
            ex.lemma_owned_live(before, id);
        }
        ex.lemma_parameters_kept(s3, s4, ex.layers@.len() as int);
    }

    /// The block goes on as before while its buffers stay.
    pub proof fn lemma_kept(self, before: CudaRuntime, after: CudaRuntime, rows: usize)
        requires
            before.wf(),
            self.wf(before),
            after.keeps(before, Set::empty()),
            forall|id: usize|
                #![trigger after.live@.contains(id)]
                before.live@.contains(id) ==> after.live@.contains(id),
        ensures
            self.wf(after),
            forall|x: Seq<Term>|
                #![trigger self.fcs.executor.stage(after, x, rows as nat, self.fcs.executor.layers@.len() as int)]
                self.fcs.executor.stage(
                    after,
                    x,
                    rows as nat,
                    self.fcs.executor.layers@.len() as int,
                ) == self.fcs.executor.stage(
                    before,
                    x,
                    rows as nat,
                    self.fcs.executor.layers@.len() as int,
                ),
            forall|p: Seq<Term>|
                #![trigger self.attention.image(after, p, rows, p, rows, MASKED)]
                self.attention.image(after, p, rows, p, rows, MASKED) == self.attention.image(
                    before,
                    p,
                    rows,
                    p,
                    rows,
                    MASKED,
                ),
            forall|x: Seq<Term>|
                #![trigger projected(self.output_matrix, after, x, rows as nat)]
                projected(self.output_matrix, after, x, rows as nat) == projected(
                    self.output_matrix,
                    before,
                    x,
                    rows as nat,
                ),
    {
        let ex = self.fcs.executor;
        let l = self.attention.qkv.layers;
        l.query.lemma_wf_kept(before, after);
        l.key.lemma_wf_kept(before, after);
        l.value.lemma_wf_kept(before, after);
        self.position_encoding.lemma_wf_kept(before, after);
        assert forall|id: usize| #[trigger] ex.owns(id) implies after.live@.contains(id)
            && after.mem(id) == before.mem(id) by {
            ex.lemma_owned_live(before, id);
        }
        ex.lemma_wf_kept(before, after);
        self.output_matrix.lemma_wf_kept(before, after);
        assert forall|x: Seq<Term>|
            #![trigger ex.stage(after, x, rows as nat, ex.layers@.len() as int)]
            ex.stage(after, x, rows as nat, ex.layers@.len() as int) == ex.stage(
            before,
            x,
            rows as nat,
            ex.layers@.len() as int,
        ) by {
            ex.lemma_stage_kept(before, after, x, rows as nat, ex.layers@.len() as int);
        }
    }

    /// Runs the block.
    #[verifier::rlimit(60)]
    pub fn forward(&mut self, input: &Matrix, runtime: &mut CudaRuntime) -> (r: Matrix)
        requires
            old(runtime).wf(),
            old(self).wf(*old(runtime)),
            old(self).accepts(*old(runtime), *input),
        ensures
            final(self).attention.qkv.layers == old(self).attention.qkv.layers,
            final(self).attention.qkv.streams is Some,
            final(self).attention.qkv.streams_wf(),
            old(self).attention.qkv.streams is Some ==> final(self).attention.qkv.streams == old(
                self,
            ).attention.qkv.streams,
            final(self).norm_type == old(self).norm_type,
            final(self).attention_residual == old(self).attention_residual,
            final(self).attention_normalization == old(self).attention_normalization,
            final(self).position_encoding == old(self).position_encoding,
            final(self).fcs == old(self).fcs,
            final(self).output_matrix == old(self).output_matrix,
            final(self).feed_forward_residual == old(self).feed_forward_residual,
            final(self).feed_forward_normalization == old(self).feed_forward_normalization,
            final(runtime).replaced(*old(runtime), Set::empty(), set![r.buffer.id]),
            final(runtime).holds(r),
            r.rows == input.rows,
            r.cols == old(self).output_matrix.weights.cols,
            final(runtime).matrix(r) == old(self).image(
                *old(runtime),
                old(runtime).matrix(*input),
                input.rows,
            ),
    {
        let ghost before = *runtime;
        let ghost start = *self;
        let ghost x0 = before.matrix(*input);
        let rows: usize = input.rows;
        let positioned = self.position_encoding.forward(input, runtime);
        let ghost s1 = *runtime;
        let ghost p = start.position_encoding.image(before, x0);
        proof {
            start.lemma_kept(before, s1, rows);
        }
        let attention = if MASKED {
            self.attention.forward_mask(&positioned, &positioned, runtime)
        } else {
            self.attention.forward(&positioned, &positioned, runtime)
        };
        let ghost s2 = *runtime;
        let ghost a = start.attention.image(before, p, rows, p, rows, MASKED);
        proof {
            assert(set![attention.buffer.id].contains(attention.buffer.id));
            assert(s2.buffers@[positioned.buffer.id as int] == positioned.buffer.len);
            assert(s2.matrix(attention) == a);
        }
        let mut both: Vec<&Matrix> = Vec::new();
        both.push(&positioned);
        both.push(&attention);
        proof {
            let two = referenced(both@);
            assert(two =~= seq![positioned, attention]);
            reveal_with_fuel(sum_of_first, 3);
            assert(values_of(s2, two)[0] == p && values_of(s2, two)[1] == a);
            assert forall|k: int| #![trigger two[k]] 0 <= k < two.len() implies two[k].rows
                == two[0].rows && two[k].cols == two[0].cols by {}
            assert forall|k: int| 0 <= k < both@.len() implies s2.holds(*#[trigger] both@[k]) by {
                if k == 0 {
                    assert(*both@[k] == positioned);
                } else {
                    assert(*both@[k] == attention);
                }
            }
        }
        let x = self.attention_residual.forward(&both, runtime);
        let ghost s3 = *runtime;
        assert(s3.matrix(x) == zip(BinaryFn::Add, p, a));
        assert(s3.buffers@[attention.buffer.id as int] == attention.buffer.len);
        runtime.recycle_matrix(attention);
        let ghost s4 = *runtime;
        proof {
            assert(s4.buffers@[x.buffer.id as int] == x.buffer.len);
            assert(s4.matrix(x) == s3.matrix(x));
        }
        let x = self.attention_normalization.forward(x, runtime);
        let ghost s5 = *runtime;
        let ghost m = start.middle(before, x0, rows);
        proof {
            assert(s5.matrix(x) == m);
            assert(s5.buffers@[positioned.buffer.id as int] == positioned.buffer.len);
        }
        runtime.recycle_matrix(positioned);
        let ghost s6 = *runtime;
        proof {
            assert(s6.live@ =~= before.live@.insert(x.buffer.id));
            assert(s6.keeps(before, Set::empty()));
            assert(s6.buffers@[x.buffer.id as int] == x.buffer.len);
            assert(s6.matrix(x) == m);
            start.lemma_kept(before, s6, rows);
        }
        let ffn = self.fcs.forward(&x, runtime);
        let ghost s7 = *runtime;
        let ghost f = start.fcs.executor.stage(
            before,
            m,
            rows as nat,
            start.fcs.executor.layers@.len() as int,
        );
        assert(s7.matrix(ffn) == f);
        proof {
            assert(s7.buffers@[x.buffer.id as int] == x.buffer.len);
            assert(s7.matrix(x) == m);
        }
        let mut both: Vec<Matrix> = Vec::new();
        both.push(x);
        both.push(ffn);
        let ghost two = both@;
        proof {
            assert(two[0] == x && two[1] == ffn);
            reveal_with_fuel(sum_of_first, 3);
            assert(values_of(s7, two)[0] == m && values_of(s7, two)[1] == f);
            assert(ids(two) =~= set![x.buffer.id, ffn.buffer.id]) by {
                assert(ids(two).contains(two[0].buffer.id));
                assert(ids(two).contains(two[1].buffer.id));
            }
        }
        let output = self.feed_forward_residual.forward_owned(both, runtime);
        let ghost s8 = *runtime;
        assert(s8.matrix(output) == zip(BinaryFn::Add, m, f));
        let output = self.feed_forward_normalization.forward(output, runtime);
        let ghost s9 = *runtime;
        proof {
            assert(s9.matrix(output) == start.encoded(before, x0, rows));
            assert(s9.live@ =~= before.live@.insert(output.buffer.id));
            assert(s9.keeps(before, Set::empty()));
            start.lemma_kept(before, s9, rows);
        }
        let result = self.output_matrix.forward(&output, None, runtime, None);
        let ghost s10 = *runtime;
        proof {
            assert(s10.buffers@[output.buffer.id as int] == output.buffer.len);
            assert(s10.matrix(result) == start.image(before, x0, rows));
        }
        runtime.recycle_matrix(output);
        proof {
            assert(runtime.buffers@[result.buffer.id as int] == result.buffer.len);
            assert(runtime.live@ =~= before.live@.difference(Set::empty()).union(
                set![result.buffer.id],
            ));
            assert(runtime.keeps(before, Set::empty()));
        }
        result
    }
}

/// Reserves the place of a block's parts in a checkpoint.
pub(crate) fn describe_parts<const HEADS: usize, const MASKED: bool>(
    qkv: &QkvProjector,
    position: &PositionEncoding,
    executor: &MlpExecutor,
    output: &Linear,
    norm_type: NormType,
    cursor: &mut MetadataCursor,
    Ghost(whole): Ghost<InferenceTransformer<HEADS, MASKED>>,
) -> (r: TransformerMetadata)
    requires
        whole.consists_of(*qkv, *position, *executor, *output),
        whole.norm_type == norm_type,
        whole.countable(),
        old(cursor).position + whole.offset(4) <= u64::MAX,
    ensures
        whole.described(r, old(cursor).position as int),
        final(cursor).position == old(cursor).position + whole.offset(4),
{
    proof {
        output.lemma_byte_len();
        executor.lemma_byte_len_grows(0, executor.layers@.len() as int);
        position.lemma_byte_len();
    }
    let qkv = qkv.get_meta_data(cursor);
    let position_encoding = position.get_meta_data(cursor);
    let feed_forward = executor.get_meta_data(cursor);
    let output = output.get_meta_data(cursor);
    TransformerMetadata {
        block_count: 1,
        attention_heads: HEADS,
        attention_residual: true,
        feed_forward_residual: true,
        normalization: norm_type,
        position_encoding,
        query: qkv.query,
        key: qkv.key,
        value: qkv.value,
        feed_forward,
        output,
    }
}

/// Brings the parameters of a block's parts to the host in checkpoint order.
pub(crate) fn read_parts<const HEADS: usize, const MASKED: bool>(
    qkv: &QkvProjector,
    position: &PositionEncoding,
    executor: &MlpExecutor,
    output: &Linear,
    runtime: &mut CudaRuntime,
    Ghost(whole): Ghost<InferenceTransformer<HEADS, MASKED>>,
) -> (r: Vec<HostRead>)
    requires
        old(runtime).wf(),
        whole.consists_of(*qkv, *position, *executor, *output),
        whole.wf(*old(runtime)),
    ensures
        final(runtime).read_out(*old(runtime), r@, whole.parameters(*old(runtime))),
{
    let ghost before = *runtime;
    let ghost ex = *executor;
    let ghost n = ex.layers@.len() as int;
    let mut data = qkv.get_data(runtime);
    let ghost s1 = *runtime;
    let ghost r1 = data@;
    let ghost p1 = qkv.parameters(before);
    proof {
        position.lemma_wf_kept(before, s1);
        position.lemma_kept(before, s1);
    }
    let mut next = position.get_data(runtime);
    let ghost s2 = *runtime;
    let ghost r2 = r1 + next@;
    let ghost p2 = p1 + position.parameters(before);
    proof {
        lemma_read_out_append(
            before,
            s1,
            s2,
            r1,
            next@,
            p1,
            position.parameters(before),
        );
    }
    data.append(&mut next);
    assert(data@ =~= r2);
    proof {
        assert forall|id: usize| #[trigger] ex.owns(id) implies s2.live@.contains(id)
            && s2.mem(id) == before.mem(id) by {
            ex.lemma_owned_live(before, id);
        }
        ex.lemma_wf_kept(before, s2);
        ex.lemma_parameters_kept(before, s2, n);
    }
    let mut next = executor.get_data(runtime);
    let ghost s3 = *runtime;
    let ghost r3 = r2 + next@;
    let ghost p3 = p2 + ex.parameters(before);
    proof {
        lemma_read_out_append(before, s2, s3, r2, next@, p2, ex.parameters(before));
        output.lemma_wf_kept(before, s3);
        output.lemma_parameters_kept(before, s3);
    }
    data.append(&mut next);
    assert(data@ =~= r3);
    let mut next = output.get_data(runtime);
    let ghost r4 = r3 + next@;
    proof {
        lemma_read_out_append(
            before,
            s3,
            *runtime,
            r3,
            next@,
            p3,
            output.parameters(before),
        );
    }
    data.append(&mut next);
    assert(data@ =~= r4);
    data
}

/// Replaces the parameters of a block's parts by the next ones of a source.
#[verifier::rlimit(40)]
pub(crate) fn load_parts<const HEADS: usize, const MASKED: bool>(
    qkv: &mut QkvProjector,
    position: &mut PositionEncoding,
    executor: &mut MlpExecutor,
    output: &mut Linear,
    data: &mut HostDataCursor,
    runtime: &mut CudaRuntime,
    Ghost(whole): Ghost<InferenceTransformer<HEADS, MASKED>>,
)
    requires
        old(runtime).wf(),
        whole.consists_of(*old(qkv), *old(position), *old(executor), *old(output)),
        whole.wf(*old(runtime)),
        whole.fits(*old(data)),
    ensures
        whole.consists_of(*final(qkv), *final(position), *final(executor), *final(output)),
        whole.wf(*final(runtime)),
        took(
            *old(runtime),
            *final(runtime),
            *old(data),
            *final(data),
            whole.parameter_sizes().len(),
            |id: usize| whole.owns(id),
        ),
        whole.parameters(*final(runtime)) == loaded(
            old(data).data@,
            whole.parameter_sizes().len(),
        ),
{
    let ghost before = *runtime;
    let ghost source = *data;
    let ghost q = *qkv;
    let ghost p = *position;
    let ghost ex = *executor;
    let ghost o = *output;
    let ghost n = ex.layers@.len() as int;
    let ghost all = |id: usize| whole.owns(id);
    let ghost n1 = q.parameter_count();
    let ghost n2 = p.parameter_sizes().len();
    let ghost n3 = ex.parameter_sizes().len();
    let ghost n4 = o.parameter_sizes().len();
    let ghost sizes = whole.parameter_sizes();
    proof {
        assert forall|id: usize| #[trigger] whole.owns(id) implies before.live@.contains(id) by {
            if ex.owns(id) {
                ex.lemma_owned_live(before, id);
            }
        }
        assert forall|k: int| 0 <= k < n1 implies (#[trigger] source.data@[k]).values@.len()
            == q.parameter_sizes()[k] by {
            assert(sizes[k] == q.parameter_sizes()[k]);
        }
    }
    qkv.set_data(data, runtime);
    let ghost s1 = *runtime;
    let ghost d1 = *data;
    proof {
        assert forall|id: usize| #[trigger] p.owns(id) implies s1.live@.contains(id) by {
            assert(whole.owns(id));
        }
        p.lemma_wf_kept(before, s1);
        assert forall|k: int| 0 <= k < n2 implies (#[trigger] d1.data@[k]).values@.len()
            == p.parameter_sizes()[k] by {
            assert(d1.data@[k] == source.data@[n1 + k]);
            assert(sizes[n1 + k] == p.parameter_sizes()[k]);
        }
    }
    position.set_data(data, runtime);
    let ghost s2 = *runtime;
    let ghost d2 = *data;
    proof {
        lemma_took_append(
            before,
            s1,
            s2,
            source,
            d1,
            d2,
            n1,
            n2,
            |id: usize| q.owns(id),
            |id: usize| p.owns(id),
            all,
        );
        assert forall|id: usize| #[trigger] ex.owns(id) implies s2.live@.contains(id) by {
            assert(whole.owns(id));
        }
        ex.lemma_wf_kept(before, s2);
        assert forall|k: int| 0 <= k < n3 implies (#[trigger] d2.data@[k]).values@.len()
            == ex.parameter_sizes()[k] by {
            assert(d2.data@[k] == source.data@[n1 + n2 + k]);
            assert(sizes[n1 + n2 + k] == ex.parameter_sizes()[k]);
        }
        ex.lemma_fits(d2);
    }
    executor.set_data(data, runtime);
    let ghost s3 = *runtime;
    let ghost d3 = *data;
    proof {
        ex.lemma_restored(s2, s3, d2, d3);
        lemma_took_append(
            before,
            s2,
            s3,
            source,
            d2,
            d3,
            n1 + n2,
            n3,
            all,
            |id: usize| ex.owns(id),
            all,
        );
        assert forall|id: usize| #[trigger] o.owns(id) implies s3.live@.contains(id) by {
            assert(whole.owns(id));
        }
        o.lemma_wf_kept(before, s3);
        assert forall|k: int| 0 <= k < n4 implies (#[trigger] d3.data@[k]).values@.len()
            == o.parameter_sizes()[k] by {
            assert(d3.data@[k] == source.data@[n1 + n2 + n3 + k]);
            assert(sizes[n1 + n2 + n3 + k] == o.parameter_sizes()[k]);
        }
    }
    output.set_data(data, runtime);
    proof {
        let s4 = *runtime;
        o.lemma_restored(s3, s4, d3, *data);
        lemma_took_append(
            before,
            s3,
            s4,
            source,
            d3,
            *data,
            n1 + n2 + n3,
            n4,
            all,
            |id: usize| o.owns(id),
            all,
        );
        whole.lemma_loads_kept(before, s1, s2, s3, s4);
        whole.lemma_wf_kept(before, s4);
    }
}

} // verus!
