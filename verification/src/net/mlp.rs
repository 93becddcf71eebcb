//! Stacks of layers with at most one residual connection.

pub mod footprint;
pub mod training;

use vstd::prelude::*;

use crate::cuda::algebra::{apply, literals, Term};
use crate::cuda::container::matrix::multipliable;
use crate::cuda::container::{Matrix, Vector};
use crate::cuda::ops::MapFn;
use crate::cuda::runtime::{addressable, chosen, CudaRuntime};
use crate::cuda::scalar::F32;
use crate::graph::state::NodeTrainState;
use crate::net::linear::{
    activated, affine_terms, loaded, optional_terms, took, Linear, LinearMetadata,
};
use crate::net::loss::comparable;
use crate::net::metadata::{HostDataCursor, HostRead, MetadataCursor};

pub use crate::net::loss::Loss;

verus! {

broadcast use crate::cuda::runtime::group_streams;

/// Layers in order, with an optional residual and the loss they train for.
pub struct MlpExecutor {
    pub layers: Vec<Linear>,
    /// A residual from the input of `start` to the output of `end - 1`.
    pub res_range: Option<(usize, usize)>,
    pub loss: Loss,
}

/// The place of a residual in a stack.
#[derive(Clone, Copy, Debug, PartialEq, Eq, Structural)]
pub struct ResidualMetadata {
    pub start: usize,
    pub end: usize,
}

/// The place of a stack in a checkpoint.
pub struct MlpMetadata {
    pub layer_count: usize,
    pub loss: Loss,
    pub residual: Option<ResidualMetadata>,
    pub layers: Vec<LinearMetadata>,
}

impl MlpExecutor {
    /// Whether the stack is not empty and its residual lies inside it.
    pub open spec fn shaped(self) -> bool {
        &&& self.layers@.len() > 0
        &&& self.res_range matches Some(range) ==> range.0 < range.1 && range.1
            <= self.layers@.len()
    }

    /// Whether every layer is alive.
    pub open spec fn wf(self, runtime: CudaRuntime) -> bool {
        &&& self.shaped()
        &&& forall|i: int|
            #![trigger self.layers@[i]]
            0 <= i < self.layers@.len() ==> self.layers@[i].wf(runtime)
    }

    /// Where the residual starts.
    pub open spec fn res_start(self) -> int {
        match self.res_range {
            Some(range) => range.0 as int,
            None => -1,
        }
    }

    /// Where the residual ends.
    pub open spec fn res_end(self) -> int {
        match self.res_range {
            Some(range) => range.1 as int,
            None => -1,
        }
    }

    /// The values between the layers: the input, and what each layer makes of
    /// it.
    pub open spec fn stage(self, runtime: CudaRuntime, input: Seq<Term>, rows: nat, i: int) -> Seq<
        Term,
    >
        decreases i,
    {
        if i <= 0 {
            input
        } else {
            let layer = self.layers@[i - 1];
            activated(
                layer.activation,
                affine_terms(
                    self.stage(runtime, input, rows, i - 1),
                    runtime.matrix(layer.weights),
                    layer.bias_terms(runtime),
                    if self.res_range is Some && self.res_end() == i && self.res_start()
                        < i {
                        Some(self.stage(runtime, input, rows, self.res_start()))
                    } else {
                        None
                    },
                    rows,
                    layer.weights.rows as nat,
                    layer.weights.cols as nat,
                ),
            )
        }
    }

    /// The width of the values between the layers.
    pub open spec fn width(self, i: int) -> usize {
        if i <= 0 {
            self.layers@[0].weights.rows
        } else {
            self.layers@[i - 1].weights.cols
        }
    }

    /// Whether layers fit one another and batches of this many rows.
    pub open spec fn accepts_rows(self, rows: int) -> bool {
        &&& forall|i: int|
            #![trigger self.layers@[i]]
            0 <= i < self.layers@.len() ==> self.layers@[i].weights.rows == self.width(i)
                && multipliable(
                rows,
                self.layers@[i].weights.rows as int,
                self.layers@[i].weights.cols as int,
            ) && addressable(rows * self.layers@[i].weights.cols)
        &&& self.res_range matches Some(range) ==> self.width(range.0 as int) == self.width(
            range.1 as int,
        )
    }

    /// Inputs that the stack accepts.
    pub open spec fn accepts(self, runtime: CudaRuntime, input: Matrix) -> bool {
        &&& runtime.holds(input)
        &&& input.cols == self.width(0)
        &&& self.accepts_rows(input.rows as int)
    }

    pub fn new(layers: Vec<Linear>, res_range: Option<(usize, usize)>) -> (r: MlpExecutor)
        requires
            layers@.len() > 0,
            res_range matches Some(range) ==> range.0 < range.1 && range.1 <= layers@.len(),
        ensures
            r == (MlpExecutor { layers, res_range, loss: Loss::MeanSquaredError }),
            r.shaped(),
    {
        MlpExecutor::with_loss(layers, res_range, Loss::MeanSquaredError)
    }

    pub fn with_loss(layers: Vec<Linear>, res_range: Option<(usize, usize)>, loss: Loss) -> (r:
        MlpExecutor)
        requires
            layers@.len() > 0,
            res_range matches Some(range) ==> range.0 < range.1 && range.1 <= layers@.len(),
        ensures
            r == (MlpExecutor { layers, res_range, loss }),
            r.shaped(),
    {
        MlpExecutor { layers, res_range, loss }
    }

    pub fn len(&self) -> (r: usize)
        ensures
            r == self.layers@.len(),
    {
        self.layers.len()
    }

    pub fn is_empty(&self) -> (r: bool)
        ensures
            r == (self.layers@.len() == 0),
    {
        self.layers.len() == 0
    }

    pub fn loss(&self) -> (r: Loss)
        ensures
            r == self.loss,
    {
        self.loss
    }

    /// Runs all layers. Values between layers are given back as soon as they
    /// are used up.
    #[verifier::rlimit(40)]
    pub fn forward(&self, input: &Matrix, runtime: &mut CudaRuntime) -> (r: Matrix)
        requires
            old(runtime).wf(),
            self.wf(*old(runtime)),
            self.accepts(*old(runtime), *input),
        ensures
            final(runtime).grown(*old(runtime), r.buffer.id, None),
            final(runtime).holds(r),
            r.rows == input.rows,
            r.cols == self.width(self.layers@.len() as int),
            final(runtime).matrix(r) == self.stage(
                *old(runtime),
                old(runtime).matrix(*input),
                input.rows as nat,
                self.layers@.len() as int,
            ),
    {
        let ghost before = *runtime;
        let ghost x = before.matrix(*input);
        let ghost rows = input.rows as nat;
        let mut output: Option<Matrix> = None;
        let mut residual_cache: Option<Matrix> = None;
        let mut index: usize = 0;
        proof {
            runtime.lemma_ran_on_nothing(chosen(None));
        }
        while index < self.layers.len()
            invariant
                index <= self.layers@.len(),
                before.wf(),
                self.wf(before),
                self.accepts(before, *input),
                x == before.matrix(*input),
                rows == input.rows,
                runtime.wf(),
                runtime.keeps(before, Set::empty()),
                runtime.device@.downloads == before.device@.downloads,
                runtime.ran_on(before, chosen(None)),
                (index > 0) == output is Some,
                output matches Some(m) ==> runtime.holds(m) && !before.live@.contains(m.buffer.id)
                    && m.rows == input.rows && m.cols == self.width(index as int)
                    && runtime.matrix(m) == self.stage(before, x, rows, index as int),
                residual_cache is Some == (self.res_range is Some && self.res_start() < index
                    && index < self.res_end()),
                residual_cache matches Some(m) ==> runtime.holds(m) && !before.live@.contains(
                    m.buffer.id,
                ) && m.rows == input.rows && m.cols == self.width(self.res_start())
                    && runtime.matrix(m) == self.stage(
                    before,
                    x,
                    rows,
                    self.res_start(),
                ),
                output is Some && residual_cache is Some ==> output->0.buffer.id
                    != residual_cache->0.buffer.id,
                forall|id: usize|
                    #![trigger runtime.live@.contains(id)]
                    runtime.live@.contains(id) <==> before.live@.contains(id) || (output is Some
                        && output->0.buffer.id == id) || (residual_cache is Some
                        && residual_cache->0.buffer.id == id),
            decreases self.layers@.len() - index,
        {
            let ghost s0 = *runtime;
            let ghost i = index as int;
            proof {
                assert(self.layers@[i].wf(before));
                assert(before.live@.contains(self.layers@[i].weights.buffer.id));
                assert(before.live@.contains(input.buffer.id));
            }
            let layer_input: &Matrix = match &output {
                Some(m) => m,
                None => input,
            };
            let ghost value = self.stage(before, x, rows, i);
            assert(s0.holds(*layer_input) && s0.matrix(*layer_input) == value);
            let starts = match self.res_range {
                Some((start, _)) => index == start,
                None => false,
            };
            let ends = match self.res_range {
                Some((_, end)) => index + 1 == end,
                None => false,
            };
            if starts {
                residual_cache = Some(runtime.clone_matrix(layer_input, None));
            }
            let ghost s1 = *runtime;
            let residual: Option<&Matrix> = if ends {
                match &residual_cache {
                    Some(m) => Some(m),
                    None => None,
                }
            } else {
                None
            };
            proof {
                let layer = self.layers@[i];
                assert(layer.wf(s1)) by {
                    assert(s1.live@.contains(layer.weights.buffer.id));
                    assert(s1.buffers@[layer.weights.buffer.id as int]
                        == layer.weights.buffer.len);
                    if layer.bias is Some {
                        assert(before.live@.contains(layer.bias->0.buffer.id));
                        assert(s1.live@.contains(layer.bias->0.buffer.id));
                        assert(s1.buffers@[layer.bias->0.buffer.id as int]
                            == layer.bias->0.buffer.len);
                    }
                }
                assert(s1.matrix(layer.weights) == before.matrix(layer.weights));
                assert(layer.bias_terms(s1) == layer.bias_terms(before));
                assert(s1.matrix(*layer_input) == value);
                assert(layer.accepts(s1, *layer_input));
                assert(layer.accepts_residual(s1, *layer_input, residual));
                assert(activated(
                    layer.activation,
                    layer.affine_of(s1, *layer_input, optional_terms(s1, residual)),
                ) == self.stage(before, x, rows, i + 1));
            }
            let next = self.layers[index].forward(layer_input, residual, runtime, None);
            let ghost s2 = *runtime;
            if let Some(previous) = output.take() {
                proof {
                    assert(s2.live@.contains(previous.buffer.id));
                    assert(s2.buffers@[previous.buffer.id as int] == previous.buffer.len);
                }
                runtime.recycle_matrix(previous);
                assert(runtime.ran_on(s2, chosen(None)));
            }
            let ghost s3 = *runtime;
            if ends {
                if let Some(used) = residual_cache.take() {
                    proof {
                        assert(s3.live@.contains(used.buffer.id));
                        assert(s3.buffers@[used.buffer.id as int] == used.buffer.len);
                    }
                    runtime.recycle_matrix(used);
                    assert(runtime.ran_on(s3, chosen(None)));
                }
            }
            proof {
                assert(runtime.live@.contains(next.buffer.id));
                assert(runtime.matrix(next) == s2.matrix(next));
            }
            output = Some(next);
            index = index + 1;
        }
        match output {
            Some(m) => {
                assert(runtime.live@ =~= before.live@.insert(m.buffer.id));
                m
            },
            None => runtime.clone_matrix(input, None),
        }
    }

    /// Turns outputs into predictions.
    pub fn activate_output(&self, output: &mut Matrix, runtime: &mut CudaRuntime)
        requires
            old(runtime).wf(),
            old(runtime).holds(*old(output)),
        ensures
            *final(output) == *old(output),
            self.loss is MeanSquaredError ==> *final(runtime) == *old(runtime),
            self.loss is BinaryCrossEntropyWithLogits ==> final(runtime).changed(
                *old(runtime),
                old(output).buffer.id,
                None,
            ) && final(runtime).matrix(*old(output)) == apply(
                MapFn::Sigmoid,
                old(runtime).matrix(*old(output)),
            ),
    {
        self.loss.activate_output(output, runtime);
    }

    /// The mean loss of every row.
    pub fn loss_rows(&self, output: &Matrix, target: &Matrix, positive_weight: F32, runtime: &mut CudaRuntime) -> (r:
        Vector)
        requires
            old(runtime).wf(),
            comparable(*old(runtime), *output, *target, positive_weight),
            output.rows <= u32::MAX,
            output.rows > 0 ==> output.cols > 0,
        ensures
            final(runtime).grown(*old(runtime), r.buffer.id, None),
            final(runtime).holds_vector(r),
            r.buffer.len == output.rows,
            final(runtime).vector(r) == self.loss.row_losses(
                old(runtime).matrix(*output),
                old(runtime).matrix(*target),
                positive_weight,
                output.rows,
                output.cols,
            ),
    {
        self.loss.loss_rows(output, target, positive_weight, runtime)
    }

    /// The gradient of the mean loss by the output.
    pub fn output_gradient(
        &self,
        output: &Matrix,
        target: &Matrix,
        positive_weight: F32,
        runtime: &mut CudaRuntime,
    ) -> (r: Matrix)
        requires
            old(runtime).wf(),
            comparable(*old(runtime), *output, *target, positive_weight),
        ensures
            final(runtime).grown(*old(runtime), r.buffer.id, None),
            final(runtime).holds(r),
            r.rows == output.rows,
            r.cols == output.cols,
            final(runtime).matrix(r) == self.loss.gradient(
                old(runtime).matrix(*output),
                old(runtime).matrix(*target),
                positive_weight,
                output.buffer.len,
            ),
    {
        self.loss.output_gradient(output, target, positive_weight, runtime)
    }

    /// The mean loss of every row and the gradient by the output, with a
    /// Dice term where its weight is above zero.
    pub fn loss_and_output_gradient(
        &self,
        output: &Matrix,
        target: &Matrix,
        positive_weight: F32,
        dice_weight: F32,
        runtime: &mut CudaRuntime,
    ) -> (r: (Vector, Matrix))
        requires
            old(runtime).wf(),
            comparable(*old(runtime), *output, *target, positive_weight),
            output.rows <= u32::MAX,
            output.rows > 0 ==> output.cols > 0,
            dice_weight.finite(),
            dice_weight.value() >= 0,
            dice_weight.value() > 0 ==> self.loss is BinaryCrossEntropyWithLogits,
        ensures
            self.loss.scored(
                *old(runtime),
                *final(runtime),
                *output,
                *target,
                positive_weight,
                dice_weight,
                r,
            ),
    {
        self.loss.loss_and_output_gradient(output, target, positive_weight, dice_weight, runtime)
    }

    /// The values of all parameters of the first layers in checkpoint order.
    pub open spec fn parameters_of(self, runtime: CudaRuntime, layers: int) -> Seq<Seq<Term>>
        decreases layers,
    {
        if layers <= 0 {
            Seq::empty()
        } else {
            self.parameters_of(runtime, layers - 1) + self.layers@[layers - 1].parameters(runtime)
        }
    }

    /// The values of all parameters in checkpoint order.
    pub open spec fn parameters(self, runtime: CudaRuntime) -> Seq<Seq<Term>> {
        self.parameters_of(runtime, self.layers@.len() as int)
    }

    /// How many parameters the first layers have.
    pub open spec fn parameter_count_of(self, layers: int) -> nat
        decreases layers,
    {
        if layers <= 0 {
            0
        } else {
            self.parameter_count_of(layers - 1) + self.layers@[layers - 1].parameter_sizes().len()
        }
    }

    /// Bytes of the parameters of the first layers.
    pub open spec fn byte_len_of(self, layers: int) -> int
        decreases layers,
    {
        if layers <= 0 {
            0
        } else {
            self.byte_len_of(layers - 1) + self.layers@[layers - 1].byte_len()
        }
    }

    /// Bytes of the parameters of some layers are among those of more.
    pub proof fn lemma_byte_len_grows(self, layers: int, more: int)
        requires
            0 <= layers <= more <= self.layers@.len(),
        ensures
            0 <= self.byte_len_of(layers) <= self.byte_len_of(more),
        decreases more,
    {
        if more > 0 {
            let layer = self.layers@[more - 1];
            assert(layer.weights.rows * layer.weights.cols * 4 >= 0) by (nonlinear_arith);
            if layers < more {
                self.lemma_byte_len_grows(layers, more - 1);
            } else {
                self.lemma_byte_len_grows(more - 1, more - 1);
            }
        }
    }

    /// Reserves the stack's place in a checkpoint: the layers follow one
    /// another.
    pub fn get_meta_data(&self, cursor: &mut MetadataCursor) -> (r: MlpMetadata)
        requires
            forall|i: int|
                #![trigger self.layers@[i]]
                0 <= i < self.layers@.len() ==> self.layers@[i].weights.rows
                    * self.layers@[i].weights.cols <= usize::MAX,
            old(cursor).position + self.byte_len_of(self.layers@.len() as int) <= u64::MAX,
        ensures
            r.layer_count == self.layers@.len(),
            r.loss == self.loss,
            r.residual == match self.res_range {
                Some(range) => Some(ResidualMetadata { start: range.0, end: range.1 }),
                None => None,
            },
            r.layers@.len() == self.layers@.len(),
            forall|i: int|
                0 <= i < r.layers@.len() ==> (#[trigger] r.layers@[i]).describes(
                    self.layers@[i],
                    old(cursor).position + self.byte_len_of(i),
                ),
            final(cursor).position == old(cursor).position + self.byte_len_of(
                self.layers@.len() as int,
            ),
    {
        let ghost start = cursor.position;
        let mut layers: Vec<LinearMetadata> = Vec::new();
        let mut i: usize = 0;
        while i < self.layers.len()
            invariant
                i <= self.layers@.len(),
                forall|i: int|
                    #![trigger self.layers@[i]]
                    0 <= i < self.layers@.len() ==> self.layers@[i].weights.rows
                        * self.layers@[i].weights.cols <= usize::MAX,
                start + self.byte_len_of(self.layers@.len() as int) <= u64::MAX,
                cursor.position == start + self.byte_len_of(i as int),
                layers@.len() == i,
                forall|k: int|
                    0 <= k < i ==> (#[trigger] layers@[k]).describes(
                        self.layers@[k],
                        start + self.byte_len_of(k),
                    ),
            decreases self.layers@.len() - i,
        {
            proof {
                self.lemma_byte_len_grows(i + 1, self.layers@.len() as int);
            }
            layers.push(self.layers[i].get_meta_data(cursor));
            i = i + 1;
        }
        MlpMetadata {
            layer_count: self.layers.len(),
            loss: self.loss,
            residual: match self.res_range {
                Some((start, end)) => Some(ResidualMetadata { start, end }),
                None => None,
            },
            layers,
        }
    }

    /// Brings all parameters to the host in checkpoint order.
    pub fn get_data(&self, runtime: &mut CudaRuntime) -> (r: Vec<HostRead>)
        requires
            old(runtime).wf(),
            self.wf(*old(runtime)),
        ensures
            final(runtime).read_out(*old(runtime), r@, self.parameters(*old(runtime))),
    {
        let ghost before = *runtime;
        let mut data: Vec<HostRead> = Vec::new();
        let mut i: usize = 0;
        proof {
            runtime.lemma_ran_on_nothing(chosen(None));
            assert(runtime.device@.downloads =~= before.device@.downloads
                + self.parameters_of(before, 0));
        }
        while i < self.layers.len()
            invariant
                i <= self.layers@.len(),
                before.wf(),
                self.wf(before),
                runtime.read_out(before, data@, self.parameters_of(before, i as int)),
            decreases self.layers@.len() - i,
        {
            let ghost middle = *runtime;
            let ghost sofar = data@;
            let ghost earlier = self.parameters_of(before, i as int);
            proof {
                let layer = self.layers@[i as int];
                assert(layer.wf(before));
                self.lemma_layer_kept(before, middle, i as int);
            }
            let mut next = self.layers[i].get_data(runtime);
            let ghost added = self.layers@[i as int].parameters(before);
            let ghost reads = next@;
            data.append(&mut next);
            i = i + 1;
            proof {
                assert(self.parameters_of(before, i as int) == earlier + added);
                assert(runtime.device@.downloads =~= before.device@.downloads + (earlier + added));
                assert forall|k: int| 0 <= k < data@.len() implies (#[trigger] data@[k]).download
                    == before.device@.downloads.len() + k && data@[k].len == (earlier
                    + added)[k].len() by {
                    if k < sofar.len() {
                        assert(data@[k] == sofar[k]);
                    } else {
                        assert(data@[k] == reads[k - sofar.len()]);
                    }
                }
            }
        }
        data
    }

    /// A layer stays as it is while live buffers and their contents do.
    pub proof fn lemma_layer_kept(self, before: CudaRuntime, after: CudaRuntime, i: int)
        requires
            self.wf(before),
            0 <= i < self.layers@.len(),
            after.keeps(before, Set::empty()),
            forall|id: usize|
                before.live@.contains(id) ==> #[trigger] after.live@.contains(id),
        ensures
            self.layers@[i].wf(after),
            self.layers@[i].parameters(after) == self.layers@[i].parameters(before),
            after.matrix(self.layers@[i].weights) == before.matrix(self.layers@[i].weights),
            self.layers@[i].bias_terms(after) == self.layers@[i].bias_terms(before),
    {
        let layer = self.layers@[i];
        assert(layer.wf(before));
        assert(after.live@.contains(layer.weights.buffer.id));
        assert(after.buffers@[layer.weights.buffer.id as int] == layer.weights.buffer.len);
        if layer.bias is Some {
            assert(after.live@.contains(layer.bias->0.buffer.id));
            assert(after.buffers@[layer.bias->0.buffer.id as int] == layer.bias->0.buffer.len);
        }
    }

    /// No two layers share a buffer.
    pub open spec fn separate(self) -> bool {
        forall|i: int, j: int, id: usize|
            #![trigger self.layers@[i].owns(id), self.layers@[j].owns(id)]
            0 <= i < self.layers@.len() && 0 <= j < self.layers@.len() && self.layers@[i].owns(id)
                && self.layers@[j].owns(id) ==> i == j
    }

    /// Whether a buffer belongs to the stack.
    pub open spec fn owns(self, id: usize) -> bool {
        exists|i: int| 0 <= i < self.layers@.len() && #[trigger] self.layers@[i].owns(id)
    }

    /// Whether a source goes on with values for all parameters.
    pub open spec fn fits(self, source: HostDataCursor) -> bool {
        &&& source.wf()
        &&& source.data@.len() >= self.parameter_count_of(self.layers@.len() as int)
        &&& forall|i: int, k: int|
            0 <= i < self.layers@.len() && 0 <= k < self.layers@[i].parameter_sizes().len()
                ==> source.data@[self.parameter_count_of(i) + k].values@.len()
                == #[trigger] self.layers@[i].parameter_sizes()[k]
    }

    /// Parameters of some layers are among those of more.
    pub proof fn lemma_parameter_count_grows(self, layers: int, more: int)
        requires
            0 <= layers <= more <= self.layers@.len(),
        ensures
            self.parameter_count_of(layers) <= self.parameter_count_of(more),
        decreases more,
    {
        if layers < more {
            self.lemma_parameter_count_grows(layers, more - 1);
        }
    }

    /// Replaces all parameters by the next ones of a source, layer by layer.
    pub fn set_data(&mut self, data: &mut HostDataCursor, runtime: &mut CudaRuntime)
        requires
            old(runtime).wf(),
            old(self).wf(*old(runtime)),
            old(self).separate(),
            old(self).fits(*old(data)),
        ensures
            *final(self) == *old(self),
            old(self).restored(*old(runtime), *final(runtime), *old(data), *final(data)),
    {
        self.restore(data, runtime);
    }

    /// What restoring all parameters from a source takes and leaves.
    pub open spec fn restored(
        self,
        before: CudaRuntime,
        after: CudaRuntime,
        source: HostDataCursor,
        rest: HostDataCursor,
    ) -> bool {
        let n = self.layers@.len() as int;
        &&& rest.wf()
        &&& rest.data@ == source.data@.skip(self.parameter_count_of(n) as int)
        &&& rest.consumed == source.consumed + self.parameter_count_of(n)
        &&& after.wf()
        &&& after.live@ == before.live@
        &&& after.device@.downloads == before.device@.downloads
        &&& after.ran_on(before, chosen(None))
        &&& after.keeps_but(before, |id: usize| self.owns(id))
        &&& self.parameters(after) == Seq::new(
            self.parameter_count_of(n),
            |k: int| literals(source.data@[k].values@),
        )
    }

    /// The same through a shared borrow: only device memory changes.
    pub(crate) fn restore(&self, data: &mut HostDataCursor, runtime: &mut CudaRuntime)
        requires
            old(runtime).wf(),
            self.wf(*old(runtime)),
            self.separate(),
            self.fits(*old(data)),
        ensures
            self.restored(*old(runtime), *final(runtime), *old(data), *final(data)),
    {
        let ghost before = *runtime;
        let ghost source = *data;
        let ghost n = self.layers@.len() as int;
        let mut i: usize = 0;
        proof {
            runtime.lemma_ran_on_nothing(chosen(None));
            assert(source.data@.skip(0) =~= source.data@);
            assert(self.parameters_of(*runtime, 0) =~= Seq::new(
                self.parameter_count_of(0),
                |k: int| literals(source.data@[k].values@),
            ));
        }
        while i < self.layers.len()
            invariant
                i <= self.layers@.len(),
                n == self.layers@.len(),
                before.wf(),
                self.wf(before),
                self.separate(),
                self.fits(source),
                data.wf(),
                data.data@ == source.data@.skip(self.parameter_count_of(i as int) as int),
                data.consumed == source.consumed + self.parameter_count_of(i as int),
                runtime.wf(),
                runtime.live@ == before.live@,
                runtime.device@.downloads == before.device@.downloads,
                runtime.ran_on(before, chosen(None)),
                runtime.keeps_but(before, |id: usize| self.owns(id)),
                self.parameters_of(*runtime, i as int) == Seq::new(
                    self.parameter_count_of(i as int),
                    |k: int| literals(source.data@[k].values@),
                ),
            decreases self.layers@.len() - i,
        {
            let ghost middle = *runtime;
            let ghost here = *data;
            let ghost c = self.parameter_count_of(i as int) as int;
            let ghost layer = self.layers@[i as int];
            proof {
                self.lemma_parameter_count_grows(i + 1, n);
                assert(layer.wf(before));
                assert(layer.wf(middle)) by {
                    assert(middle.buffers@[layer.weights.buffer.id as int]
                        == layer.weights.buffer.len);
                    if layer.bias is Some {
                        assert(middle.buffers@[layer.bias->0.buffer.id as int]
                            == layer.bias->0.buffer.len);
                    }
                }
                assert forall|k: int| 0 <= k < layer.parameter_sizes().len() implies (
                #[trigger] here.data@[k]).values@.len() == layer.parameter_sizes()[k] by {
                    assert(here.data@[k] == source.data@[c + k]);
                    assert(self.layers@[i as int].parameter_sizes()[k]
                        == layer.parameter_sizes()[k]);
                }
            }
            self.layers[i].restore(data, runtime);
            proof {
                assert(layer.owns(layer.weights.buffer.id));
                assert forall|id: usize| layer.owns(id) implies self.owns(id) by {
                    assert(self.layers@[i as int].owns(id));
                }
                self.lemma_other_parameters_kept(middle, *runtime, i as int, i as int);
                let size = layer.parameter_sizes().len();
                assert(self.parameter_count_of(i + 1) == c + size);
                assert(self.parameters_of(*runtime, i + 1) =~= Seq::new(
                    self.parameter_count_of(i + 1),
                    |k: int| literals(source.data@[k].values@),
                )) by {
                    assert forall|k: int| 0 <= k < size implies #[trigger] layer.parameters(
                        *runtime,
                    )[k] == literals(source.data@[c + k].values@) by {
                        assert(here.data@[k] == source.data@[c + k]);
                    }
                }
                assert(here.data@.skip(size as int) =~= source.data@.skip(c + size));
            }
            i = i + 1;
        }
    }

    /// Changing one layer's parameters leaves those of the layers before it.
    proof fn lemma_other_parameters_kept(
        self,
        before: CudaRuntime,
        after: CudaRuntime,
        changed: int,
        layers: int,
    )
        requires
            self.separate(),
            0 <= layers <= changed < self.layers@.len(),
            after.keeps_but(before, |id: usize| self.layers@[changed].owns(id)),
            forall|i: int, id: usize|
                0 <= i < self.layers@.len() && #[trigger] self.layers@[i].owns(id)
                    ==> before.live@.contains(id),
        ensures
            self.parameters_of(after, layers) == self.parameters_of(before, layers),
        decreases layers,
    {
        if layers > 0 {
            self.lemma_other_parameters_kept(before, after, changed, layers - 1);
            let layer = self.layers@[layers - 1];
            let w = layer.weights.buffer.id;
            assert(self.layers@[layers - 1].owns(w));
            assert(!self.layers@[changed].owns(w));
            if layer.bias is Some {
                let b = layer.bias->0.buffer.id;
                assert(self.layers@[layers - 1].owns(b));
                assert(!self.layers@[changed].owns(b));
            }
            assert(layer.parameters(after) =~= layer.parameters(before));
        }
    }
}

impl MlpExecutor {
    /// The sizes of the first layers' parameters in checkpoint order.
    pub open spec fn sizes_of(self, layers: int) -> Seq<usize>
        decreases layers,
    {
        if layers <= 0 {
            Seq::empty()
        } else {
            self.sizes_of(layers - 1) + self.layers@[layers - 1].parameter_sizes()
        }
    }

    /// The sizes of all parameters in checkpoint order.
    pub open spec fn parameter_sizes(self) -> Seq<usize> {
        self.sizes_of(self.layers@.len() as int)
    }

    /// Where the sizes of a layer stand among those of more layers.
    #[verifier::spinoff_prover]
    pub proof fn lemma_sizes_of(self, i: int, layers: int)
        requires
            0 <= i < layers <= self.layers@.len(),
        ensures
            self.sizes_of(layers).len() == self.parameter_count_of(layers),
            forall|k: int|
                #![trigger self.layers@[i].parameter_sizes()[k]]
                0 <= k < self.layers@[i].parameter_sizes().len()
                    ==> self.sizes_of(layers)[self.parameter_count_of(i) + k]
                    == self.layers@[i].parameter_sizes()[k] && self.parameter_count_of(i) + k
                    < self.sizes_of(layers).len(),
        decreases layers,
    {
        self.lemma_sizes_len(layers);
        self.lemma_sizes_len(layers - 1);
        self.lemma_sizes_len(i);
        if i < layers - 1 {
            self.lemma_sizes_of(i, layers - 1);
        }
        let fewer = self.sizes_of(layers - 1);
        let last = self.layers@[layers - 1].parameter_sizes();
        let sizes = self.layers@[i].parameter_sizes();
        assert(self.sizes_of(layers) == fewer + last);
        assert forall|k: int|
            #![trigger self.layers@[i].parameter_sizes()[k]]
            0 <= k < sizes.len() implies self.sizes_of(layers)[self.parameter_count_of(i) + k]
            == sizes[k] && self.parameter_count_of(i) + k < self.sizes_of(layers).len() by {
            let at = self.parameter_count_of(i) + k;
            if i < layers - 1 {
                assert(fewer[at] == self.layers@[i].parameter_sizes()[k] && at < fewer.len());
                assert((fewer + last)[at] == fewer[at]);
            } else {
                assert((fewer + last)[at] == last[k]);
            }
        }
    }

    /// As many sizes as parameters.
    pub proof fn lemma_sizes_len(self, layers: int)
        requires
            0 <= layers <= self.layers@.len(),
        ensures
            self.sizes_of(layers).len() == self.parameter_count_of(layers),
        decreases layers,
    {
        if layers > 0 {
            self.lemma_sizes_len(layers - 1);
        }
    }

    /// A source with values of all sizes fits.
    pub proof fn lemma_fits(self, source: HostDataCursor)
        requires
            source.wf(),
            source.data@.len() >= self.parameter_sizes().len(),
            forall|k: int|
                0 <= k < self.parameter_sizes().len() ==> (#[trigger] source.data@[k]).values@.len()
                    == self.parameter_sizes()[k],
        ensures
            self.fits(source),
    {
        let n = self.layers@.len() as int;
        self.lemma_sizes_len(n);
        assert forall|i: int, k: int|
            0 <= i < n && 0 <= k < self.layers@[i].parameter_sizes().len() implies source.data@[self.parameter_count_of(
            i,
        ) + k].values@.len() == #[trigger] self.layers@[i].parameter_sizes()[k] by {
            self.lemma_sizes_of(i, n);
            let at = self.parameter_count_of(i) + k;
            assert(self.sizes_of(n)[at] == self.layers@[i].parameter_sizes()[k]);
            assert(source.data@[at].values@.len() == self.parameter_sizes()[at]);
        }
    }

    /// Restoring parameters, in the form that composes.
    pub proof fn lemma_restored(
        self,
        before: CudaRuntime,
        after: CudaRuntime,
        source: HostDataCursor,
        rest: HostDataCursor,
    )
        requires
            self.fits(source),
            self.restored(before, after, source, rest),
        ensures
            took(
                before,
                after,
                source,
                rest,
                self.parameter_sizes().len(),
                |id: usize| self.owns(id),
            ),
            self.parameters(after) == loaded(source.data@, self.parameter_sizes().len()),
    {
        self.lemma_sizes_len(self.layers@.len() as int);
        assert(self.parameters(after) =~= loaded(source.data@, self.parameter_sizes().len()));
    }

    /// The parameters stay while the buffers do.
    pub proof fn lemma_parameters_kept(self, before: CudaRuntime, after: CudaRuntime, layers: int)
        requires
            0 <= layers <= self.layers@.len(),
            forall|id: usize| #[trigger] self.owns(id) ==> after.mem(id) == before.mem(id),
        ensures
            self.parameters_of(after, layers) == self.parameters_of(before, layers),
        decreases layers,
    {
        if layers > 0 {
            self.lemma_parameters_kept(before, after, layers - 1);
            let layer = self.layers@[layers - 1];
            assert forall|id: usize| #[trigger] layer.owns(id) implies after.mem(id) == before.mem(
                id,
            ) by {
                assert(self.layers@[layers - 1].owns(id));
                assert(self.owns(id));
            }
            layer.lemma_parameters_kept(before, after);
        }
    }

    /// The layers stay alive while their buffers do.
    pub proof fn lemma_wf_kept(self, before: CudaRuntime, after: CudaRuntime)
        requires
            before.wf(),
            self.wf(before),
            before.buffers@.len() <= after.buffers@.len(),
            forall|id: usize|
                #![trigger after.buffers@[id as int]]
                id < before.buffers@.len() ==> after.buffers@[id as int]
                    == before.buffers@[id as int],
            forall|id: usize| #[trigger] self.owns(id) ==> after.live@.contains(id),
        ensures
            self.wf(after),
    {
        assert forall|i: int| #![trigger self.layers@[i]] 0 <= i < self.layers@.len() implies self.layers@[i].wf(
            after,
        ) by {
            let layer = self.layers@[i];
            assert(layer.wf(before));
            assert forall|id: usize| #[trigger] layer.owns(id) implies after.live@.contains(id) by {
                assert(self.layers@[i].owns(id));
                assert(self.owns(id));
            }
            layer.lemma_wf_kept(before, after);
        }
    }

    /// The values between layers stay while the buffers do.
    pub proof fn lemma_stage_kept(
        self,
        before: CudaRuntime,
        after: CudaRuntime,
        x: Seq<Term>,
        rows: nat,
        i: int,
    )
        requires
            self.shaped(),
            0 <= i <= self.layers@.len(),
            forall|id: usize| #[trigger] self.owns(id) ==> after.mem(id) == before.mem(id),
        ensures
            self.stage(after, x, rows, i) == self.stage(before, x, rows, i),
        decreases i,
    {
        if i > 0 {
            self.lemma_stage_kept(before, after, x, rows, i - 1);
            let layer = self.layers@[i - 1];
            assert(self.layers@[i - 1].owns(layer.weights.buffer.id));
            assert(self.owns(layer.weights.buffer.id));
            if layer.bias is Some {
                assert(self.layers@[i - 1].owns(layer.bias->0.buffer.id));
                assert(self.owns(layer.bias->0.buffer.id));
            }
            if self.res_range is Some && self.res_end() == i && self.res_start() < i {
                self.lemma_stage_kept(before, after, x, rows, self.res_start());
            }
        }
    }

    /// Every owned buffer is alive.
    pub proof fn lemma_owned_live(self, runtime: CudaRuntime, id: usize)
        requires
            self.wf(runtime),
            self.owns(id),
        ensures
            runtime.live@.contains(id),
    {
        let i = choose|i: int| 0 <= i < self.layers@.len() && #[trigger] self.layers@[i].owns(id);
        assert(self.layers@[i].wf(runtime));
    }
}

/// A stack for inference.
pub struct InferenceMLP {
    pub executor: MlpExecutor,
}

impl InferenceMLP {
    pub fn new(layers: Vec<Linear>, res_range: Option<(usize, usize)>) -> (r: InferenceMLP)
        requires
            layers@.len() > 0,
            res_range matches Some(range) ==> range.0 < range.1 && range.1 <= layers@.len(),
        ensures
            r.executor == (MlpExecutor { layers, res_range, loss: Loss::MeanSquaredError }),
            r.executor.shaped(),
    {
        InferenceMLP::with_loss(layers, res_range, Loss::MeanSquaredError)
    }

    pub fn with_loss(layers: Vec<Linear>, res_range: Option<(usize, usize)>, loss: Loss) -> (r:
        InferenceMLP)
        requires
            layers@.len() > 0,
            res_range matches Some(range) ==> range.0 < range.1 && range.1 <= layers@.len(),
        ensures
            r.executor == (MlpExecutor { layers, res_range, loss }),
            r.executor.shaped(),
    {
        InferenceMLP { executor: MlpExecutor::with_loss(layers, res_range, loss) }
    }

    /// Reserves the stack's place in a checkpoint.
    pub fn get_meta_data(&self, cursor: &mut MetadataCursor) -> (r: MlpMetadata)
        requires
            forall|i: int|
                #![trigger self.executor.layers@[i]]
                0 <= i < self.executor.layers@.len() ==> self.executor.layers@[i].weights.rows
                    * self.executor.layers@[i].weights.cols <= usize::MAX,
            old(cursor).position + self.executor.byte_len_of(self.executor.layers@.len() as int)
                <= u64::MAX,
        ensures
            r.layer_count == self.executor.layers@.len(),
            r.loss == self.executor.loss,
            r.residual == match self.executor.res_range {
                Some(range) => Some(ResidualMetadata { start: range.0, end: range.1 }),
                None => None,
            },
            r.layers@.len() == self.executor.layers@.len(),
            forall|i: int|
                0 <= i < r.layers@.len() ==> (#[trigger] r.layers@[i]).describes(
                    self.executor.layers@[i],
                    old(cursor).position + self.executor.byte_len_of(i),
                ),
            final(cursor).position == old(cursor).position + self.executor.byte_len_of(
                self.executor.layers@.len() as int,
            ),
    {
        self.executor.get_meta_data(cursor)
    }

    /// Brings all parameters to the host in checkpoint order.
    pub fn get_data(&self, runtime: &mut CudaRuntime) -> (r: Vec<HostRead>)
        requires
            old(runtime).wf(),
            self.executor.wf(*old(runtime)),
        ensures
            final(runtime).read_out(*old(runtime), r@, self.executor.parameters(*old(runtime))),
    {
        self.executor.get_data(runtime)
    }

    /// Replaces all parameters by the next ones of a source.
    pub fn set_data(&mut self, data: &mut HostDataCursor, runtime: &mut CudaRuntime)
        requires
            old(runtime).wf(),
            old(self).executor.wf(*old(runtime)),
            old(self).executor.separate(),
            old(self).executor.fits(*old(data)),
        ensures
            *final(self) == *old(self),
            old(self).executor.restored(*old(runtime), *final(runtime), *old(data), *final(data)),
    {
        self.executor.set_data(data, runtime);
    }

    pub fn loss(&self) -> (r: Loss)
        ensures
            r == self.executor.loss,
    {
        self.executor.loss()
    }

    /// Training state for every layer.
    pub fn create_train_state(&self) -> (r: NodeTrainState)
        ensures
            r.is_fresh(0),
            r.children@.len() == self.executor.layers@.len(),
            forall|i: int| 0 <= i < r.children@.len() ==> (#[trigger] r.children@[i]).is_fresh(2),
    {
        let mut children: Vec<NodeTrainState> = Vec::new();
        let mut i: usize = 0;
        while i < self.executor.layers.len()
            invariant
                i <= self.executor.layers@.len(),
                children@.len() == i,
                forall|k: int| 0 <= k < i ==> (#[trigger] children@[k]).is_fresh(2),
            decreases self.executor.layers@.len() - i,
        {
            children.push(self.executor.layers[i].create_train_state());
            i = i + 1;
        }
        NodeTrainState::with_children(children)
    }

    /// Runs all layers.
    pub fn forward(&self, input: &Matrix, runtime: &mut CudaRuntime) -> (r: Matrix)
        requires
            old(runtime).wf(),
            self.executor.wf(*old(runtime)),
            self.executor.accepts(*old(runtime), *input),
        ensures
            final(runtime).grown(*old(runtime), r.buffer.id, None),
            final(runtime).holds(r),
            r.rows == input.rows,
            r.cols == self.executor.width(self.executor.layers@.len() as int),
            final(runtime).matrix(r) == self.executor.stage(
                *old(runtime),
                old(runtime).matrix(*input),
                input.rows as nat,
                self.executor.layers@.len() as int,
            ),
    {
        self.executor.forward(input, runtime)
    }

    /// Runs all layers and turns the output into a prediction.
    pub fn predict(&self, input: &Matrix, runtime: &mut CudaRuntime) -> (r: Matrix)
        requires
            old(runtime).wf(),
            self.executor.wf(*old(runtime)),
            self.executor.accepts(*old(runtime), *input),
        ensures
            final(runtime).grown(*old(runtime), r.buffer.id, None),
            final(runtime).holds(r),
            r.rows == input.rows,
            r.cols == self.executor.width(self.executor.layers@.len() as int),
            final(runtime).matrix(r) == ({
                let output = self.executor.stage(
                    *old(runtime),
                    old(runtime).matrix(*input),
                    input.rows as nat,
                    self.executor.layers@.len() as int,
                );
                if self.executor.loss is BinaryCrossEntropyWithLogits {
                    apply(MapFn::Sigmoid, output)
                } else {
                    output
                }
            }),
    {
        let mut output = self.forward(input, runtime);
        self.executor.activate_output(&mut output, runtime);
        output
    }
}

} // verus!
