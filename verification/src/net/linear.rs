//! The affine layer: its values, its gradients and its optimizer step.

use vstd::prelude::*;

use crate::cuda::algebra::{apply, literals, product, row_totals, transpose, zip, zip_by_rows, Term};
use crate::cuda::arith::lemma_position_in_range;
use crate::cuda::command::Stream;
use crate::cuda::container::matrix::{multipliable, squares_fit};
use crate::cuda::container::{Matrix, Vector};
use crate::cuda::exact::{law_row_totals_are_sums, lemma_sum_equal, sum, Exact};
use crate::cuda::meaning::{number, Reading};
use crate::cuda::ops::{BinaryFn, MapFn};
use crate::cuda::runtime::{addressable, chosen, CudaRuntime};
use crate::cuda::scalar::{Scalar, F32};
use crate::graph::config::{LearnConfig, MatrixConfig};
use crate::graph::schedule::Rate;
use crate::graph::state::{NodeTrainState, ParameterBuffer, ParameterTrainState};
use crate::net::exact::{law_weight_gradients_are_sums, lemma_quotient};
use crate::net::metadata::{
    range_holds, HostData, HostDataCursor, HostRead, MatrixMetadata, MetadataCursor, VectorMetadata,
    SCALAR_BYTES,
};

pub use crate::net::activation::Activation;

verus! {

broadcast use {crate::cuda::runtime::group_streams, crate::cuda::elementwise::lemma_launched};

/// Device-independent description of a Linear block. Parameter storage is
/// created only when its containing graph is initialized.
#[derive(Clone, Copy, Debug, PartialEq, Eq, Structural)]
pub struct LinearConfig {
    pub weights: MatrixConfig,
    pub bias: bool,
    pub activation: Activation,
}

impl LinearConfig {
    pub fn new(weights: MatrixConfig, bias: bool, activation: Activation) -> (r: LinearConfig)
        ensures
            r == (LinearConfig { weights, bias, activation }),
    {
        LinearConfig { weights, bias, activation }
    }
}

/// A layer `activation(input * weights + bias)`.
pub struct Linear {
    pub weights: Matrix,
    pub bias: Option<Vector>,
    pub activation: Activation,
}

/// The place of a layer in a checkpoint.
#[derive(Clone, Copy, Debug, PartialEq, Eq)]
pub struct LinearMetadata {
    pub input_neurons: usize,
    pub output_neurons: usize,
    pub activation: Activation,
    pub weights: MatrixMetadata,
    pub bias: Option<VectorMetadata>,
}

impl LinearMetadata {
    /// Whether this is the description of a layer whose parameters start at a
    /// byte position: the weights, and right behind them the bias.
    pub open spec fn describes(self, layer: Linear, start: int) -> bool {
        &&& self.input_neurons == layer.weights.rows
        &&& self.output_neurons == layer.weights.cols
        &&& self.activation == layer.activation
        &&& self.weights.rows == layer.weights.rows
        &&& self.weights.cols == layer.weights.cols
        &&& self.weights.byte_start == start
        &&& range_holds(
            self.weights.byte_start as int,
            self.weights.byte_end as int,
            layer.weights.rows * layer.weights.cols,
        )
        &&& self.bias is Some == layer.bias is Some
        &&& self.bias matches Some(b) ==> b.len == layer.bias->0.buffer.len && b.byte_start
            == self.weights.byte_end && range_holds(
            b.byte_start as int,
            b.byte_end as int,
            b.len as int,
        )
    }
}

/// `x * w`, plus the bias in every row, plus the residual.
pub open spec fn affine_terms(
    x: Seq<Term>,
    w: Seq<Term>,
    bias: Option<Seq<Term>>,
    residual: Option<Seq<Term>>,
    rows: nat,
    inner: nat,
    cols: nat,
) -> Seq<Term> {
    let plain = product(x, w, rows, inner, cols);
    let biased = match bias {
        Some(b) => zip_by_rows(BinaryFn::Add, plain, b, cols),
        None => plain,
    };
    match residual {
        Some(r) => zip(BinaryFn::Add, biased, r),
        None => biased,
    }
}

/// An activation applied to every element; the identity does nothing.
pub open spec fn activated(activation: Activation, x: Seq<Term>) -> Seq<Term> {
    if activation is Identity {
        x
    } else {
        apply(MapFn::Activate(activation), x)
    }
}

/// The gradient before the activation.
pub open spec fn pre_activation_gradient(
    activation: Activation,
    pre_activation: Seq<Term>,
    gradient: Seq<Term>,
) -> Seq<Term> {
    if activation is Identity {
        gradient
    } else {
        zip(BinaryFn::Mul, gradient, apply(MapFn::Slope(activation), pre_activation))
    }
}

/// The gradient of the bias: the sum over all rows.
pub open spec fn bias_gradient_terms(gradient: Seq<Term>, rows: nat, cols: nat) -> Seq<Term> {
    row_totals(transpose(gradient, rows, cols), cols, rows)
}

/// The gradient of the weights: the transposed input times the gradient.
pub open spec fn weight_gradient_terms(
    x: Seq<Term>,
    gradient: Seq<Term>,
    rows: nat,
    inner: nat,
    cols: nat,
) -> Seq<Term> {
    product(transpose(x, rows, inner), gradient, inner, rows, cols)
}

/// The gradient of the input: the gradient times the transposed weights.
pub open spec fn input_gradient_terms(
    gradient: Seq<Term>,
    w: Seq<Term>,
    rows: nat,
    inner: nat,
    cols: nat,
) -> Seq<Term> {
    product(gradient, transpose(w, inner, cols), rows, cols, inner)
}

/// What an optional matrix holds.
pub open spec fn optional_terms(runtime: CudaRuntime, m: Option<&Matrix>) -> Option<Seq<Term>> {
    match m {
        Some(m) => Some(runtime.matrix(*m)),
        None => None,
    }
}

impl Linear {
    /// Whether the parameters are alive and fit together.
    pub open spec fn wf(self, runtime: CudaRuntime) -> bool {
        &&& runtime.holds(self.weights)
        &&& match self.bias {
            Some(b) => {
                &&& runtime.holds_vector(b)
                &&& b.buffer.len == self.weights.cols
                &&& b.buffer.id != self.weights.buffer.id
            },
            None => true,
        }
    }

    /// Whether a buffer belongs to this layer.
    pub open spec fn owns(self, id: usize) -> bool {
        id == self.weights.buffer.id || match self.bias {
            Some(b) => id == b.buffer.id,
            None => false,
        }
    }

    /// What the bias holds.
    pub open spec fn bias_terms(self, runtime: CudaRuntime) -> Option<Seq<Term>> {
        match self.bias {
            Some(b) => Some(runtime.vector(b)),
            None => None,
        }
    }

    /// The values of the parameters in checkpoint order.
    pub open spec fn parameters(self, runtime: CudaRuntime) -> Seq<Seq<Term>> {
        match self.bias {
            Some(b) => seq![runtime.matrix(self.weights), runtime.vector(b)],
            None => seq![runtime.matrix(self.weights)],
        }
    }

    /// The sizes of the parameters in checkpoint order.
    pub open spec fn parameter_sizes(self) -> Seq<usize> {
        match self.bias {
            Some(b) => seq![self.weights.buffer.len, b.buffer.len],
            None => seq![self.weights.buffer.len],
        }
    }

    /// What the layer computes before its activation.
    pub open spec fn affine_of(self, runtime: CudaRuntime, input: Matrix, residual: Option<Seq<Term>>) -> Seq<
        Term,
    > {
        affine_terms(
            runtime.matrix(input),
            runtime.matrix(self.weights),
            self.bias_terms(runtime),
            residual,
            input.rows as nat,
            input.cols as nat,
            self.weights.cols as nat,
        )
    }

    /// Inputs that the layer accepts.
    pub open spec fn accepts(self, runtime: CudaRuntime, input: Matrix) -> bool {
        &&& runtime.holds(input)
        &&& input.cols == self.weights.rows
        &&& multipliable(input.rows as int, input.cols as int, self.weights.cols as int)
        &&& addressable(input.rows * self.weights.cols)
    }

    /// Residuals that fit the layer's output.
    pub open spec fn accepts_residual(
        self,
        runtime: CudaRuntime,
        input: Matrix,
        residual: Option<&Matrix>,
    ) -> bool {
        match residual {
            Some(r) => {
                &&& runtime.holds(*r)
                &&& r.rows == input.rows
                &&& r.cols == self.weights.cols
            },
            None => true,
        }
    }

    pub fn input_neurons(&self) -> (r: usize)
        ensures
            r == self.weights.rows,
    {
        self.weights.rows()
    }

    pub fn output_neurons(&self) -> (r: usize)
        ensures
            r == self.weights.cols,
    {
        self.weights.cols()
    }

    pub fn new(weights: Matrix, bias: Option<Vector>, activation: Activation) -> (r: Linear)
        ensures
            r == (Linear { weights, bias, activation }),
    {
        Linear { weights, bias, activation }
    }

    /// Reserves the layer's place in a checkpoint.
    pub fn get_meta_data(&self, cursor: &mut MetadataCursor) -> (r: LinearMetadata)
        requires
            self.weights.rows * self.weights.cols <= usize::MAX,
            old(cursor).position + self.byte_len() <= u64::MAX,
        ensures
            r.describes(*self, old(cursor).position as int),
            final(cursor).position == old(cursor).position + self.byte_len(),
    {
        let weights = cursor.matrix(self.weights.rows(), self.weights.cols());
        let bias = match &self.bias {
            Some(b) => Some(cursor.vector(b.len())),
            None => None,
        };
        LinearMetadata {
            input_neurons: self.weights.rows(),
            output_neurons: self.weights.cols(),
            activation: self.activation,
            weights,
            bias,
        }
    }

    /// Bytes of the parameters in a checkpoint.
    pub open spec fn byte_len(self) -> int {
        self.weights.rows * self.weights.cols * SCALAR_BYTES + match self.bias {
            Some(b) => b.buffer.len * SCALAR_BYTES,
            None => 0,
        }
    }

    /// Brings the parameters to the host in checkpoint order.
    pub fn get_data(&self, runtime: &mut CudaRuntime) -> (r: Vec<HostRead>)
        requires
            old(runtime).wf(),
            self.wf(*old(runtime)),
        ensures
            final(runtime).read_out(*old(runtime), r@, self.parameters(*old(runtime))),
            forall|k: int|
                0 <= k < r@.len() ==> (#[trigger] r@[k]).len == self.parameter_sizes()[k],
    {
        let ghost before = *runtime;
        let mut data: Vec<HostRead> = Vec::new();
        let first: usize = self.weights.to_host(runtime, None);
        data.push(HostRead { download: first, len: self.weights.buffer.len() });
        if let Some(bias) = &self.bias {
            let second: usize = bias.to_host(runtime, None);
            data.push(HostRead { download: second, len: bias.len() });
        }
        proof {
            assert(runtime.device@.downloads =~= before.device@.downloads + self.parameters(
                before,
            ));
        }
        data
    }

    /// What restoring parameters from a source takes and leaves.
    pub open spec fn restored(
        self,
        before: CudaRuntime,
        after: CudaRuntime,
        source: HostDataCursor,
        rest: HostDataCursor,
    ) -> bool {
        &&& rest.wf()
        &&& rest.data@ == source.data@.skip(self.parameter_sizes().len() as int)
        &&& rest.consumed == source.consumed + self.parameter_sizes().len()
        &&& after.wf()
        &&& after.live@ == before.live@
        &&& after.device@.downloads == before.device@.downloads
        &&& after.ran_on(before, chosen(None))
        &&& after.keeps_but(before, |id: usize| self.owns(id))
        &&& self.parameters(after) == Seq::new(
            self.parameter_sizes().len(),
            |k: int| literals(source.data@[k].values@),
        )
    }

    /// Whether a source goes on with values for these parameters.
    pub open spec fn fits(self, source: HostDataCursor) -> bool {
        &&& source.wf()
        &&& source.data@.len() >= self.parameter_sizes().len()
        &&& forall|k: int|
            0 <= k < self.parameter_sizes().len() ==> (#[trigger] source.data@[k]).values@.len()
                == self.parameter_sizes()[k]
    }

    /// Replaces the parameters by the next ones of a source.
    pub fn set_data(&mut self, data: &mut HostDataCursor, runtime: &mut CudaRuntime)
        requires
            old(runtime).wf(),
            old(self).wf(*old(runtime)),
            old(self).fits(*old(data)),
        ensures
            *final(self) == *old(self),
            old(self).restored(*old(runtime), *final(runtime), *old(data), *final(data)),
    {
        self.restore(data, runtime);
    }

    /// The same through a shared borrow: only device memory changes.
    pub(crate) fn restore(&self, data: &mut HostDataCursor, runtime: &mut CudaRuntime)
        requires
            old(runtime).wf(),
            self.wf(*old(runtime)),
            self.fits(*old(data)),
        ensures
            self.restored(*old(runtime), *final(runtime), *old(data), *final(data)),
    {
        let ghost source = data.data@;
        let ghost before = *runtime;
        let weights = data.take();
        proof {
            assert(weights == source[0]);
            assert(source[0].values@.len() == self.parameter_sizes()[0]);
        }
        runtime.upload(&self.weights.buffer, weights.values(), None);
        let ghost middle = *runtime;
        match &self.bias {
            Some(bias) => {
                proof {
                    assert(source.drop_first()[0] == source[1]);
                    assert(source[1].values@.len() == self.parameter_sizes()[1]);
                }
                let values = data.take();
                runtime.upload(&bias.buffer, values.values(), None);
                assert(source.drop_first().drop_first() =~= source.skip(2));
            },
            None => {
                assert(source.drop_first() =~= source.skip(1));
            },
        }
        assert(self.parameters(*runtime) =~= Seq::new(
            self.parameter_sizes().len(),
            |k: int| literals(source[k].values@),
        ));
    }
}

impl CudaRuntime {
    /// A later state in which parameters were brought to the host in order.
    pub open spec fn read_out(
        self,
        before: CudaRuntime,
        reads: Seq<HostRead>,
        parameters: Seq<Seq<Term>>,
    ) -> bool {
        &&& self.wf()
        &&& self.live@ == before.live@
        &&& self.keeps(before, Set::empty())
        &&& self.device@.downloads == before.device@.downloads + parameters
        &&& self.ran_on(before, chosen(None))
        &&& reads.len() == parameters.len()
        &&& forall|k: int|
            0 <= k < reads.len() ==> (#[trigger] reads[k]).download
                == before.device@.downloads.len() + k && reads[k].len == parameters[k].len()
    }

    /// Whether nothing but the described buffers changed among those that were
    /// alive before.
    pub open spec fn keeps_but(self, before: CudaRuntime, changed: spec_fn(usize) -> bool) -> bool {
        &&& forall|id: usize|
            #![trigger self.mem(id)]
            before.live@.contains(id) && !changed(id) ==> self.mem(id) == before.mem(id)
        &&& forall|id: usize|
            #![trigger self.buffers@[id as int]]
            id < before.buffers@.len() ==> id < self.buffers@.len() && self.buffers@[id as int]
                == before.buffers@[id as int]
        &&& before.buffers@.len() <= self.buffers@.len()
        &&& before.draws@.len() <= self.draws@.len()
        &&& self.recorded(before)
    }
}

/// Reading out one list of parameters after another.
pub proof fn lemma_read_out_append(
    before: CudaRuntime,
    middle: CudaRuntime,
    after: CudaRuntime,
    first: Seq<HostRead>,
    second: Seq<HostRead>,
    p: Seq<Seq<Term>>,
    q: Seq<Seq<Term>>,
)
    requires
        middle.read_out(before, first, p),
        after.read_out(middle, second, q),
    ensures
        after.read_out(before, first + second, p + q),
{
    let reads = first + second;
    assert(after.device@.downloads =~= before.device@.downloads + (p + q));
    assert forall|k: int| 0 <= k < reads.len() implies (#[trigger] reads[k]).download
        == before.device@.downloads.len() + k && reads[k].len == (p + q)[k].len() by {
        if k < first.len() {
            assert(reads[k] == first[k]);
        } else {
            assert(reads[k] == second[k - first.len()]);
        }
    }
}

/// The first values of a source, as device memory holds them.
pub open spec fn loaded(source: Seq<HostData>, count: nat) -> Seq<Seq<Term>> {
    Seq::new(count, |k: int| literals(source[k].values@))
}

/// What loading `count` parameters from a source takes and leaves.
pub open spec fn took(
    before: CudaRuntime,
    after: CudaRuntime,
    source: HostDataCursor,
    rest: HostDataCursor,
    count: nat,
    changed: spec_fn(usize) -> bool,
) -> bool {
    &&& rest.wf()
    &&& count <= source.data@.len()
    &&& rest.data@ == source.data@.skip(count as int)
    &&& rest.consumed == source.consumed + count
    &&& after.wf()
    &&& after.live@ == before.live@
    &&& after.device@.downloads == before.device@.downloads
    &&& after.ran_on(before, chosen(None))
    &&& after.keeps_but(before, changed)
}

/// Loading one list of parameters after another.
pub proof fn lemma_took_append(
    before: CudaRuntime,
    middle: CudaRuntime,
    after: CudaRuntime,
    source: HostDataCursor,
    here: HostDataCursor,
    rest: HostDataCursor,
    first: nat,
    second: nat,
    a: spec_fn(usize) -> bool,
    b: spec_fn(usize) -> bool,
    both: spec_fn(usize) -> bool,
)
    requires
        took(before, middle, source, here, first, a),
        took(middle, after, here, rest, second, b),
        forall|id: usize| #[trigger] a(id) ==> both(id),
        forall|id: usize| #[trigger] b(id) ==> both(id),
    ensures
        took(before, after, source, rest, first + second, both),
        loaded(source.data@, first + second) == loaded(source.data@, first) + loaded(
            here.data@,
            second,
        ),
{
    assert(rest.data@ =~= source.data@.skip((first + second) as int));
    assert(loaded(source.data@, first + second) =~= loaded(source.data@, first) + loaded(
        here.data@,
        second,
    ));
    assert forall|id: usize|
        #![trigger after.mem(id)]
        before.live@.contains(id) && !both(id) implies after.mem(id) == before.mem(id) by {
        assert(!a(id) && !b(id));
        assert(middle.mem(id) == before.mem(id));
    }
}

impl Linear {
    /// Training state for weights and bias.
    pub fn create_train_state(&self) -> (r: NodeTrainState)
        ensures
            r.is_fresh(2),
            r.children@.len() == 0,
    {
        NodeTrainState::with_parameter_count(2)
    }

    /// The shape of the layer's output, given that of its input.
    pub fn output_configs(&self, inputs: &Vec<MatrixConfig>) -> (r: Vec<MatrixConfig>)
        requires
            inputs@.len() == 1,
            inputs@[0].cols == self.weights.rows,
        ensures
            r@ == seq![MatrixConfig { rows: inputs@[0].rows, cols: self.weights.cols }],
    {
        let mut configs: Vec<MatrixConfig> = Vec::new();
        configs.push(MatrixConfig::new(inputs[0].rows, self.output_neurons()));
        assert(configs@ =~= seq![MatrixConfig { rows: inputs@[0].rows, cols: self.weights.cols }]);
        configs
    }

    /// Restoring parameters, in the form that composes.
    pub proof fn lemma_restored(
        self,
        before: CudaRuntime,
        after: CudaRuntime,
        source: HostDataCursor,
        rest: HostDataCursor,
    )
        requires
            self.fits(source),
            self.restored(before, after, source, rest),
        ensures
            took(
                before,
                after,
                source,
                rest,
                self.parameter_sizes().len(),
                |id: usize| self.owns(id),
            ),
            self.parameters(after) == loaded(source.data@, self.parameter_sizes().len()),
    {
        assert(self.parameters(after) =~= loaded(source.data@, self.parameter_sizes().len()));
    }

    /// Bytes are counted from zero up.
    pub proof fn lemma_byte_len(self)
        ensures
            self.byte_len() >= 0,
    {
        assert(self.weights.rows * self.weights.cols * SCALAR_BYTES >= 0) by (nonlinear_arith)
            requires
                SCALAR_BYTES == 4,
                self.weights.rows >= 0,
                self.weights.cols >= 0,
        ;
    }

    /// A layer's parameters stay while its buffers do.
    pub proof fn lemma_parameters_kept(self, before: CudaRuntime, after: CudaRuntime)
        requires
            forall|id: usize| #[trigger] self.owns(id) ==> after.mem(id) == before.mem(id),
        ensures
            self.parameters(after) == self.parameters(before),
    {
        assert(self.owns(self.weights.buffer.id));
        if self.bias is Some {
            assert(self.owns(self.bias->0.buffer.id));
        }
        assert(self.parameters(after) =~= self.parameters(before));
    }

    /// A layer stays alive while its buffers do.
    pub proof fn lemma_wf_kept(self, before: CudaRuntime, after: CudaRuntime)
        requires
            before.wf(),
            self.wf(before),
            before.buffers@.len() <= after.buffers@.len(),
            forall|id: usize|
                #![trigger after.buffers@[id as int]]
                id < before.buffers@.len() ==> after.buffers@[id as int]
                    == before.buffers@[id as int],
            forall|id: usize| #[trigger] self.owns(id) ==> after.live@.contains(id),
        ensures
            self.wf(after),
    {
        assert(self.owns(self.weights.buffer.id));
        assert(after.buffers@[self.weights.buffer.id as int] == self.weights.buffer.len);
        if self.bias is Some {
            assert(self.owns(self.bias->0.buffer.id));
            assert(after.buffers@[self.bias->0.buffer.id as int] == self.bias->0.buffer.len);
        }
    }
}

impl Linear {
    /// The buffers that a forward pass reads.
    pub open spec fn uses(self, input: Matrix, residual: Option<&Matrix>) -> Set<usize> {
        Set::new(
            |id: usize|
                self.owns(id) || id == input.buffer.id || (residual is Some && id
                    == residual->0.buffer.id),
        )
    }

    /// Writes the layer's value before its activation to a matrix.
    fn affine_into(
        &self,
        input: &Matrix,
        residual: Option<&Matrix>,
        output: &mut Matrix,
        runtime: &mut CudaRuntime,
        stream: Option<Stream>,
    )
        requires
            old(runtime).wf(),
            self.wf(*old(runtime)),
            self.accepts(*old(runtime), *input),
            self.accepts_residual(*old(runtime), *input, residual),
            old(runtime).holds(*old(output)),
            old(output).rows == input.rows,
            old(output).cols == self.weights.cols,
            !self.owns(old(output).buffer.id),
            residual matches Some(r) ==> r.buffer.id != old(output).buffer.id,
        ensures
            *final(output) == *old(output),
            final(runtime).changed(*old(runtime), old(output).buffer.id, stream),
            final(runtime).matrix(*old(output)) == self.affine_of(
                *old(runtime),
                *input,
                optional_terms(*old(runtime), residual),
            ),
            final(runtime).confined(
                *old(runtime),
                self.uses(*input, residual),
                set![old(output).buffer.id],
            ),
    {
        let ghost before = *runtime;
        let ghost uses = self.uses(*input, residual);
        let ghost written = set![output.buffer.id];
        runtime.matrix_multiply_into(input, &self.weights, output, stream);
        let ghost multiplied = *runtime;
        proof {
            assert(self.owns(self.weights.buffer.id));
            assert(multiplied.confined(before, uses, written));
            multiplied.lemma_confined_nothing(uses, written);
        }
        if let Some(bias) = &self.bias {
            output.binary_assign_by_rows(bias, BinaryFn::Add, runtime, stream);
            proof {
                assert(multiplied.vector(*bias) == before.vector(*bias));
                assert(self.owns(bias.buffer.id));
                runtime.lemma_confined_wider(
                    multiplied,
                    set![bias.buffer.id],
                    written,
                    uses,
                    written,
                );
            }
        }
        let ghost biased = *runtime;
        proof {
            assert(biased.confined(multiplied, uses, written));
            biased.lemma_confined_nothing(uses, written);
        }
        if let Some(r) = residual {
            output.binary_assign(r, BinaryFn::Add, runtime, stream);
            assert(biased.matrix(*r) == before.matrix(*r));
        }
        assert(runtime.confined(biased, uses, written));
    }

    /// The layer's value before its activation.
    pub fn affine(
        &self,
        input: &Matrix,
        residual: Option<&Matrix>,
        runtime: &mut CudaRuntime,
        stream: Option<Stream>,
    ) -> (r: Matrix)
        requires
            old(runtime).wf(),
            self.wf(*old(runtime)),
            self.accepts(*old(runtime), *input),
            self.accepts_residual(*old(runtime), *input, residual),
        ensures
            final(runtime).grown(*old(runtime), r.buffer.id, stream),
            final(runtime).holds(r),
            r.rows == input.rows,
            r.cols == self.weights.cols,
            final(runtime).matrix(r) == self.affine_of(
                *old(runtime),
                *input,
                optional_terms(*old(runtime), residual),
            ),
            final(runtime).confined(
                *old(runtime),
                self.uses(*input, residual),
                set![r.buffer.id],
            ),
    {
        let ghost before = *runtime;
        let mut output = runtime.new_uninit_matrix(input.rows(), self.weights.cols());
        assert(runtime.grown(before, output.buffer.id, stream));
        let ghost allocated = *runtime;
        proof {
            allocated.lemma_confined_wider(
                before,
                Set::empty(),
                set![output.buffer.id],
                self.uses(*input, residual),
                set![output.buffer.id],
            );
            assert(self.affine_of(allocated, *input, optional_terms(allocated, residual))
                == self.affine_of(before, *input, optional_terms(before, residual)));
        }
        self.affine_into(input, residual, &mut output, runtime, stream);
        output
    }

    /// Applies the activation in place. The identity issues nothing.
    pub fn activate(&self, output: &mut Matrix, runtime: &mut CudaRuntime, stream: Option<Stream>)
        requires
            old(runtime).wf(),
            old(runtime).holds(*old(output)),
        ensures
            *final(output) == *old(output),
            final(runtime).changed(*old(runtime), old(output).buffer.id, stream),
            final(runtime).matrix(*old(output)) == activated(
                self.activation,
                old(runtime).matrix(*old(output)),
            ),
            self.activation is Identity ==> *final(runtime) == *old(runtime),
            final(runtime).confined(*old(runtime), Set::empty(), set![old(output).buffer.id]),
    {
        proof {
            runtime.lemma_ran_on_nothing(chosen(stream));
            runtime.lemma_confined_nothing(Set::empty(), set![output.buffer.id]);
        }
        if !self.activation.is_identity() {
            output.for_each(runtime, MapFn::Activate(self.activation), stream);
        }
    }

    /// The layer's value.
    pub fn forward(
        &self,
        input: &Matrix,
        residual: Option<&Matrix>,
        runtime: &mut CudaRuntime,
        stream: Option<Stream>,
    ) -> (r: Matrix)
        requires
            old(runtime).wf(),
            self.wf(*old(runtime)),
            self.accepts(*old(runtime), *input),
            self.accepts_residual(*old(runtime), *input, residual),
        ensures
            final(runtime).grown(*old(runtime), r.buffer.id, stream),
            final(runtime).holds(r),
            r.rows == input.rows,
            r.cols == self.weights.cols,
            final(runtime).matrix(r) == activated(
                self.activation,
                self.affine_of(*old(runtime), *input, optional_terms(*old(runtime), residual)),
            ),
            final(runtime).confined(
                *old(runtime),
                self.uses(*input, residual),
                set![r.buffer.id],
            ),
    {
        let mut output = self.affine(input, residual, runtime, stream);
        let ghost middle = *runtime;
        self.activate(&mut output, runtime, stream);
        proof {
            runtime.lemma_confined_wider(
                middle,
                Set::empty(),
                set![output.buffer.id],
                self.uses(*input, residual),
                set![output.buffer.id],
            );
        }
        output
    }

    /// Whether the derivative needs the value before the activation.
    pub fn needs_pre_activation(&self) -> (r: bool)
        ensures
            r == !(self.activation is Identity),
    {
        !self.activation.is_identity()
    }

    /// The gradient before the activation, and that of the bias if there is one.
    pub fn backward(
        &self,
        pre_activation: Option<&Matrix>,
        output_gradient: &Matrix,
        runtime: &mut CudaRuntime,
        stream: Option<Stream>,
    ) -> (r: (Matrix, Option<Vector>))
        requires
            old(runtime).wf(),
            old(runtime).holds(*output_gradient),
            !(self.activation is Identity) ==> pre_activation is Some,
            !(self.activation is Identity) ==> old(runtime).holds(*pre_activation->0)
                && pre_activation->0.rows == output_gradient.rows && pre_activation->0.cols
                == output_gradient.cols,
            self.bias is Some && output_gradient.cols > 0 ==> output_gradient.rows > 0,
            self.bias is Some ==> output_gradient.cols <= u32::MAX && squares_fit(
                output_gradient.rows as int,
                output_gradient.cols as int,
            ),
        ensures
            final(runtime).gradients_grown(*old(runtime), r, stream),
            r.0.rows == output_gradient.rows,
            r.0.cols == output_gradient.cols,
            final(runtime).matrix(r.0) == pre_activation_gradient(
                self.activation,
                old(runtime).matrix(*pre_activation->0),
                old(runtime).matrix(*output_gradient),
            ),
            r.1 is Some == self.bias is Some,
            r.1 matches Some(b) ==> b.buffer.len == output_gradient.cols && final(runtime).vector(b)
                == bias_gradient_terms(
                final(runtime).matrix(r.0),
                output_gradient.rows as nat,
                output_gradient.cols as nat,
            ),
    {
        let ghost before = *runtime;
        let gradient = runtime.clone_matrix(output_gradient, stream);
        let ghost cloned = *runtime;
        if !self.activation.is_identity() {
            if let Some(pre) = pre_activation {
                self.apply_slope(pre, &gradient, runtime, stream);
            }
        }
        let ghost sloped = *runtime;
        let bias_gradient = self.bias_gradient(&gradient, runtime, stream);
        (gradient, bias_gradient)
    }

    /// Multiplies a gradient by the derivative of the activation.
    fn apply_slope(&self, pre: &Matrix, gradient: &Matrix, runtime: &mut CudaRuntime, stream: Option<Stream>)
        requires
            old(runtime).wf(),
            old(runtime).holds(*pre),
            old(runtime).holds(*gradient),
            pre.rows == gradient.rows,
            pre.cols == gradient.cols,
        ensures
            final(runtime).changed(*old(runtime), gradient.buffer.id, stream),
            final(runtime).matrix(*gradient) == zip(
                BinaryFn::Mul,
                old(runtime).matrix(*gradient),
                apply(MapFn::Slope(self.activation), old(runtime).matrix(*pre)),
            ),
    {
        let ghost before = *runtime;
        let mut derivative = runtime.clone_matrix(pre, stream);
        let ghost cloned = *runtime;
        derivative.for_each(runtime, MapFn::Slope(self.activation), stream);
        let ghost mapped = *runtime;
        runtime.combine_matrix(gradient, &derivative, BinaryFn::Mul, stream);
        let ghost combined = *runtime;
        let ghost id = derivative.buffer.id;
        runtime.recycle_matrix(derivative);
        proof {
            assert(runtime.ran_on(combined, chosen(stream)));
            assert(mapped.matrix(*gradient) == before.matrix(*gradient));
            assert(runtime.live@ =~= before.live@);
        }
    }

    /// The gradient of the bias, if there is one.
    fn bias_gradient(&self, gradient: &Matrix, runtime: &mut CudaRuntime, stream: Option<Stream>) -> (r: Option<
        Vector,
    >)
        requires
            old(runtime).wf(),
            old(runtime).holds(*gradient),
            self.bias is Some && gradient.cols > 0 ==> gradient.rows > 0,
            self.bias is Some ==> gradient.cols <= u32::MAX && squares_fit(
                gradient.rows as int,
                gradient.cols as int,
            ),
        ensures
            r is Some == self.bias is Some,
            r is None ==> *final(runtime) == *old(runtime),
            r matches Some(b) ==> final(runtime).grown(*old(runtime), b.buffer.id, stream) && final(
                runtime).holds_vector(b) && b.buffer.len == gradient.cols && final(runtime).vector(b)
                == bias_gradient_terms(
                old(runtime).matrix(*gradient),
                gradient.rows as nat,
                gradient.cols as nat,
            ),
    {
        if self.bias.is_some() {
            let ghost before = *runtime;
            let transposed = runtime.matrix_transpose(gradient, stream);
            let bias_gradient = runtime.matrix_sum_rows(&transposed, stream);
            let ghost summed = *runtime;
            runtime.recycle_matrix(transposed);
            proof {
                assert(runtime.ran_on(summed, chosen(stream)));
                assert(runtime.live@ =~= before.live@.insert(bias_gradient.buffer.id));
            }
            Some(bias_gradient)
        } else {
            None
        }
    }

    /// The gradient of the layer's input.
    pub fn input_gradient(&self, gradient: &Matrix, runtime: &mut CudaRuntime, stream: Option<Stream>) -> (r:
        Matrix)
        requires
            old(runtime).wf(),
            self.wf(*old(runtime)),
            old(runtime).holds(*gradient),
            gradient.cols == self.weights.cols,
            multipliable(gradient.rows as int, gradient.cols as int, self.weights.rows as int),
            addressable(gradient.rows * self.weights.rows),
            squares_fit(self.weights.rows as int, self.weights.cols as int),
        ensures
            final(runtime).grown(*old(runtime), r.buffer.id, stream),
            final(runtime).holds(r),
            r.rows == gradient.rows,
            r.cols == self.weights.rows,
            final(runtime).matrix(r) == input_gradient_terms(
                old(runtime).matrix(*gradient),
                old(runtime).matrix(self.weights),
                gradient.rows as nat,
                self.weights.rows as nat,
                self.weights.cols as nat,
            ),
    {
        let ghost before = *runtime;
        let transposed = runtime.matrix_transpose(&self.weights, stream);
        let input_gradient = runtime.matrix_multiply(gradient, &transposed, stream);
        let ghost multiplied = *runtime;
        runtime.recycle_matrix(transposed);
        proof {
            assert(runtime.ran_on(multiplied, chosen(stream)));
            assert(runtime.live@ =~= before.live@.insert(input_gradient.buffer.id));
        }
        input_gradient
    }

    /// Adds a residual's gradient to the upstream one, then goes on as
    /// [`Linear::backward`] does.
    pub fn backward_with_res(
        &self,
        pre_activation: &Matrix,
        output_gradient: &Matrix,
        residual_gradient: &Matrix,
        runtime: &mut CudaRuntime,
        stream: Option<Stream>,
    ) -> (r: (Matrix, Option<Vector>))
        requires
            old(runtime).wf(),
            old(runtime).holds(*pre_activation),
            old(runtime).holds(*output_gradient),
            old(runtime).holds(*residual_gradient),
            pre_activation.rows == output_gradient.rows,
            pre_activation.cols == output_gradient.cols,
            output_gradient.rows == residual_gradient.rows,
            output_gradient.cols == residual_gradient.cols,
            self.bias is Some && output_gradient.cols > 0 ==> output_gradient.rows > 0,
            self.bias is Some ==> output_gradient.cols <= u32::MAX && squares_fit(
                output_gradient.rows as int,
                output_gradient.cols as int,
            ),
        ensures
            final(runtime).gradients_grown(*old(runtime), r, stream),
            r.0.rows == output_gradient.rows,
            r.0.cols == output_gradient.cols,
            final(runtime).matrix(r.0) == pre_activation_gradient(
                self.activation,
                old(runtime).matrix(*pre_activation),
                zip(
                    BinaryFn::Add,
                    old(runtime).matrix(*output_gradient),
                    old(runtime).matrix(*residual_gradient),
                ),
            ),
            r.1 is Some == self.bias is Some,
            r.1 matches Some(b) ==> b.buffer.len == output_gradient.cols && final(runtime).vector(b)
                == bias_gradient_terms(
                final(runtime).matrix(r.0),
                output_gradient.rows as nat,
                output_gradient.cols as nat,
            ),
    {
        let ghost before = *runtime;
        let mut gradient = runtime.clone_matrix(output_gradient, stream);
        gradient.binary_assign(residual_gradient, BinaryFn::Add, runtime, stream);
        if !self.activation.is_identity() {
            self.apply_slope(pre_activation, &gradient, runtime, stream);
        }
        let bias_gradient = self.bias_gradient(&gradient, runtime, stream);
        (gradient, bias_gradient)
    }

    /// The mean over the columns of half the squared distance, for every row.
    pub fn loss_rows(output: &Matrix, target: &Matrix, runtime: &mut CudaRuntime, stream: Option<Stream>) -> (r:
        Vector)
        requires
            old(runtime).wf(),
            old(runtime).holds(*output),
            old(runtime).holds(*target),
            output.rows == target.rows,
            output.cols == target.cols,
            output.rows > 0 ==> output.cols > 0,
            output.rows <= u32::MAX,
        ensures
            final(runtime).wf(),
            final(runtime).holds_vector(r),
            r.buffer.len == output.rows,
            !old(runtime).live@.contains(r.buffer.id),
            final(runtime).live@ == old(runtime).live@.insert(r.buffer.id),
            final(runtime).keeps(*old(runtime), Set::empty()),
            final(runtime).device@.downloads == old(runtime).device@.downloads,
            final(runtime).ran_on(*old(runtime), chosen(stream)),
            final(runtime).vector(r) == apply(
                MapFn::Scale(Scalar::Reciprocal(output.cols)),
                row_totals(
                    apply(
                        MapFn::HalfSquare,
                        zip(
                            BinaryFn::Sub,
                            old(runtime).matrix(*output),
                            old(runtime).matrix(*target),
                        ),
                    ),
                    output.rows as nat,
                    output.cols as nat,
                ),
            ),
            forall|c: Exact, row: int|
                0 <= row < output.rows ==> #[trigger] c.value(final(runtime).vector(r)[row]) == sum(
                    output.cols as nat,
                    |k: int|
                        {
                            let off = c.entry(
                                old(runtime).matrix(*output),
                                output.cols as int,
                                row,
                                k,
                            ) - c.entry(
                                old(runtime).matrix(*target),
                                output.cols as int,
                                row,
                                k,
                            );
                            off * off / (2int as real)
                        },
                ) / (output.cols as int as real),
    {
        let ghost before = *runtime;
        let mut loss = runtime.matrix_binary(output, target, BinaryFn::Sub, stream);
        loss.for_each(runtime, MapFn::HalfSquare, stream);
        let cols: usize = loss.cols();
        let mut row_loss = runtime.matrix_sum_rows(&loss, stream);
        row_loss.scale(Scalar::Reciprocal(cols), runtime, stream);
        let ghost scaled = *runtime;
        runtime.drop_matrix(loss);
        proof {
            assert(runtime.ran_on(scaled, chosen(stream)));
            assert(runtime.live@ =~= before.live@.insert(row_loss.buffer.id));
            let o = before.matrix(*output);
            let t = before.matrix(*target);
            let n = output.cols as nat;
            before.lemma_whole(output.buffer);
            before.lemma_whole(target.buffer);
            let squares = apply(MapFn::HalfSquare, zip(BinaryFn::Sub, o, t));
            assert forall|c: Exact, row: int| 0 <= row < output.rows implies #[trigger] c.value(
                runtime.vector(row_loss)[row],
            ) == sum(
                n,
                |k: int|
                    {
                        let off = c.entry(o, output.cols as int, row, k) - c.entry(
                            t,
                            output.cols as int,
                            row,
                            k,
                        );
                        off * off / (2int as real)
                    },
            ) / (output.cols as int as real) by {
                law_row_totals_are_sums(c, squares, output.rows as nat, n, row);
                let f = |k: int| c.entry(squares, n as int, row, k);
                let g = |k: int|
                    {
                        let off = c.entry(o, output.cols as int, row, k) - c.entry(
                            t,
                            output.cols as int,
                            row,
                            k,
                        );
                        off * off / (2int as real)
                    };
                assert forall|k: int| 0 <= k < n implies #[trigger] f(k) == g(k) by {
                    lemma_position_in_range(row, k, output.rows as int, n as int);
                    reveal_with_fuel(Reading::read, 3);
                }
                lemma_sum_equal(n, f, g);
                lemma_sum_equal(n, |k: int| c.entry(squares, n as int, row, k), f);
                lemma_quotient(sum(n, g), output.cols as int as real);
                lemma_sum_equal(
                    n,
                    g,
                    |k: int|
                        {
                            let off = c.entry(o, output.cols as int, row, k) - c.entry(
                                t,
                                output.cols as int,
                                row,
                                k,
                            );
                            off * off / (2int as real)
                        },
                );
                reveal_with_fuel(Reading::read, 2);
            }
        }
        row_loss
    }

    /// One step of plain gradient descent.
    pub fn learn(
        &mut self,
        input: &Matrix,
        gradient: &Matrix,
        bias_gradient: Option<&Vector>,
        learning_rate: F32,
        runtime: &mut CudaRuntime,
        stream: Option<Stream>,
    )
        requires
            old(runtime).wf(),
            old(self).wf(*old(runtime)),
            old(runtime).holds(*input),
            old(runtime).holds(*gradient),
            input.rows == gradient.rows,
            input.cols == old(self).weights.rows,
            gradient.cols == old(self).weights.cols,
            multipliable(input.cols as int, input.rows as int, gradient.cols as int),
            squares_fit(input.rows as int, input.cols as int),
            old(self).bias is Some ==> bias_gradient is Some,
            old(self).bias is Some ==> old(runtime).holds_vector(*bias_gradient->0)
                && bias_gradient->0.buffer.len == old(self).weights.cols && !old(self).owns(
                bias_gradient->0.buffer.id,
            ),
        ensures
            *final(self) == *old(self),
            final(runtime).wf(),
            final(runtime).live@ == old(runtime).live@,
            final(runtime).device@.downloads == old(runtime).device@.downloads,
            final(runtime).ran_on(*old(runtime), chosen(stream)),
            final(runtime).keeps_but(*old(runtime), |id: usize| old(self).owns(id)),
            final(runtime).matrix(old(self).weights) == zip(
                BinaryFn::Sub,
                old(runtime).matrix(old(self).weights),
                apply(
                    MapFn::Scale(Scalar::Literal(learning_rate)),
                    weight_gradient_terms(
                        old(runtime).matrix(*input),
                        old(runtime).matrix(*gradient),
                        input.rows as nat,
                        input.cols as nat,
                        gradient.cols as nat,
                    ),
                ),
            ),
            old(self).bias matches Some(b) ==> final(runtime).vector(b) == zip(
                BinaryFn::Sub,
                old(runtime).vector(b),
                apply(
                    MapFn::Scale(Scalar::Literal(learning_rate)),
                    old(runtime).vector(*bias_gradient->0),
                ),
            ),
            forall|c: Exact, k: int, col: int|
                0 <= k < input.cols && 0 <= col < gradient.cols ==> #[trigger] c.entry(
                    final(runtime).matrix(old(self).weights),
                    gradient.cols as int,
                    k,
                    col,
                ) == c.entry(
                    old(runtime).matrix(old(self).weights),
                    gradient.cols as int,
                    k,
                    col,
                ) - sum(
                    input.rows as nat,
                    |r: int|
                        c.entry(old(runtime).matrix(*input), input.cols as int, r, k) * c.entry(
                            old(runtime).matrix(*gradient),
                            gradient.cols as int,
                            r,
                            col,
                        ),
                ) * number(learning_rate),
            old(self).bias matches Some(b) ==> forall|c: Exact, i: int|
                0 <= i < b.buffer.len ==> #[trigger] c.value(final(runtime).vector(b)[i])
                    == c.value(old(runtime).vector(b)[i]) - c.value(
                    old(runtime).vector(*bias_gradient->0)[i],
                ) * number(learning_rate),
    {
        let ghost before = *runtime;
        let ghost weights_id = self.weights.buffer.id;
        proof {
            runtime.lemma_whole(self.weights.buffer);
        }
        let transposed = runtime.matrix_transpose(input, stream);
        let ghost s1 = *runtime;
        let mut weight_gradient = runtime.matrix_multiply(&transposed, gradient, stream);
        let ghost s2 = *runtime;
        weight_gradient.for_each(
            runtime,
            MapFn::Scale(Scalar::Literal(learning_rate)),
            stream,
        );
        let ghost s3 = *runtime;
        self.weights.binary_assign(&weight_gradient, BinaryFn::Sub, runtime, stream);
        let ghost s4 = *runtime;
        runtime.drop_matrix(weight_gradient);
        let ghost s5 = *runtime;
        runtime.drop_matrix(transposed);
        let ghost s6 = *runtime;
        proof {
            assert(s5.ran_on(s4, chosen(stream)));
            assert(s6.ran_on(s5, chosen(stream)));
            assert(s6.live@ =~= before.live@);
        }
        if let Some(bias) = &self.bias {
            if let Some(upstream) = bias_gradient {
                let mut scaled = runtime.clone_vector(upstream, stream);
                let ghost s7 = *runtime;
                scaled.scale(Scalar::Literal(learning_rate), runtime, stream);
                let ghost s8 = *runtime;
                runtime.combine_vector(bias, &scaled, BinaryFn::Sub, stream);
                let ghost s9 = *runtime;
                runtime.drop_vector(scaled);
                proof {
                    assert(runtime.ran_on(s9, chosen(stream)));
                    assert(runtime.live@ =~= before.live@);
                    assert(s6.vector(*upstream) == before.vector(*upstream));
                    assert(s8.vector(*bias) == before.vector(*bias));
                }
            }
        }
        proof {
            let x = before.matrix(*input);
            let g = before.matrix(*gradient);
            let w = before.matrix(self.weights);
            before.lemma_whole(self.weights.buffer);
            assert forall|c: Exact, k: int, col: int|
                0 <= k < input.cols && 0 <= col < gradient.cols implies #[trigger] c.entry(
                runtime.matrix(self.weights),
                gradient.cols as int,
                k,
                col,
            ) == c.entry(w, gradient.cols as int, k, col) - sum(
                input.rows as nat,
                |r: int|
                    c.entry(x, input.cols as int, r, k) * c.entry(g, gradient.cols as int, r, col),
            ) * number(learning_rate) by {
                law_weight_gradients_are_sums(
                    c,
                    x,
                    g,
                    input.rows as nat,
                    input.cols as nat,
                    gradient.cols as nat,
                    k,
                    col,
                );
                lemma_sum_equal(
                    input.rows as nat,
                    |r: int|
                        c.entry(x, input.cols as nat as int, r, k) * c.entry(
                            g,
                            gradient.cols as nat as int,
                            r,
                            col,
                        ),
                    |r: int|
                        c.entry(x, input.cols as int, r, k) * c.entry(
                            g,
                            gradient.cols as int,
                            r,
                            col,
                        ),
                );
                lemma_position_in_range(k, col, input.cols as int, gradient.cols as int);
                reveal_with_fuel(Reading::read, 3);
            }
            if self.bias is Some {
                let b = self.bias->0;
                before.lemma_whole(b.buffer);
                before.lemma_whole(bias_gradient->0.buffer);
                assert forall|c: Exact, i: int| 0 <= i < b.buffer.len implies #[trigger] c.value(
                    runtime.vector(b)[i],
                ) == c.value(before.vector(b)[i]) - c.value(before.vector(*bias_gradient->0)[i])
                    * number(learning_rate) by {
                    reveal_with_fuel(Reading::read, 3);
                }
            }
        }
    }
}

impl CudaRuntime {
    /// A later state that differs only by a new gradient matrix and, where
    /// there is one, a new bias gradient.
    pub open spec fn gradients_grown(
        self,
        before: CudaRuntime,
        r: (Matrix, Option<Vector>),
        stream: Option<Stream>,
    ) -> bool {
        &&& self.wf()
        &&& self.holds(r.0)
        &&& !before.live@.contains(r.0.buffer.id)
        &&& self.keeps(before, Set::empty())
        &&& self.device@.downloads == before.device@.downloads
        &&& self.ran_on(before, chosen(stream))
        &&& match r.1 {
            Some(b) => {
                &&& self.holds_vector(b)
                &&& !before.live@.contains(b.buffer.id)
                &&& b.buffer.id != r.0.buffer.id
                &&& self.live@ == before.live@.insert(r.0.buffer.id).insert(b.buffer.id)
            },
            None => self.live@ == before.live@.insert(r.0.buffer.id),
        }
    }
}

/// A gradient averaged over a batch.
pub open spec fn mean_terms(gradient: Seq<Term>, batch_len: usize) -> Seq<Term> {
    apply(MapFn::Scale(Scalar::Reciprocal(batch_len)), gradient)
}

/// The velocity after a step of classical momentum.
pub open spec fn velocity_terms(
    gradient: Seq<Term>,
    velocity: Option<Seq<Term>>,
    config: LearnConfig,
) -> Seq<Term> {
    match velocity {
        Some(v) => zip(
            BinaryFn::Add,
            apply(MapFn::Scale(Scalar::Literal(config.momentum)), v),
            mean_terms(gradient, config.batch_len),
        ),
        None => mean_terms(gradient, config.batch_len),
    }
}

/// A parameter after a step along a velocity.
pub open spec fn descended(parameter: Seq<Term>, velocity: Seq<Term>, config: LearnConfig) -> Seq<Term> {
    zip(
        BinaryFn::Sub,
        parameter,
        apply(MapFn::Scale(config.learning_rate.expression()), velocity),
    )
}

/// A running total after one more summand.
pub open spec fn accumulated(total: Option<Seq<Term>>, summand: Seq<Term>) -> Seq<Term> {
    match total {
        Some(t) => zip(BinaryFn::Add, t, summand),
        None => summand,
    }
}

/// Whether a slot is empty or holds a live matrix of a shape.
pub open spec fn matrix_slot(
    slot: Option<ParameterBuffer>,
    runtime: CudaRuntime,
    rows: usize,
    cols: usize,
) -> bool {
    match slot {
        Some(ParameterBuffer::Matrix(m)) => runtime.holds(m) && m.rows == rows && m.cols == cols,
        Some(ParameterBuffer::Vector(_)) => false,
        None => true,
    }
}

/// Whether a slot is empty or holds a live vector of a length.
pub open spec fn vector_slot(slot: Option<ParameterBuffer>, runtime: CudaRuntime, len: usize) -> bool {
    match slot {
        Some(ParameterBuffer::Vector(v)) => runtime.holds_vector(v) && v.buffer.len == len,
        Some(ParameterBuffer::Matrix(_)) => false,
        None => true,
    }
}

/// The buffer of a slot.
pub open spec fn slot_id(slot: Option<ParameterBuffer>) -> Option<usize> {
    match slot {
        Some(ParameterBuffer::Matrix(m)) => Some(m.buffer.id),
        Some(ParameterBuffer::Vector(v)) => Some(v.buffer.id),
        None => None,
    }
}

/// What a slot holds.
pub open spec fn slot_terms(slot: Option<ParameterBuffer>, runtime: CudaRuntime) -> Option<Seq<Term>> {
    match slot {
        Some(ParameterBuffer::Matrix(m)) => Some(runtime.matrix(m)),
        Some(ParameterBuffer::Vector(v)) => Some(runtime.vector(v)),
        None => None,
    }
}

/// Two optional buffers are not the same.
pub open spec fn apart(a: Option<usize>, b: Option<usize>) -> bool {
    !(a is Some && b is Some && a->0 == b->0)
}

impl Linear {
    /// The buffer of the bias.
    pub open spec fn bias_id(self) -> Option<usize> {
        match self.bias {
            Some(b) => Some(b.buffer.id),
            None => None,
        }
    }

    /// Whether training state fits this layer: its gradients and velocities
    /// have the parameters' shapes, and nothing shares a buffer.
    pub open spec fn trains_with(self, runtime: CudaRuntime, state: NodeTrainState) -> bool {
        &&& self.wf(runtime)
        &&& state.parameters@.len() == 2
        &&& self.slots_wf(runtime, state.parameters@[0], state.parameters@[1])
    }

    pub open spec fn slots_wf(
        self,
        runtime: CudaRuntime,
        first: ParameterTrainState,
        second: ParameterTrainState,
    ) -> bool {
        let w = Some(self.weights.buffer.id);
        let b = self.bias_id();
        let g0 = slot_id(first.gradient);
        let v0 = slot_id(first.velocity);
        let g1 = slot_id(second.gradient);
        let v1 = slot_id(second.velocity);
        &&& matrix_slot(first.gradient, runtime, self.weights.rows, self.weights.cols)
        &&& matrix_slot(first.velocity, runtime, self.weights.rows, self.weights.cols)
        &&& vector_slot(second.gradient, runtime, self.weights.cols)
        &&& vector_slot(second.velocity, runtime, self.weights.cols)
        &&& second.gradient is Some ==> self.bias is Some
        &&& second.velocity is Some ==> self.bias is Some
        &&& apart(w, g0) && apart(w, v0) && apart(w, g1) && apart(w, v1)
        &&& apart(b, g0) && apart(b, v0) && apart(b, g1) && apart(b, v1)
        &&& apart(g0, v0) && apart(g0, g1) && apart(g0, v1)
        &&& apart(v0, g1) && apart(v0, v1) && apart(g1, v1)
    }

    /// Whether a buffer belongs to the layer's training state.
    pub open spec fn state_owns(state: NodeTrainState, id: usize) -> bool {
        ||| slot_id(state.parameters@[0].gradient) == Some(id)
        ||| slot_id(state.parameters@[0].velocity) == Some(id)
        ||| slot_id(state.parameters@[1].gradient) == Some(id)
        ||| slot_id(state.parameters@[1].velocity) == Some(id)
    }

    /// Adds one sample's gradients to those of the current batch.
    pub fn accumulate_training(
        &self,
        state: &mut NodeTrainState,
        input: &Matrix,
        gradient: &Matrix,
        bias_gradient: Option<&Vector>,
        runtime: &mut CudaRuntime,
    )
        requires
            old(runtime).wf(),
            self.trains_with(*old(runtime), *old(state)),
            old(runtime).holds(*input),
            old(runtime).holds(*gradient),
            input.rows == gradient.rows,
            input.cols == self.weights.rows,
            gradient.cols == self.weights.cols,
            multipliable(input.cols as int, input.rows as int, gradient.cols as int),
            squares_fit(input.rows as int, input.cols as int),
            bias_gradient is Some ==> self.bias is Some,
            bias_gradient matches Some(b) ==> old(runtime).holds_vector(*b) && b.buffer.len
                == self.weights.cols && apart(
                Some(b.buffer.id),
                slot_id(old(state).parameters@[0].gradient),
            ),
            bias_gradient is None ==> old(state).parameters@[1].gradient is None,
        ensures
            final(state).cache == old(state).cache,
            final(state).children == old(state).children,
            self.trains_with(*final(runtime), *final(state)),
            final(state).parameters@[0].velocity == old(state).parameters@[0].velocity,
            final(state).parameters@[1].velocity == old(state).parameters@[1].velocity,
            old(state).parameters@[0].gradient is Some ==> final(state).parameters@[0].gradient
                == old(state).parameters@[0].gradient,
            old(state).parameters@[1].gradient is Some ==> final(state).parameters@[1].gradient
                == old(state).parameters@[1].gradient,
            slot_terms(final(state).parameters@[0].gradient, *final(runtime)) == Some(
                accumulated(
                    slot_terms(old(state).parameters@[0].gradient, *old(runtime)),
                    weight_gradient_terms(
                        old(runtime).matrix(*input),
                        old(runtime).matrix(*gradient),
                        input.rows as nat,
                        input.cols as nat,
                        gradient.cols as nat,
                    ),
                ),
            ),
            bias_gradient matches Some(b) ==> slot_terms(
                final(state).parameters@[1].gradient,
                *final(runtime),
            ) == Some(
                accumulated(
                    slot_terms(old(state).parameters@[1].gradient, *old(runtime)),
                    old(runtime).vector(*b),
                ),
            ),
            bias_gradient is None ==> final(state).parameters@[1].gradient is None,
            final(runtime).wf(),
            final(runtime).device@.downloads == old(runtime).device@.downloads,
            final(runtime).ran_on(*old(runtime), chosen(None)),
            forall|id: usize|
                #![trigger final(runtime).live@.contains(id)]
                final(runtime).live@.contains(id) <==> old(runtime).live@.contains(id) || slot_id(
                    final(state).parameters@[0].gradient,
                ) == Some(id) || slot_id(final(state).parameters@[1].gradient) == Some(id),
            final(runtime).keeps_but(
                *old(runtime),
                |id: usize|
                    slot_id(old(state).parameters@[0].gradient) == Some(id) || slot_id(
                        old(state).parameters@[1].gradient,
                    ) == Some(id),
            ),
            old(state).parameters@[0].gradient is None ==> !old(runtime).live@.contains(
                slot_id(final(state).parameters@[0].gradient)->0,
            ),
            old(state).parameters@[1].gradient is None ==> (final(state).parameters@[1].gradient is Some
                ==> !old(runtime).live@.contains(
                slot_id(final(state).parameters@[1].gradient)->0,
            )),
    {
        let ghost before = *runtime;
        let ghost first = state.parameters@[0];
        let ghost second = state.parameters@[1];
        proof {
            runtime.lemma_whole(self.weights.buffer);
        }
        let transposed = runtime.matrix_transpose(input, None);
        let ghost s1 = *runtime;
        let weight_gradient = runtime.matrix_multiply(&transposed, gradient, None);
        let ghost s2 = *runtime;
        runtime.recycle_matrix(transposed);
        let ghost s3 = *runtime;
        proof {
            assert(s3.ran_on(s2, chosen(None)));
            assert(s3.live@ =~= before.live@.insert(weight_gradient.buffer.id));
        }
        if let (Some(mut p1), Some(mut p0)) = (state.parameters.pop(), state.parameters.pop()) {
            proof {
                assert(p0 == first && p1 == second);
            }
            p0.gradient = match p0.gradient {
                Some(ParameterBuffer::Matrix(total)) => {
                    runtime.combine_matrix(&total, &weight_gradient, BinaryFn::Add, None);
                    let ghost s4 = *runtime;
                    runtime.recycle_matrix(weight_gradient);
                    proof {
                        assert(runtime.ran_on(s4, chosen(None)));
                        assert(runtime.live@ =~= before.live@);
                    }
                    Some(ParameterBuffer::Matrix(total))
                },
                Some(ParameterBuffer::Vector(other)) => Some(ParameterBuffer::Vector(other)),
                None => Some(ParameterBuffer::Matrix(weight_gradient)),
            };
            let ghost s5 = *runtime;
            if let Some(summand) = bias_gradient {
                p1.gradient = match p1.gradient {
                    Some(ParameterBuffer::Vector(total)) => {
                        runtime.combine_vector(&total, summand, BinaryFn::Add, None);
                        Some(ParameterBuffer::Vector(total))
                    },
                    Some(ParameterBuffer::Matrix(other)) => Some(ParameterBuffer::Matrix(other)),
                    None => Some(ParameterBuffer::Vector(runtime.clone_vector(summand, None))),
                };
                assert(s5.vector(*summand) == before.vector(*summand));
            }
            state.parameters.push(p0);
            state.parameters.push(p1);
        }
    }

    /// Moves one matrix parameter by the mean gradient of a batch. Returns the
    /// new velocity.
    fn descend_matrix(
        parameter: &Matrix,
        gradient: Matrix,
        velocity: Option<Matrix>,
        config: LearnConfig,
        runtime: &mut CudaRuntime,
    ) -> (r: Matrix)
        requires
            old(runtime).wf(),
            old(runtime).holds(*parameter),
            old(runtime).holds(gradient),
            gradient.rows == parameter.rows,
            gradient.cols == parameter.cols,
            gradient.buffer.id != parameter.buffer.id,
            velocity matches Some(v) ==> old(runtime).holds(v) && v.rows == parameter.rows && v.cols
                == parameter.cols && v.buffer.id != parameter.buffer.id && v.buffer.id
                != gradient.buffer.id,
        ensures
            final(runtime).wf(),
            final(runtime).holds(r),
            r.rows == parameter.rows,
            r.cols == parameter.cols,
            velocity matches Some(v) ==> r == v && final(runtime).live@ == old(
                runtime).live@.remove(gradient.buffer.id),
            velocity is None ==> r == gradient && final(runtime).live@ == old(runtime).live@,
            final(runtime).device@.downloads == old(runtime).device@.downloads,
            final(runtime).ran_on(*old(runtime), chosen(None)),
            final(runtime).keeps_but(
                *old(runtime),
                |id: usize|
                    id == parameter.buffer.id || id == gradient.buffer.id || id == r.buffer.id,
            ),
            final(runtime).matrix(r) == velocity_terms(
                old(runtime).matrix(gradient),
                match velocity {
                    Some(v) => Some(old(runtime).matrix(v)),
                    None => None,
                },
                config,
            ),
            final(runtime).matrix(*parameter) == descended(
                old(runtime).matrix(*parameter),
                final(runtime).matrix(r),
                config,
            ),
    {
        let ghost before = *runtime;
        let ghost gid = gradient.buffer.id;
        runtime.map_matrix(&gradient, MapFn::Scale(Scalar::Reciprocal(config.batch_len)), None);
        let ghost s1 = *runtime;
        let moved = match velocity {
            Some(v) => {
                runtime.map_matrix(&v, MapFn::Scale(Scalar::Literal(config.momentum)), None);
                let ghost s2 = *runtime;
                runtime.combine_matrix(&v, &gradient, BinaryFn::Add, None);
                let ghost s3 = *runtime;
                runtime.recycle_matrix(gradient);
                proof {
                    assert(runtime.ran_on(s3, chosen(None)));
                    assert(s1.matrix(v) == before.matrix(v));
                    assert(s2.mem(gid) == s1.mem(gid));
                }
                v
            },
            None => gradient,
        };
        let ghost s4 = *runtime;
        let mut update = runtime.clone_matrix(&moved, None);
        let ghost s5 = *runtime;
        update.scale(config.learning_rate.scalar(), runtime, None);
        let ghost s6 = *runtime;
        runtime.combine_matrix(parameter, &update, BinaryFn::Sub, None);
        let ghost s7 = *runtime;
        runtime.recycle_matrix(update);
        proof {
            assert(runtime.ran_on(s7, chosen(None)));
            assert(runtime.live@ =~= s4.live@);
            assert(s6.matrix(*parameter) == before.matrix(*parameter));
        }
        moved
    }

    /// The same for a vector parameter.
    fn descend_vector(
        parameter: &Vector,
        gradient: Vector,
        velocity: Option<Vector>,
        config: LearnConfig,
        runtime: &mut CudaRuntime,
    ) -> (r: Vector)
        requires
            old(runtime).wf(),
            old(runtime).holds_vector(*parameter),
            old(runtime).holds_vector(gradient),
            gradient.buffer.len == parameter.buffer.len,
            gradient.buffer.id != parameter.buffer.id,
            velocity matches Some(v) ==> old(runtime).holds_vector(v) && v.buffer.len
                == parameter.buffer.len && v.buffer.id != parameter.buffer.id && v.buffer.id
                != gradient.buffer.id,
        ensures
            final(runtime).wf(),
            final(runtime).holds_vector(r),
            r.buffer.len == parameter.buffer.len,
            velocity matches Some(v) ==> r == v && final(runtime).live@ == old(
                runtime).live@.remove(gradient.buffer.id),
            velocity is None ==> r == gradient && final(runtime).live@ == old(runtime).live@,
            final(runtime).device@.downloads == old(runtime).device@.downloads,
            final(runtime).ran_on(*old(runtime), chosen(None)),
            final(runtime).keeps_but(
                *old(runtime),
                |id: usize|
                    id == parameter.buffer.id || id == gradient.buffer.id || id == r.buffer.id,
            ),
            final(runtime).vector(r) == velocity_terms(
                old(runtime).vector(gradient),
                match velocity {
                    Some(v) => Some(old(runtime).vector(v)),
                    None => None,
                },
                config,
            ),
            final(runtime).vector(*parameter) == descended(
                old(runtime).vector(*parameter),
                final(runtime).vector(r),
                config,
            ),
    {
        let ghost before = *runtime;
        let ghost gid = gradient.buffer.id;
        runtime.map_vector(&gradient, MapFn::Scale(Scalar::Reciprocal(config.batch_len)), None);
        let ghost s1 = *runtime;
        let moved = match velocity {
            Some(v) => {
                runtime.map_vector(&v, MapFn::Scale(Scalar::Literal(config.momentum)), None);
                let ghost s2 = *runtime;
                runtime.combine_vector(&v, &gradient, BinaryFn::Add, None);
                let ghost s3 = *runtime;
                runtime.recycle_vector(gradient);
                proof {
                    assert(runtime.ran_on(s3, chosen(None)));
                    assert(s1.vector(v) == before.vector(v));
                    assert(s2.mem(gid) == s1.mem(gid));
                }
                v
            },
            None => gradient,
        };
        let ghost s4 = *runtime;
        let mut update = runtime.clone_vector(&moved, None);
        let ghost s5 = *runtime;
        update.scale(config.learning_rate.scalar(), runtime, None);
        let ghost s6 = *runtime;
        runtime.combine_vector(parameter, &update, BinaryFn::Sub, None);
        let ghost s7 = *runtime;
        runtime.recycle_vector(update);
        proof {
            assert(runtime.ran_on(s7, chosen(None)));
            assert(runtime.live@ =~= s4.live@);
            assert(s6.vector(*parameter) == before.vector(*parameter));
        }
        moved
    }

    /// Applies the mean gradient of the accumulated batch with classical
    /// momentum, then clears only the gradient accumulators.
    pub fn learn_from_state(
        &mut self,
        state: &mut NodeTrainState,
        learning_rate: Rate,
        momentum: F32,
        batch_len: usize,
        runtime: &mut CudaRuntime,
    )
        requires
            old(runtime).wf(),
            old(self).trains_with(*old(runtime), *old(state)),
            (LearnConfig { learning_rate, momentum, batch_len }).valid(),
            old(self).batch_ready(*old(state)),
        ensures
            *final(self) == *old(self),
            old(self).learned(
                *old(runtime),
                *final(runtime),
                *old(state),
                *final(state),
                (LearnConfig { learning_rate, momentum, batch_len }),
            ),
    {
        self.descend(state, LearnConfig { learning_rate, momentum, batch_len }, runtime);
    }

    /// The same through a shared borrow: only device memory changes.
    pub(crate) fn descend(&self, state: &mut NodeTrainState, config: LearnConfig, runtime: &mut CudaRuntime)
        requires
            old(runtime).wf(),
            self.trains_with(*old(runtime), *old(state)),
            config.valid(),
            self.batch_ready(*old(state)),
        ensures
            self.learned(*old(runtime), *final(runtime), *old(state), *final(state), config),
    {
        let ghost before = *runtime;
        let ghost start = *state;
        if let (Some(mut p1), Some(mut p0)) = (state.parameters.pop(), state.parameters.pop()) {
            proof {
                assert(p0 == start.parameters@[0] && p1 == start.parameters@[1]);
            }
            if let Some(ParameterBuffer::Matrix(gradient)) = p0.gradient {
                let velocity = match p0.velocity {
                    Some(ParameterBuffer::Matrix(v)) => Some(v),
                    _ => None,
                };
                let moved = Linear::descend_matrix(
                    &self.weights,
                    gradient,
                    velocity,
                    config,
                    runtime,
                );
                p0 = ParameterTrainState {
                    gradient: None,
                    velocity: Some(ParameterBuffer::Matrix(moved)),
                };
            }
            let ghost middle = *runtime;
            if let Some(bias) = &self.bias {
                proof {
                    assert(middle.vector(*bias) == before.vector(*bias));
                }
                if let Some(ParameterBuffer::Vector(gradient)) = p1.gradient {
                    let velocity = match p1.velocity {
                        Some(ParameterBuffer::Vector(v)) => Some(v),
                        _ => None,
                    };
                    proof {
                        assert(middle.vector(gradient) == before.vector(gradient));
                        if velocity is Some {
                            assert(middle.vector(velocity->0) == before.vector(velocity->0));
                        }
                    }
                    let moved = Linear::descend_vector(bias, gradient, velocity, config, runtime);
                    p1 = ParameterTrainState {
                        gradient: None,
                        velocity: Some(ParameterBuffer::Vector(moved)),
                    };
                }
            }
            state.parameters.push(p0);
            state.parameters.push(p1);
        }
    }

    /// The values after an optimizer step: each velocity and parameter is what
    /// momentum descent makes of the batch, and a first velocity takes over the
    /// gradient's buffer.
    pub open spec fn moved(
        self,
        before: CudaRuntime,
        after: CudaRuntime,
        start: NodeTrainState,
        end: NodeTrainState,
        config: LearnConfig,
    ) -> bool {
        let g0 = start.parameters@[0].gradient;
        let v0 = start.parameters@[0].velocity;
        let g1 = start.parameters@[1].gradient;
        let v1 = start.parameters@[1].velocity;
        let w0 = end.parameters@[0].velocity;
        let w1 = end.parameters@[1].velocity;
        &&& end.cache == start.cache
        &&& end.children == start.children
        &&& end.parameters@[0].gradient is None
        &&& end.parameters@[1].gradient is None
        &&& w0 == if v0 is Some {
            v0
        } else {
            g0
        }
        &&& slot_terms(w0, after) == Some(
            velocity_terms(slot_terms(g0, before)->0, slot_terms(v0, before), config),
        )
        &&& after.matrix(self.weights) == descended(
            before.matrix(self.weights),
            slot_terms(w0, after)->0,
            config,
        )
        &&& match self.bias {
            Some(b) => {
                &&& w1 == if v1 is Some {
                    v1
                } else {
                    g1
                }
                &&& slot_terms(w1, after) == Some(
                    velocity_terms(slot_terms(g1, before)->0, slot_terms(v1, before), config),
                )
                &&& after.vector(b) == descended(
                    before.vector(b),
                    slot_terms(w1, after)->0,
                    config,
                )
            },
            None => w1 == v1,
        }
    }

    /// Whether an optimizer step gives a gradient's buffer back: it does where
    /// there is a velocity already.
    pub open spec fn gives_back(start: NodeTrainState, id: usize) -> bool {
        ||| start.parameters@[0].velocity is Some && slot_id(start.parameters@[0].gradient) == Some(
            id,
        )
        ||| start.parameters@[1].velocity is Some && slot_id(start.parameters@[1].gradient) == Some(
            id,
        )
    }

    /// The state after an optimizer step.
    pub open spec fn learned(
        self,
        before: CudaRuntime,
        after: CudaRuntime,
        start: NodeTrainState,
        end: NodeTrainState,
        config: LearnConfig,
    ) -> bool {
        &&& self.moved(before, after, start, end, config)
        &&& after.wf()
        &&& self.trains_with(after, end)
        &&& after.device@.downloads == before.device@.downloads
        &&& after.ran_on(before, chosen(None))
        &&& after.keeps_but(before, |id: usize| self.owns(id) || Linear::state_owns(start, id))
        &&& forall|id: usize|
            #![trigger after.live@.contains(id)]
            after.live@.contains(id) <==> before.live@.contains(id) && !Linear::gives_back(
                start,
                id,
            )
    }

    /// Whether a batch is ready to be applied.
    pub open spec fn batch_ready(self, state: NodeTrainState) -> bool {
        &&& state.parameters@[0].gradient is Some
        &&& state.parameters@[1].gradient is Some == self.bias is Some
    }
}

/// Batches of `rows` samples that a layer of this shape can train on.
pub open spec fn trainable(rows: int, inner: int, cols: int) -> bool {
    &&& cols <= u32::MAX
    &&& squares_fit(rows, cols) && squares_fit(rows, inner) && squares_fit(inner, cols)
    &&& multipliable(rows, inner, cols)
    &&& multipliable(rows, cols, inner)
    &&& multipliable(inner, rows, cols)
    &&& addressable(rows * cols)
    &&& addressable(rows * inner)
}

impl Linear {
    /// What one sample adds to a layer's training state, given the gradient
    /// before the activation.
    pub open spec fn absorbed(
        self,
        before: CudaRuntime,
        after: CudaRuntime,
        start: NodeTrainState,
        end: NodeTrainState,
        input: Seq<Term>,
        gradient: Seq<Term>,
        rows: nat,
    ) -> bool {
        &&& end.cache == start.cache
        &&& end.children == start.children
        &&& end.parameters@.len() == 2
        &&& end.parameters@[0].velocity == start.parameters@[0].velocity
        &&& end.parameters@[1].velocity == start.parameters@[1].velocity
        &&& start.parameters@[0].gradient is Some ==> end.parameters@[0].gradient
            == start.parameters@[0].gradient
        &&& start.parameters@[1].gradient is Some ==> end.parameters@[1].gradient
            == start.parameters@[1].gradient
        &&& slot_terms(end.parameters@[0].gradient, after) == Some(
            accumulated(
                slot_terms(start.parameters@[0].gradient, before),
                weight_gradient_terms(
                    input,
                    gradient,
                    rows,
                    self.weights.rows as nat,
                    self.weights.cols as nat,
                ),
            ),
        )
        &&& self.bias is Some ==> slot_terms(end.parameters@[1].gradient, after) == Some(
            accumulated(
                slot_terms(start.parameters@[1].gradient, before),
                bias_gradient_terms(gradient, rows, self.weights.cols as nat),
            ),
        )
        &&& self.bias is None ==> end.parameters@[1].gradient is None
    }

    /// Whether a buffer holds one of the gradients of a training state.
    pub open spec fn gradient_slot(state: NodeTrainState, id: usize) -> bool {
        ||| slot_id(state.parameters@[0].gradient) == Some(id)
        ||| slot_id(state.parameters@[1].gradient) == Some(id)
    }

    /// A layer and its training state stay as they are while their buffers do.
    pub proof fn lemma_trains_kept(self, state: NodeTrainState, before: CudaRuntime, after: CudaRuntime)
        requires
            self.trains_with(before, state),
            before.buffers@.len() <= after.buffers@.len(),
            forall|id: usize|
                #![trigger after.buffers@[id as int]]
                id < before.buffers@.len() ==> after.buffers@[id as int]
                    == before.buffers@[id as int],
            before.wf(),
            forall|id: usize| #[trigger]
                self.owns(id) ==> after.live@.contains(id) && after.mem(id) == before.mem(id),
            forall|id: usize| #[trigger]
                Linear::state_owns(state, id) ==> after.live@.contains(id) && after.mem(id)
                    == before.mem(id),
        ensures
            self.trains_with(after, state),
            after.matrix(self.weights) == before.matrix(self.weights),
            self.bias_terms(after) == self.bias_terms(before),
            slot_terms(state.parameters@[0].gradient, after) == slot_terms(
                state.parameters@[0].gradient,
                before,
            ),
            slot_terms(state.parameters@[1].gradient, after) == slot_terms(
                state.parameters@[1].gradient,
                before,
            ),
            slot_terms(state.parameters@[0].velocity, after) == slot_terms(
                state.parameters@[0].velocity,
                before,
            ),
            slot_terms(state.parameters@[1].velocity, after) == slot_terms(
                state.parameters@[1].velocity,
                before,
            ),
    {
        assert(self.owns(self.weights.buffer.id));
        assert(after.buffers@[self.weights.buffer.id as int] == self.weights.buffer.len);
        if self.bias is Some {
            let id = self.bias->0.buffer.id;
            assert(self.owns(id));
            assert(after.buffers@[id as int] == self.bias->0.buffer.len);
        }
        if state.parameters@[0].gradient is Some {
            let id = slot_id(state.parameters@[0].gradient)->0;
            assert(Linear::state_owns(state, id));
            assert(after.buffers@[id as int] == before.buffers@[id as int]);
        }
        if state.parameters@[0].velocity is Some {
            let id = slot_id(state.parameters@[0].velocity)->0;
            assert(Linear::state_owns(state, id));
            assert(after.buffers@[id as int] == before.buffers@[id as int]);
        }
        if state.parameters@[1].gradient is Some {
            let id = slot_id(state.parameters@[1].gradient)->0;
            assert(Linear::state_owns(state, id));
            assert(after.buffers@[id as int] == before.buffers@[id as int]);
        }
        if state.parameters@[1].velocity is Some {
            let id = slot_id(state.parameters@[1].velocity)->0;
            assert(Linear::state_owns(state, id));
            assert(after.buffers@[id as int] == before.buffers@[id as int]);
        }
    }

    /// Takes one sample's gradient back through the layer and adds its
    /// parameter gradients to the batch. Returns the gradient of the input and
    /// the gradient before the activation, which is also that of the residual.
    pub(crate) fn backward_through(
        &self,
        input: &Matrix,
        residual: Option<&Matrix>,
        gradient: &Matrix,
        state: &mut NodeTrainState,
        runtime: &mut CudaRuntime,
    ) -> (r: (Matrix, Matrix))
        requires
            old(runtime).wf(),
            self.trains_with(*old(runtime), *old(state)),
            self.accepts(*old(runtime), *input),
            self.accepts_residual(*old(runtime), *input, residual),
            old(runtime).holds(*gradient),
            gradient.rows == input.rows,
            gradient.cols == self.weights.cols,
            trainable(input.rows as int, self.weights.rows as int, self.weights.cols as int),
        ensures
            final(runtime).wf(),
            self.trains_with(*final(runtime), *final(state)),
            final(runtime).holds(r.0),
            final(runtime).holds(r.1),
            r.0.rows == input.rows,
            r.0.cols == self.weights.rows,
            r.1.rows == input.rows,
            r.1.cols == self.weights.cols,
            r.0.buffer.id != r.1.buffer.id,
            !old(runtime).live@.contains(r.0.buffer.id),
            !old(runtime).live@.contains(r.1.buffer.id),
            !Linear::state_owns(*final(state), r.0.buffer.id),
            !Linear::state_owns(*final(state), r.1.buffer.id),
            final(runtime).matrix(r.1) == pre_activation_gradient(
                self.activation,
                self.affine_of(*old(runtime), *input, optional_terms(*old(runtime), residual)),
                old(runtime).matrix(*gradient),
            ),
            final(runtime).matrix(r.0) == input_gradient_terms(
                final(runtime).matrix(r.1),
                old(runtime).matrix(self.weights),
                input.rows as nat,
                self.weights.rows as nat,
                self.weights.cols as nat,
            ),
            self.absorbed(
                *old(runtime),
                *final(runtime),
                *old(state),
                *final(state),
                old(runtime).matrix(*input),
                final(runtime).matrix(r.1),
                input.rows as nat,
            ),
            final(runtime).device@.downloads == old(runtime).device@.downloads,
            final(runtime).ran_on(*old(runtime), chosen(None)),
            forall|id: usize|
                #![trigger final(runtime).live@.contains(id)]
                final(runtime).live@.contains(id) <==> {
                    ||| id == r.0.buffer.id
                    ||| id == r.1.buffer.id
                    ||| Linear::gradient_slot(*final(state), id)
                    ||| old(runtime).live@.contains(id)
                },
            forall|id: usize|
                #![trigger Linear::gradient_slot(*final(state), id)]
                Linear::gradient_slot(*final(state), id) ==> Linear::gradient_slot(*old(state), id)
                    || !old(runtime).live@.contains(id),
            final(runtime).keeps_but(
                *old(runtime),
                |id: usize| Linear::gradient_slot(*old(state), id),
            ),
    {
        let ghost before = *runtime;
        let ghost start = *state;
        let pre_activation = if self.needs_pre_activation() {
            Some(self.affine(input, residual, runtime, None))
        } else {
            proof {
                runtime.lemma_ran_on_nothing(chosen(None));
            }
            None
        };
        let ghost s1 = *runtime;
        let (layer_gradient, bias_gradient) = self.backward(
            match &pre_activation {
                Some(m) => Some(m),
                None => None,
            },
            gradient,
            runtime,
            None,
        );
        let ghost s2 = *runtime;
        proof {
            assert(s2.matrix(self.weights) == before.matrix(self.weights));
        }
        let input_gradient = self.input_gradient(&layer_gradient, runtime, None);
        let ghost s3 = *runtime;
        proof {
            assert(s3.matrix(*input) == before.matrix(*input));
            assert(s3.matrix(layer_gradient) == s2.matrix(layer_gradient));
        }
        self.accumulate_training(
            state,
            input,
            &layer_gradient,
            match &bias_gradient {
                Some(b) => Some(b),
                None => None,
            },
            runtime,
        );
        let ghost s4 = *runtime;
        if let Some(m) = pre_activation {
            runtime.drop_matrix(m);
            assert(runtime.ran_on(s4, chosen(None)));
        }
        let ghost s5 = *runtime;
        if let Some(b) = bias_gradient {
            runtime.drop_vector(b);
            assert(runtime.ran_on(s5, chosen(None)));
        }
        (input_gradient, layer_gradient)
    }
}

/// Trainable graph node backed by a `Linear` layer.
///
/// The owned input is retained without a device copy until backward. For
/// non-identity activations the pre-activation is recomputed during backward,
/// avoiding a second output-sized persistent cache.
pub struct LinearTrainingNode {
    pub linear: Linear,
    pub input_cache: Option<Matrix>,
    pub training: NodeTrainState,
}

/// The only element of a list.
pub(crate) fn take_single(matrices: Vec<Matrix>) -> (r: Matrix)
    requires
        matrices@.len() == 1,
    ensures
        r == matrices@[0],
        matrices@ == seq![r],
{
    let mut matrices = matrices;
    assert(matrices@ =~= seq![matrices@[0]]);
    matrices.remove(0)
}

/// A list of one element.
pub(crate) fn single(matrix: Matrix) -> (r: Vec<Matrix>)
    ensures
        r@ == seq![matrix],
{
    let mut list: Vec<Matrix> = Vec::new();
    list.push(matrix);
    assert(list@ =~= seq![matrix]);
    list
}

impl LinearTrainingNode {
    /// Whether a buffer belongs to this node.
    pub open spec fn owns(self, id: usize) -> bool {
        ||| self.linear.owns(id)
        ||| Linear::state_owns(self.training, id)
        ||| self.cache_id() == Some(id)
    }

    /// The buffer of the retained input.
    pub open spec fn cache_id(self) -> Option<usize> {
        match self.input_cache {
            Some(m) => Some(m.buffer.id),
            None => None,
        }
    }

    /// The node's invariant.
    pub open spec fn wf(self, runtime: CudaRuntime) -> bool {
        &&& self.linear.trains_with(runtime, self.training)
        &&& self.input_cache matches Some(m) ==> runtime.holds(m) && m.cols
            == self.linear.weights.rows && !self.linear.owns(m.buffer.id)
            && !Linear::state_owns(self.training, m.buffer.id)
    }

    pub fn new(linear: Linear) -> (r: LinearTrainingNode)
        ensures
            r.linear == linear,
            r.input_cache is None,
            r.training.is_fresh(2),
    {
        LinearTrainingNode {
            linear,
            input_cache: None,
            training: NodeTrainState::with_parameter_count(2),
        }
    }

    /// Gives back the retained input.
    pub fn clear_cache(&mut self, runtime: &mut CudaRuntime)
        requires
            old(runtime).wf(),
            old(self).wf(*old(runtime)),
        ensures
            final(self).input_cache is None,
            final(self).linear == old(self).linear,
            final(self).training == old(self).training,
            final(self).wf(*final(runtime)),
            final(runtime).wf(),
            final(runtime).device@.downloads == old(runtime).device@.downloads,
            final(runtime).ran_on(*old(runtime), chosen(None)),
            forall|id: usize|
                #![trigger final(runtime).live@.contains(id)]
                final(runtime).live@.contains(id) <==> old(runtime).live@.contains(id) && old(
                    self).cache_id() != Some(id),
            final(runtime).keeps_but(*old(runtime), |id: usize| old(self).cache_id() == Some(id)),
    {
        let ghost before = *runtime;
        proof {
            runtime.lemma_ran_on_nothing(chosen(None));
        }
        if let Some(input) = self.input_cache.take() {
            runtime.recycle_matrix(input);
            assert(runtime.ran_on(before, chosen(None)));
        }
    }

    /// Runs the layer and retains its input.
    pub fn forward(&mut self, inputs: Vec<Matrix>, runtime: &mut CudaRuntime) -> (r: Vec<Matrix>)
        requires
            old(runtime).wf(),
            old(self).wf(*old(runtime)),
            inputs@.len() == 1,
            old(self).linear.accepts(*old(runtime), inputs@[0]),
            !old(self).owns(inputs@[0].buffer.id),
        ensures
            final(self).linear == old(self).linear,
            final(self).training == old(self).training,
            final(self).input_cache == Some(inputs@[0]),
            final(self).wf(*final(runtime)),
            r@.len() == 1,
            final(runtime).holds(r@[0]),
            !final(self).owns(r@[0].buffer.id),
            r@[0].rows == inputs@[0].rows,
            r@[0].cols == old(self).linear.weights.cols,
            final(runtime).matrix(r@[0]) == activated(
                old(self).linear.activation,
                old(self).linear.affine_of(*old(runtime), inputs@[0], None),
            ),
            final(runtime).wf(),
            final(runtime).device@.downloads == old(runtime).device@.downloads,
            final(runtime).ran_on(*old(runtime), chosen(None)),
            forall|id: usize|
                #![trigger final(runtime).live@.contains(id)]
                final(runtime).live@.contains(id) <==> id == r@[0].buffer.id || old(
                    runtime).live@.contains(id) && old(self).cache_id() != Some(id),
            !old(runtime).live@.contains(r@[0].buffer.id) || old(self).cache_id() == Some(
                r@[0].buffer.id,
            ),
            final(runtime).keeps_but(*old(runtime), |id: usize| old(self).cache_id() == Some(id)),
    {
        let ghost before = *runtime;
        self.clear_cache(runtime);
        let ghost cleared = *runtime;
        let input = take_single(inputs);
        proof {
            assert(cleared.live@.contains(input.buffer.id));
            assert(self.linear.affine_of(cleared, input, None) == self.linear.affine_of(
                before,
                input,
                None,
            ));
        }
        let mut output = self.linear.affine(&input, None, runtime, None);
        self.linear.activate(&mut output, runtime, None);
        self.input_cache = Some(input);
        single(output)
    }

    /// The gradient before the activation that an upstream gradient leads to.
    pub open spec fn inner_gradient(self, runtime: CudaRuntime, gradient: Matrix) -> Seq<Term> {
        pre_activation_gradient(
            self.linear.activation,
            self.linear.affine_of(runtime, self.input_cache->0, None),
            runtime.matrix(gradient),
        )
    }

    /// Consumes the upstream gradient and the retained input, adds the
    /// sample's parameter gradients to the batch and returns the gradient of
    /// the input.
    pub fn backward(&mut self, gradients: Vec<Matrix>, runtime: &mut CudaRuntime) -> (r: Vec<Matrix>)
        requires
            old(runtime).wf(),
            old(self).wf(*old(runtime)),
            old(self).input_cache is Some,
            gradients@.len() == 1,
            old(runtime).holds(gradients@[0]),
            !old(self).owns(gradients@[0].buffer.id),
            gradients@[0].rows == old(self).input_cache->0.rows,
            gradients@[0].cols == old(self).linear.weights.cols,
            trainable(
                gradients@[0].rows as int,
                old(self).linear.weights.rows as int,
                gradients@[0].cols as int,
            ),
            old(self).linear.bias is None ==> old(self).training.parameters@[1].gradient is None,
        ensures
            final(self).linear == old(self).linear,
            final(self).input_cache is None,
            final(self).wf(*final(runtime)),
            r@.len() == 1,
            final(runtime).holds(r@[0]),
            !final(self).owns(r@[0].buffer.id),
            !old(runtime).live@.contains(r@[0].buffer.id),
            r@[0].rows == old(self).input_cache->0.rows,
            r@[0].cols == old(self).linear.weights.rows,
            final(runtime).matrix(r@[0]) == input_gradient_terms(
                old(self).inner_gradient(*old(runtime), gradients@[0]),
                old(runtime).matrix(old(self).linear.weights),
                gradients@[0].rows as nat,
                old(self).linear.weights.rows as nat,
                old(self).linear.weights.cols as nat,
            ),
            old(self).linear.absorbed(
                *old(runtime),
                *final(runtime),
                old(self).training,
                final(self).training,
                old(runtime).matrix(old(self).input_cache->0),
                old(self).inner_gradient(*old(runtime), gradients@[0]),
                gradients@[0].rows as nat,
            ),
            forall|id: usize|
                #![trigger Linear::gradient_slot(final(self).training, id)]
                Linear::gradient_slot(final(self).training, id) ==> Linear::gradient_slot(
                    old(self).training,
                    id,
                ) || !old(runtime).live@.contains(id),
            final(runtime).wf(),
            final(runtime).device@.downloads == old(runtime).device@.downloads,
            final(runtime).ran_on(*old(runtime), chosen(None)),
            forall|id: usize|
                #![trigger final(runtime).live@.contains(id)]
                final(runtime).live@.contains(id) <==> {
                    ||| id == r@[0].buffer.id
                    ||| slot_id(final(self).training.parameters@[0].gradient) == Some(id)
                    ||| slot_id(final(self).training.parameters@[1].gradient) == Some(id)
                    ||| old(runtime).live@.contains(id) && id != gradients@[0].buffer.id && old(
                        self).cache_id() != Some(id)
                },
            final(runtime).keeps_but(
                *old(runtime),
                |id: usize|
                    {
                        ||| id == gradients@[0].buffer.id
                        ||| old(self).cache_id() == Some(id)
                        ||| slot_id(old(self).training.parameters@[0].gradient) == Some(id)
                        ||| slot_id(old(self).training.parameters@[1].gradient) == Some(id)
                    },
            ),
    {
        let ghost before = *runtime;
        let ghost start = *self;
        let upstream = take_single(gradients);
        if let Some(input) = self.input_cache.take() {
            proof {
                assert(start.input_cache == Some(input));
            }
            let pre_activation = if self.linear.needs_pre_activation() {
                Some(self.linear.affine(&input, None, runtime, None))
            } else {
                proof {
                    runtime.lemma_ran_on_nothing(chosen(None));
                }
                None
            };
            let ghost s1 = *runtime;
            let (gradient, bias_gradient) = self.linear.backward(
                match &pre_activation {
                    Some(m) => Some(m),
                    None => None,
                },
                &upstream,
                runtime,
                None,
            );
            let ghost s2 = *runtime;
            proof {
                assert(s2.matrix(gradient) == start.inner_gradient(before, upstream));
                assert(s2.matrix(self.linear.weights) == before.matrix(self.linear.weights));
            }
            let input_gradient = self.linear.input_gradient(&gradient, runtime, None);
            let ghost s3 = *runtime;
            proof {
                assert(s3.matrix(input) == before.matrix(input));
                assert(s3.matrix(gradient) == s2.matrix(gradient));
            }
            self.linear.accumulate_training(
                &mut self.training,
                &input,
                &gradient,
                match &bias_gradient {
                    Some(b) => Some(b),
                    None => None,
                },
                runtime,
            );
            let ghost s4 = *runtime;
            if let Some(m) = pre_activation {
                runtime.recycle_matrix(m);
                assert(runtime.ran_on(s4, chosen(None)));
            }
            let ghost s5 = *runtime;
            if let Some(b) = bias_gradient {
                runtime.recycle_vector(b);
                assert(runtime.ran_on(s5, chosen(None)));
            }
            let ghost s6 = *runtime;
            runtime.recycle_matrix(gradient);
            let ghost s7 = *runtime;
            runtime.recycle_matrix(upstream);
            let ghost s8 = *runtime;
            runtime.recycle_matrix(input);
            proof {
                assert(s7.ran_on(s6, chosen(None)));
                assert(s8.ran_on(s7, chosen(None)));
                assert(runtime.ran_on(s8, chosen(None)));
            }
            return single(input_gradient);
        }
        Vec::new()
    }

    /// Applies the accumulated batch.
    pub fn learn(&mut self, config: LearnConfig, runtime: &mut CudaRuntime)
        requires
            old(runtime).wf(),
            old(self).wf(*old(runtime)),
            config.valid(),
            old(self).linear.batch_ready(old(self).training),
        ensures
            final(self).linear == old(self).linear,
            final(self).input_cache == old(self).input_cache,
            final(self).wf(*final(runtime)),
            old(self).linear.learned(
                *old(runtime),
                *final(runtime),
                old(self).training,
                final(self).training,
                config,
            ),
    {
        self.linear.descend(&mut self.training, config, runtime);
    }

    /// Brings the parameters to the host in checkpoint order.
    pub fn get_data(&self, runtime: &mut CudaRuntime) -> (r: Vec<HostRead>)
        requires
            old(runtime).wf(),
            self.wf(*old(runtime)),
        ensures
            final(runtime).read_out(*old(runtime), r@, self.linear.parameters(*old(runtime))),
    {
        self.linear.get_data(runtime)
    }

    /// Replaces the parameters by the next ones of a source.
    pub fn set_data(&mut self, data: &mut HostDataCursor, runtime: &mut CudaRuntime)
        requires
            old(runtime).wf(),
            old(self).wf(*old(runtime)),
            old(self).linear.fits(*old(data)),
        ensures
            *final(self) == *old(self),
            old(self).linear.restored(*old(runtime), *final(runtime), *old(data), *final(data)),
    {
        self.linear.restore(data, runtime);
    }
}

} // verus!
