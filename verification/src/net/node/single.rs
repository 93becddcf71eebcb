//! Operations on one matrix.

use vstd::prelude::*;

use super::{SingleCache, SingleNode, SingleType, TrainingSingleNode};
use crate::cuda::algebra::{apply, row_apply, row_gradient, transpose, zip, Term};
use crate::cuda::container::matrix::{row_blocks_fit, squares_fit};
use crate::cuda::container::norm::{layer_norm_fn, rms_norm_fn, softmax_fn};
use crate::cuda::container::Matrix;
use crate::cuda::ops::{BinaryFn, MapFn};
use crate::cuda::runtime::{chosen, CudaRuntime};
use crate::cuda::scalar::Scalar;
use crate::net::activation::Activation;

verus! {

broadcast use crate::cuda::runtime::group_streams;

impl SingleType {
    /// What the operation makes of a `rows x cols` matrix.
    pub open spec fn image(self, a: Seq<Term>, rows: nat, cols: nat) -> Seq<Term> {
        match self {
            SingleType::Activation(f) => apply(MapFn::Activate(f), a),
            SingleType::Softmax => row_apply(softmax_fn(), a, cols),
            SingleType::RmsNorm => row_apply(rms_norm_fn(), a, cols),
            SingleType::LayerNorm => row_apply(layer_norm_fn(), a, cols),
            SingleType::Scale(value) => apply(MapFn::Scale(Scalar::Literal(value)), a),
            SingleType::Transpose => transpose(a, rows, cols),
        }
    }

    /// The gradient of the input, given that of the `rows x cols` output and
    /// what was saved for it.
    pub open spec fn pullback(
        self,
        saved: Seq<Term>,
        gradient: Seq<Term>,
        rows: nat,
        cols: nat,
    ) -> Seq<Term> {
        match self {
            SingleType::Activation(Activation::Identity) => gradient,
            SingleType::Activation(f) => zip(BinaryFn::Mul, gradient, apply(MapFn::Slope(f), saved)),
            SingleType::Softmax => row_gradient(softmax_fn(), saved, gradient, cols),
            SingleType::RmsNorm => row_gradient(rms_norm_fn(), saved, gradient, cols),
            SingleType::LayerNorm => row_gradient(layer_norm_fn(), saved, gradient, cols),
            SingleType::Scale(value) => apply(MapFn::Scale(Scalar::Literal(value)), gradient),
            SingleType::Transpose => transpose(gradient, rows, cols),
        }
    }

    /// Whether a grid has the blocks that the operation launches for a shape.
    pub open spec fn launches(self, rows: int, cols: int) -> bool {
        match self {
            SingleType::Softmax | SingleType::RmsNorm | SingleType::LayerNorm => row_blocks_fit(
                rows,
                cols,
            ),
            SingleType::Transpose => squares_fit(rows, cols),
            _ => true,
        }
    }

    /// Whether the derivative depends on the input.
    pub open spec fn saves_input(self) -> bool {
        match self {
            SingleType::Activation(f) => !(f is Identity),
            SingleType::RmsNorm => true,
            SingleType::LayerNorm => true,
            _ => false,
        }
    }

    /// Whether the derivative depends on the output.
    pub open spec fn saves_output(self) -> bool {
        self is Softmax
    }

    /// What is saved for the derivative.
    pub open spec fn saved(self, input: Seq<Term>, rows: nat, cols: nat) -> Seq<Term> {
        if self.saves_output() {
            self.image(input, rows, cols)
        } else {
            input
        }
    }

    /// The rows of the result.
    pub open spec fn out_rows(self, rows: usize, cols: usize) -> usize {
        if self is Transpose {
            cols
        } else {
            rows
        }
    }

    /// The columns of the result.
    pub open spec fn out_cols(self, rows: usize, cols: usize) -> usize {
        if self is Transpose {
            rows
        } else {
            cols
        }
    }
}

impl SingleCache {
    pub open spec fn matrix(self) -> Matrix {
        match self {
            SingleCache::Input(m) => m,
            SingleCache::Output(m) => m,
        }
    }
}

impl SingleNode {
    pub fn new(op: SingleType) -> (r: SingleNode)
        ensures
            r.op == op,
    {
        SingleNode { op }
    }

    pub fn op(&self) -> (r: SingleType)
        ensures
            r == self.op,
    {
        self.op
    }

    /// Inference path: consumes its input and gives it back when the operation
    /// necessarily creates a differently laid out result.
    pub fn forward(&self, input: Matrix, runtime: &mut CudaRuntime) -> (r: Matrix)
        requires
            old(runtime).wf(),
            old(runtime).holds(input),
            self.op.launches(input.rows as int, input.cols as int),
        ensures
            final(runtime).exchanged(*old(runtime), set![input.buffer.id], set![r.buffer.id]),
            final(runtime).holds(r),
            r.rows == self.op.out_rows(input.rows, input.cols),
            r.cols == self.op.out_cols(input.rows, input.cols),
            final(runtime).matrix(r) == self.op.image(
                old(runtime).matrix(input),
                input.rows as nat,
                input.cols as nat,
            ),
            !(self.op is Transpose) ==> r == input && final(runtime).confined(
                *old(runtime),
                Set::empty(),
                set![input.buffer.id],
            ),
    {
        let ghost before = *runtime;
        if let SingleType::Transpose = self.op {
            let output = runtime.matrix_transpose(&input, None);
            let ghost s1 = *runtime;
            proof {
                assert(s1.live@.contains(input.buffer.id));
                assert(s1.buffers@[input.buffer.id as int] == input.buffer.len);
            }
            runtime.recycle_matrix(input);
            proof {
                assert(runtime.ran_on(s1, chosen(None)));
                assert(runtime.live@ =~= before.live@.difference(set![input.buffer.id]).union(
                    set![output.buffer.id],
                ));
                assert(runtime.buffers@[output.buffer.id as int] == output.buffer.len);
            }
            return output;
        }
        let mut output = input;
        apply_in_place(self.op, &mut output, runtime);
        proof {
            assert(runtime.live@ =~= before.live@.difference(set![input.buffer.id]).union(
                set![output.buffer.id],
            ));
            assert(runtime.buffers@[input.buffer.id as int] == input.buffer.len);
        }
        output
    }
}

impl TrainingSingleNode {
    pub fn new(op: SingleType) -> (r: TrainingSingleNode)
        ensures
            r.node.op == op,
            !r.forward_pending,
            r.cache is None,
    {
        TrainingSingleNode { node: SingleNode::new(op), forward_pending: false, cache: None }
    }

    pub fn op(&self) -> (r: SingleType)
        ensures
            r == self.node.op,
    {
        self.node.op()
    }

    /// The buffers that the node retains.
    pub open spec fn retained(self) -> Set<usize> {
        match self.cache {
            Some(cache) => set![cache.matrix().buffer.id],
            None => Set::empty(),
        }
    }

    /// The node retains what its derivative needs, and only between a forward
    /// and its backward pass.
    pub open spec fn wf(self, runtime: CudaRuntime) -> bool {
        &&& self.cache is Some <==> self.forward_pending && (self.node.op.saves_input()
            || self.node.op.saves_output())
        &&& self.cache matches Some(cache) ==> runtime.holds(cache.matrix()) && (cache is Input
            <==> self.node.op.saves_input())
    }

    pub fn forward(&mut self, input: Matrix, runtime: &mut CudaRuntime) -> (r: Matrix)
        requires
            old(runtime).wf(),
            old(self).wf(*old(runtime)),
            old(runtime).holds(input),
            old(self).node.op.launches(input.rows as int, input.cols as int),
            !old(self).retained().contains(input.buffer.id),
        ensures
            final(self).node == old(self).node,
            final(self).forward_pending,
            final(self).wf(*final(runtime)),
            final(runtime).exchanged(
                *old(runtime),
                old(self).retained().insert(input.buffer.id),
                final(self).retained().insert(r.buffer.id),
            ),
            final(runtime).holds(r),
            !final(self).retained().contains(r.buffer.id),
            r.rows == old(self).node.op.out_rows(input.rows, input.cols),
            r.cols == old(self).node.op.out_cols(input.rows, input.cols),
            final(runtime).matrix(r) == old(self).node.op.image(
                old(runtime).matrix(input),
                input.rows as nat,
                input.cols as nat,
            ),
            final(self).cache matches Some(cache) ==> cache.matrix().rows == input.rows
                && cache.matrix().cols == input.cols && final(runtime).matrix(cache.matrix())
                == old(self).node.op.saved(
                old(runtime).matrix(input),
                input.rows as nat,
                input.cols as nat,
            ),
            old(self).node.op.saves_input() ==> final(self).cache == Some(
                SingleCache::Input(input),
            ),
    {
        let ghost before = *runtime;
        let ghost start = *self;
        self.clear_cache(runtime);
        let ghost s0 = *runtime;
        proof {
            assert(s0.live@.contains(input.buffer.id));
            assert(s0.buffers@[input.buffer.id as int] == input.buffer.len);
            assert(s0.matrix(input) == before.matrix(input));
        }
        self.forward_pending = true;
        let saves_input = match self.node.op {
            SingleType::Activation(activation) => !activation.is_identity(),
            SingleType::LayerNorm | SingleType::RmsNorm => true,
            _ => false,
        };
        let saves_output = match self.node.op {
            SingleType::Softmax => true,
            _ => false,
        };
        let ghost taken = start.retained().insert(input.buffer.id);
        if !saves_input && !saves_output {
            let output = self.node.forward(input, runtime);
            proof {
                assert(runtime.live@ =~= before.live@.difference(taken).union(
                    Set::empty().insert(output.buffer.id),
                ));
                assert(runtime.keeps(before, taken));
            }
            output
        } else if saves_input {
            let mut output = runtime.clone_matrix(&input, None);
            let ghost s1 = *runtime;
            apply_in_place(self.node.op, &mut output, runtime);
            self.cache = Some(SingleCache::Input(input));
            proof {
                assert(runtime.live@ =~= before.live@.difference(taken).union(
                    set![input.buffer.id].insert(output.buffer.id),
                ));
                assert(runtime.buffers@[input.buffer.id as int] == input.buffer.len);
                assert(runtime.buffers@[output.buffer.id as int] == output.buffer.len);
                assert(runtime.matrix(input) == s1.matrix(input));
                assert(runtime.keeps(before, taken));
            }
            output
        } else {
            let output = self.node.forward(input, runtime);
            let ghost s1 = *runtime;
            let copy = runtime.clone_matrix(&output, None);
            proof {
                assert(runtime.live@ =~= before.live@.difference(taken).union(
                    set![copy.buffer.id].insert(output.buffer.id),
                ));
                assert(runtime.buffers@[output.buffer.id as int] == output.buffer.len);
                assert(runtime.matrix(output) == s1.matrix(output));
                assert(runtime.keeps(before, taken));
            }
            self.cache = Some(SingleCache::Output(copy));
            output
        }
    }

    pub fn backward(&mut self, output_gradient: Matrix, runtime: &mut CudaRuntime) -> (r: Matrix)
        requires
            old(runtime).wf(),
            old(self).wf(*old(runtime)),
            old(self).forward_pending,
            old(runtime).holds(output_gradient),
            old(self).node.op.launches(output_gradient.rows as int, output_gradient.cols as int),
            !old(self).retained().contains(output_gradient.buffer.id),
            old(self).cache matches Some(cache) ==> cache.matrix().rows == output_gradient.rows
                && cache.matrix().cols == output_gradient.cols,
        ensures
            final(self).node == old(self).node,
            !final(self).forward_pending,
            final(self).cache is None,
            final(runtime).exchanged(
                *old(runtime),
                old(self).retained().insert(output_gradient.buffer.id),
                set![r.buffer.id],
            ),
            final(runtime).holds(r),
            r.rows == old(self).node.op.out_rows(output_gradient.rows, output_gradient.cols),
            r.cols == old(self).node.op.out_cols(output_gradient.rows, output_gradient.cols),
            final(runtime).matrix(r) == old(self).node.op.pullback(
                match old(self).cache {
                    Some(cache) => old(runtime).matrix(cache.matrix()),
                    None => Seq::empty(),
                },
                old(runtime).matrix(output_gradient),
                output_gradient.rows as nat,
                output_gradient.cols as nat,
            ),
    {
        let ghost before = *runtime;
        let ghost start = *self;
        let ghost taken = start.retained().insert(output_gradient.buffer.id);
        self.forward_pending = false;
        let mut output_gradient = output_gradient;
        proof {
            runtime.lemma_ran_on_nothing(chosen(None));
        }
        match (self.node.op, self.cache.take()) {
            (SingleType::Scale(scale), _) => {
                output_gradient.scale(Scalar::Literal(scale), runtime, None);
                proof {
                    assert(runtime.live@ =~= before.live@.difference(taken).union(
                        set![output_gradient.buffer.id],
                    ));
                    assert(runtime.buffers@[output_gradient.buffer.id as int]
                        == output_gradient.buffer.len);
                }
                output_gradient
            },
            (SingleType::Transpose, _) => {
                let output = self.node.forward(output_gradient, runtime);
                proof {
                    assert(taken =~= set![output_gradient.buffer.id]);
                }
                output
            },
            (SingleType::Activation(Activation::Identity), _) => {
                proof {
                    assert(runtime.live@ =~= before.live@.difference(taken).union(
                        set![output_gradient.buffer.id],
                    ));
                }
                output_gradient
            },
            (SingleType::Activation(activation), Some(SingleCache::Input(input))) => {
                let mut derivative = input;
                derivative.for_each(runtime, MapFn::Slope(activation), None);
                let ghost s1 = *runtime;
                proof {
                    assert(s1.buffers@[input.buffer.id as int] == input.buffer.len);
                    assert(s1.buffers@[output_gradient.buffer.id as int]
                        == output_gradient.buffer.len);
                }
                output_gradient.binary_assign(&derivative, BinaryFn::Mul, runtime, None);
                let ghost s2 = *runtime;
                assert(s2.buffers@[input.buffer.id as int] == input.buffer.len);
                runtime.recycle_matrix(derivative);
                proof {
                    assert(runtime.ran_on(s2, chosen(None)));
                    assert(runtime.live@ =~= before.live@.difference(taken).union(
                        set![output_gradient.buffer.id],
                    ));
                    assert(runtime.buffers@[output_gradient.buffer.id as int]
                        == output_gradient.buffer.len);
                    assert(runtime.keeps(before, taken));
                }
                output_gradient
            },
            (SingleType::Softmax, Some(SingleCache::Output(probabilities))) => {
                let gradient = runtime.softmax_rows_backward(&probabilities, &output_gradient, None);
                give_back_pair(probabilities, output_gradient, runtime);
                proof {
                    assert(runtime.live@ =~= before.live@.difference(taken).union(
                        set![gradient.buffer.id],
                    ));
                    assert(runtime.buffers@[gradient.buffer.id as int] == gradient.buffer.len);
                    assert(runtime.keeps(before, taken));
                }
                gradient
            },
            (SingleType::LayerNorm, Some(SingleCache::Input(input))) => {
                let gradient = runtime.layer_norm_backward(&input, &output_gradient, None);
                give_back_pair(input, output_gradient, runtime);
                proof {
                    assert(runtime.live@ =~= before.live@.difference(taken).union(
                        set![gradient.buffer.id],
                    ));
                    assert(runtime.buffers@[gradient.buffer.id as int] == gradient.buffer.len);
                    assert(runtime.keeps(before, taken));
                }
                gradient
            },
            (SingleType::RmsNorm, Some(SingleCache::Input(input))) => {
                let gradient = runtime.rms_norm_backward(&input, &output_gradient, None);
                give_back_pair(input, output_gradient, runtime);
                proof {
                    assert(runtime.live@ =~= before.live@.difference(taken).union(
                        set![gradient.buffer.id],
                    ));
                    assert(runtime.buffers@[gradient.buffer.id as int] == gradient.buffer.len);
                    assert(runtime.keeps(before, taken));
                }
                gradient
            },
            _ => {
                proof {
                    assert(false);
                }
                output_gradient
            },
        }
    }

    pub fn clear_cache(&mut self, runtime: &mut CudaRuntime)
        requires
            old(runtime).wf(),
            old(self).wf(*old(runtime)),
        ensures
            final(self).node == old(self).node,
            !final(self).forward_pending,
            final(self).cache is None,
            final(runtime).exchanged(*old(runtime), old(self).retained(), Set::empty()),
    {
        let ghost before = *runtime;
        let ghost start = *self;
        proof {
            runtime.lemma_ran_on_nothing(chosen(None));
        }
        if let Some(cache) = self.cache.take() {
            let matrix = match cache {
                SingleCache::Input(matrix) => matrix,
                SingleCache::Output(matrix) => matrix,
            };
            runtime.recycle_matrix(matrix);
            assert(runtime.ran_on(before, chosen(None)));
        }
        self.forward_pending = false;
        proof {
            assert(runtime.live@ =~= before.live@.difference(start.retained()).union(Set::empty()));
        }
    }
}

/// Gives two different matrices back, the first one first.
fn give_back_pair(first: Matrix, second: Matrix, runtime: &mut CudaRuntime)
    requires
        old(runtime).wf(),
        old(runtime).holds(first),
        old(runtime).holds(second),
        first.buffer.id != second.buffer.id,
    ensures
        final(runtime).exchanged(
            *old(runtime),
            set![first.buffer.id, second.buffer.id],
            Set::empty(),
        ),
{
    let ghost before = *runtime;
    runtime.recycle_matrix(first);
    let ghost s1 = *runtime;
    proof {
        assert(s1.live@.contains(second.buffer.id));
        assert(s1.buffers@[second.buffer.id as int] == second.buffer.len);
    }
    runtime.recycle_matrix(second);
    proof {
        assert(s1.ran_on(before, chosen(None)));
        assert(runtime.ran_on(s1, chosen(None)));
        assert(runtime.live@ =~= before.live@.difference(
            set![first.buffer.id, second.buffer.id],
        ).union(Set::empty()));
    }
}

fn apply_in_place(op: SingleType, matrix: &mut Matrix, runtime: &mut CudaRuntime)
    requires
        old(runtime).wf(),
        old(runtime).holds(*old(matrix)),
        !(op is Transpose),
        op.launches(old(matrix).rows as int, old(matrix).cols as int),
    ensures
        *final(matrix) == *old(matrix),
        final(runtime).changed(*old(runtime), old(matrix).buffer.id, None),
        final(runtime).matrix(*old(matrix)) == op.image(
            old(runtime).matrix(*old(matrix)),
            old(matrix).rows as nat,
            old(matrix).cols as nat,
        ),
        final(runtime).confined(*old(runtime), Set::empty(), set![old(matrix).buffer.id]),
{
    match op {
        SingleType::Activation(activation) => {
            matrix.for_each(runtime, MapFn::Activate(activation), None)
        },
        SingleType::Softmax => matrix.softmax_rows(runtime, None),
        SingleType::RmsNorm => matrix.rms_norm(runtime, None),
        SingleType::LayerNorm => matrix.layer_norm(runtime, None),
        SingleType::Scale(scale) => matrix.scale(Scalar::Literal(scale), runtime, None),
        SingleType::Transpose => {},
    }
}

} // verus!
