//! Reduction of rows to single elements.

use vstd::prelude::*;

use super::{RowReduceNode, RowReduction, TrainingRowReduceNode};
use crate::cuda::algebra::{apply, repeated, row_totals, transpose, Term};
use crate::cuda::arith::{lemma_position, lemma_row_col};
use crate::cuda::container::matrix::{shapeable, squares_fit};
use crate::cuda::container::Matrix;
use crate::cuda::ops::MapFn;
use crate::cuda::runtime::{chosen, CudaRuntime};
use crate::cuda::scalar::Scalar;

verus! {

broadcast use crate::cuda::runtime::group_streams;

/// Every element of a column repeated along its row.
pub open spec fn spread(column: Seq<Term>, rows: nat, cols: nat) -> Seq<Term> {
    Seq::new(rows * cols, |i: int| column[i / (cols as int)])
}

impl RowReduction {
    /// The factor after adding: one over the row's length for a mean.
    pub open spec fn weighted(self, a: Seq<Term>, cols: usize) -> Seq<Term> {
        match self {
            RowReduction::Sum => a,
            RowReduction::Mean => apply(MapFn::Scale(Scalar::Reciprocal(cols)), a),
        }
    }
}

impl RowReduceNode {
    pub fn new(reduction: RowReduction) -> (r: RowReduceNode)
        ensures
            r.reduction == reduction,
    {
        RowReduceNode { reduction }
    }

    pub fn reduction(&self) -> (r: RowReduction)
        ensures
            r == self.reduction,
    {
        self.reduction
    }

    /// Consumes a `rows x cols` matrix and returns a column of its reduced
    /// rows.
    pub fn forward(&self, input: Matrix, runtime: &mut CudaRuntime) -> (r: Matrix)
        requires
            old(runtime).wf(),
            old(runtime).holds(input),
            input.cols > 0,
            input.rows <= u32::MAX,
        ensures
            final(runtime).exchanged(*old(runtime), set![input.buffer.id], set![r.buffer.id]),
            final(runtime).holds(r),
            r.buffer.id != input.buffer.id,
            r.rows == input.rows,
            r.cols == 1,
            final(runtime).matrix(r) == self.reduction.weighted(
                row_totals(
                    old(runtime).matrix(input),
                    input.rows as nat,
                    input.cols as nat,
                ),
                input.cols,
            ),
    {
        let ghost before = *runtime;
        let cols: usize = input.cols;
        let totals = runtime.matrix_sum_rows(&input, None);
        let ghost s1 = *runtime;
        assert(s1.buffers@[input.buffer.id as int] == input.buffer.len);
        runtime.recycle_matrix(input);
        let ghost s2 = *runtime;
        proof {
            assert(s2.ran_on(s1, chosen(None)));
            assert(s2.buffers@[totals.buffer.id as int] == totals.buffer.len);
        }
        let mut output = runtime.vector_into_matrix(totals);
        assert(output.rows * output.cols == output.buffer.len) by (nonlinear_arith)
            requires
                output.cols == 1,
                output.rows == output.buffer.len,
        ;
        if let RowReduction::Mean = self.reduction {
            output.scale(Scalar::Reciprocal(cols), runtime, None);
        }
        proof {
            assert(runtime.buffers@[output.buffer.id as int] == output.buffer.len);
            assert(runtime.live@ =~= before.live@.difference(set![input.buffer.id]).union(
                set![output.buffer.id],
            ));
            assert(runtime.keeps(before, set![input.buffer.id]));
        }
        output
    }
}

impl TrainingRowReduceNode {
    pub fn new(reduction: RowReduction) -> (r: TrainingRowReduceNode)
        ensures
            r.node.reduction == reduction,
            r.input_shape is None,
    {
        TrainingRowReduceNode { node: RowReduceNode::new(reduction), input_shape: None }
    }

    pub fn reduction(&self) -> (r: RowReduction)
        ensures
            r == self.node.reduction,
    {
        self.node.reduction()
    }

    /// The remembered shape is that of a matrix the device can hold.
    pub open spec fn wf(self) -> bool {
        self.input_shape matches Some(shape) ==> shape.1 > 0 && shapeable(
            shape.1 as int,
            shape.0 as int,
        )
    }

    pub fn forward(&mut self, input: Matrix, runtime: &mut CudaRuntime) -> (r: Matrix)
        requires
            old(runtime).wf(),
            old(runtime).holds(input),
            input.cols > 0,
            input.rows <= u32::MAX,
        ensures
            final(self).node == old(self).node,
            final(self).input_shape == Some((input.rows, input.cols)),
            final(self).wf(),
            final(runtime).exchanged(*old(runtime), set![input.buffer.id], set![r.buffer.id]),
            final(runtime).holds(r),
            r.rows == input.rows,
            r.cols == 1,
            final(runtime).matrix(r) == old(self).node.reduction.weighted(
                row_totals(
                    old(runtime).matrix(input),
                    input.rows as nat,
                    input.cols as nat,
                ),
                input.cols,
            ),
    {
        proof {
            runtime.lemma_whole(input.buffer);
            assert(input.cols * input.rows == input.rows * input.cols) by (nonlinear_arith);
        }
        self.input_shape = Some((input.rows, input.cols));
        self.node.forward(input, runtime)
    }

    /// Hands the gradient of every row to each of its elements.
    pub fn backward(&mut self, output_gradient: Matrix, runtime: &mut CudaRuntime) -> (r: Matrix)
        requires
            old(runtime).wf(),
            old(self).wf(),
            old(self).input_shape is Some,
            old(runtime).holds(output_gradient),
            output_gradient.rows == old(self).rows(),
            output_gradient.cols == 1,
            squares_fit(old(self).cols() as int, old(self).rows() as int),
        ensures
            final(self).node == old(self).node,
            final(self).input_shape is None,
            final(runtime).exchanged(
                *old(runtime),
                set![output_gradient.buffer.id],
                set![r.buffer.id],
            ),
            final(runtime).holds(r),
            r.rows == old(self).rows(),
            r.cols == old(self).cols(),
            final(runtime).matrix(r) == old(self).node.reduction.weighted(
                spread(
                    old(runtime).matrix(output_gradient),
                    old(self).rows() as nat,
                    old(self).cols() as nat,
                ),
                old(self).cols(),
            ),
    {
        let ghost before = *runtime;
        if let Some((rows, cols)) = self.input_shape.take() {
            assert(output_gradient.buffer.len == output_gradient.rows) by (nonlinear_arith)
                requires
                    output_gradient.rows * output_gradient.cols == output_gradient.buffer.len,
                    output_gradient.cols == 1,
            ;
            let ghost column = before.matrix(output_gradient);
            proof {
                before.lemma_whole(output_gradient.buffer);
            }
            let gradient = runtime.matrix_into_vector(output_gradient);
            let expanded_t = runtime.broadcast(&gradient, cols, None);
            let ghost s1 = *runtime;
            assert(s1.buffers@[gradient.buffer.id as int] == gradient.buffer.len);
            runtime.recycle_vector(gradient);
            let ghost s2 = *runtime;
            proof {
                assert(s2.ran_on(s1, chosen(None)));
                assert(s2.buffers@[expanded_t.buffer.id as int] == expanded_t.buffer.len);
            }
            let mut expanded = runtime.matrix_transpose(&expanded_t, None);
            let ghost s3 = *runtime;
            assert(s3.buffers@[expanded_t.buffer.id as int] == expanded_t.buffer.len);
            runtime.recycle_matrix(expanded_t);
            let ghost s4 = *runtime;
            proof {
                assert(s4.ran_on(s3, chosen(None)));
                assert(s4.buffers@[expanded.buffer.id as int] == expanded.buffer.len);
                lemma_spread(column, rows as nat, cols as nat);
            }
            if let RowReduction::Mean = self.node.reduction {
                expanded.scale(Scalar::Reciprocal(cols), runtime, None);
            }
            proof {
                assert(runtime.buffers@[expanded.buffer.id as int] == expanded.buffer.len);
                assert(runtime.live@ =~= before.live@.difference(
                    set![output_gradient.buffer.id],
                ).union(set![expanded.buffer.id]));
                assert(runtime.keeps(before, set![output_gradient.buffer.id]));
            }
            expanded
        } else {
            proof {
                assert(false);
            }
            output_gradient
        }
    }

    /// The rows of the remembered shape.
    pub open spec fn rows(self) -> usize {
        match self.input_shape {
            Some(shape) => shape.0,
            None => 0,
        }
    }

    /// The columns of the remembered shape.
    pub open spec fn cols(self) -> usize {
        match self.input_shape {
            Some(shape) => shape.1,
            None => 0,
        }
    }

    pub fn clear_cache(&mut self)
        ensures
            final(self).node == old(self).node,
            final(self).input_shape is None,
    {
        self.input_shape = None;
    }
}

/// Repeated and transposed, a column is spread along its rows.
pub proof fn lemma_spread(column: Seq<Term>, rows: nat, cols: nat)
    requires
        column.len() == rows,
        cols > 0,
    ensures
        transpose(repeated(column, cols), cols, rows) == spread(column, rows, cols),
{
    let t = transpose(repeated(column, cols), cols, rows);
    let s = spread(column, rows, cols);
    assert forall|i: int| 0 <= i < rows * cols implies t[i] == s[i] by {
        lemma_position(i, rows as int, cols as int);
        let r = i / (cols as int);
        let c = i % (cols as int);
        lemma_row_col(c, r, rows as int);
        crate::cuda::arith::lemma_position_in_range(c, r, cols as int, rows as int);
    }
    assert(t =~= s);
}

} // verus!
