//! Operations without parameters that join and transform matrices.

pub mod binary;
pub mod reduction;
pub mod single;
pub mod structural;

use vstd::prelude::*;

use crate::cuda::container::Matrix;
use crate::cuda::runtime::{chosen, CudaRuntime};
use crate::cuda::scalar::F32;
use crate::net::activation::Activation;

verus! {

broadcast use crate::cuda::runtime::group_streams;

/// An operation on two matrices, or on more of them in the case of `Add`.
#[derive(Clone, Copy, Debug, PartialEq, Eq, Structural)]
pub enum BinaryOp {
    Add,
    Sub,
    Mul,
    Div,
    MatMul,
}

/// An operation on one matrix.
#[derive(Clone, Copy, Debug, PartialEq, Eq, Structural)]
pub enum SingleType {
    Activation(Activation),
    Softmax,
    RmsNorm,
    LayerNorm,
    Scale(F32),
    Transpose,
}

/// What becomes of the elements of a row.
#[derive(Clone, Copy, Debug, PartialEq, Eq, Structural)]
pub enum RowReduction {
    Sum,
    Mean,
}

/// A direction along which matrices are joined and divided.
#[derive(Clone, Copy, Debug, PartialEq, Eq, Structural)]
pub enum MatrixAxis {
    Rows,
    Columns,
}

/// What every branch gets of a matrix that is handed to several.
#[derive(Clone, Copy, Debug, PartialEq, Eq, Structural)]
pub enum FanOutMode {
    Copy,
    Average,
}

/// Stateless multi-input operation used by inference paths.
pub struct BinaryNode {
    pub op: BinaryOp,
}

/// Stateless single-input operation used by inference paths.
pub struct SingleNode {
    pub op: SingleType,
}

/// What a backward pass of a multi-input operation needs.
pub enum BinaryCache {
    Inputs(Vec<Matrix>),
}

/// What a backward pass of a single-input operation needs.
pub enum SingleCache {
    Input(Matrix),
    Output(Matrix),
}

/// Multi-input node with the state required by one backward pass.
pub struct TrainingBinaryNode {
    pub node: BinaryNode,
    pub input_count: usize,
    pub forward_pending: bool,
    pub cache: Option<BinaryCache>,
}

/// Single-input node with the state required by one backward pass.
pub struct TrainingSingleNode {
    pub node: SingleNode,
    pub forward_pending: bool,
    pub cache: Option<SingleCache>,
}

/// Reduces every row to one element.
pub struct RowReduceNode {
    pub reduction: RowReduction,
}

/// The same with the shape that a backward pass restores.
pub struct TrainingRowReduceNode {
    pub node: RowReduceNode,
    pub input_shape: Option<(usize, usize)>,
}

/// Joins matrices along an axis.
pub struct ConcatNode {
    pub axis: MatrixAxis,
}

/// The same with the shapes that a backward pass restores.
pub struct TrainingConcatNode {
    pub node: ConcatNode,
    pub input_shapes: Option<Vec<(usize, usize)>>,
}

/// Divides a matrix along an axis.
pub struct SplitNode {
    pub axis: MatrixAxis,
    pub sizes: Vec<usize>,
}

/// The same, with a backward pass for every forward pass.
pub struct TrainingSplitNode {
    pub node: SplitNode,
    pub forward_pending: bool,
}

/// Hands one matrix to several branches.
pub struct FanOutNode {
    pub mode: FanOutMode,
    pub output_count: usize,
}

/// The same, with a backward pass for every forward pass.
pub struct TrainingFanOutNode {
    pub node: FanOutNode,
    pub forward_pending: bool,
}

impl CudaRuntime {
    /// A later state in which the buffers in `taken` have made way for those
    /// in `made`, some of which may be the same, and nothing else changed.
    pub open spec fn swapped(self, before: CudaRuntime, taken: Set<usize>, made: Set<usize>) -> bool {
        &&& self.wf()
        &&& self.live@ == before.live@.difference(taken).union(made)
        &&& forall|id: usize|
            #![trigger made.contains(id)]
            made.contains(id) ==> !before.live@.contains(id) || taken.contains(id)
        &&& self.keeps(before, taken)
        &&& self.device@.downloads == before.device@.downloads
    }

    /// The same, and work that was in order still is.
    pub open spec fn replaced(self, before: CudaRuntime, taken: Set<usize>, made: Set<usize>) -> bool {
        &&& self.swapped(before, taken, made)
        &&& self.keeps_order(before)
    }

    /// The same by work on the primary stream alone.
    pub open spec fn exchanged(self, before: CudaRuntime, taken: Set<usize>, made: Set<usize>) -> bool {
        &&& self.replaced(before, taken, made)
        &&& self.ran_on(before, chosen(None))
    }
}

} // verus!
