//! The blocks that a graph is made of.

use vstd::prelude::*;

use crate::cuda::algebra::sum_of;
use crate::graph::config::MatrixConfig;
use crate::graph::state::NodeTrainState;
use crate::net::linear::{Linear, LinearTrainingNode};
use crate::net::mlp::InferenceMLP;
use crate::net::node::structural::concatenated_shape;
use crate::net::node::{
    BinaryNode, BinaryOp, ConcatNode, FanOutNode, MatrixAxis, RowReduceNode, SingleNode,
    SingleType, SplitNode, TrainingConcatNode, TrainingFanOutNode,
};
use crate::net::swiglu::Swiglu;

verus! {

/// A block of a graph.
pub enum Node {
    Linear(Linear),
    TrainingLinear(LinearTrainingNode),
    Single(SingleNode),
    Binary(BinaryNode),
    RowReduce(RowReduceNode),
    Concat(ConcatNode),
    TrainingConcat(TrainingConcatNode),
    Split(SplitNode),
    Copy(FanOutNode),
    TrainingCopy(TrainingFanOutNode),
    Swiglu(Swiglu),
    Mlp(InferenceMLP),
}

/// Shapes as pairs of rows and columns.
pub open spec fn shapes(configs: Seq<MatrixConfig>) -> Seq<(usize, usize)> {
    Seq::new(configs.len(), |k: int| (configs[k].rows, configs[k].cols))
}

/// Whether shapes can be joined along an axis.
pub open spec fn joins(axis: MatrixAxis, inputs: Seq<MatrixConfig>) -> bool {
    &&& inputs.len() >= 2
    &&& axis.agrees(shapes(inputs))
    &&& sum_of(axis.extents(shapes(inputs))) <= usize::MAX
}

/// The shape of matrices joined along an axis.
pub open spec fn joined_config(axis: MatrixAxis, inputs: Seq<MatrixConfig>) -> MatrixConfig {
    let extent = sum_of(axis.extents(shapes(inputs))) as usize;
    match axis {
        MatrixAxis::Rows => MatrixConfig { rows: extent, cols: inputs[0].cols },
        MatrixAxis::Columns => MatrixConfig { rows: inputs[0].rows, cols: extent },
    }
}

/// The shape of matrices joined along an axis, if they can be.
pub fn join_configs(axis: MatrixAxis, inputs: &Vec<MatrixConfig>) -> (r: Option<MatrixConfig>)
    ensures
        r is Some <==> joins(axis, inputs@),
        r matches Some(config) ==> config == joined_config(axis, inputs@),
{
    if inputs.len() < 2 {
        return None;
    }
    let mut pairs: Vec<(usize, usize)> = Vec::new();
    let mut i: usize = 0;
    while i < inputs.len()
        invariant
            i <= inputs@.len(),
            pairs@.len() == i,
            forall|k: int|
                0 <= k < i ==> #[trigger] pairs@[k] == (inputs@[k].rows, inputs@[k].cols),
        decreases inputs@.len() - i,
    {
        pairs.push((inputs[i].rows, inputs[i].cols));
        i = i + 1;
    }
    assert(pairs@ =~= shapes(inputs@));
    match concatenated_shape(axis, &pairs) {
        Some((rows, cols)) => Some(MatrixConfig::new(rows, cols)),
        None => None,
    }
}

/// The shapes of the parts of a matrix that is divided along an axis.
pub open spec fn part_configs(axis: MatrixAxis, sizes: Seq<usize>, input: MatrixConfig) -> Seq<
    MatrixConfig,
> {
    Seq::new(
        sizes.len(),
        |k: int|
            match axis {
                MatrixAxis::Rows => MatrixConfig { rows: sizes[k], cols: input.cols },
                MatrixAxis::Columns => MatrixConfig { rows: input.rows, cols: sizes[k] },
            },
    )
}

/// A shape several times.
pub fn repeat_config(config: MatrixConfig, count: usize) -> (r: Vec<MatrixConfig>)
    ensures
        r@ == Seq::new(count as nat, |k: int| config),
{
    let mut configs: Vec<MatrixConfig> = Vec::new();
    let mut i: usize = 0;
    while i < count
        invariant
            i <= count,
            configs@ == Seq::new(i as nat, |k: int| config),
        decreases count - i,
    {
        configs.push(config);
        i = i + 1;
        assert(configs@ =~= Seq::new(i as nat, |k: int| config));
    }
    configs
}

/// A single shape.
pub fn one_config(rows: usize, cols: usize) -> (r: Vec<MatrixConfig>)
    ensures
        r@ == seq![MatrixConfig { rows, cols }],
{
    let mut configs: Vec<MatrixConfig> = Vec::new();
    configs.push(MatrixConfig::new(rows, cols));
    assert(configs@ =~= seq![MatrixConfig { rows, cols }]);
    configs
}

impl Node {
    /// Whether the block accepts inputs of these shapes.
    pub open spec fn fits(self, inputs: Seq<MatrixConfig>) -> bool {
        match self {
            Node::Linear(linear) => inputs.len() == 1 && inputs[0].cols == linear.weights.rows,
            Node::TrainingLinear(node) => inputs.len() == 1 && inputs[0].cols
                == node.linear.weights.rows,
            Node::Single(_) => inputs.len() == 1,
            Node::Binary(node) => {
                &&& node.op.takes(inputs.len())
                &&& if node.op is MatMul {
                    inputs[0].cols == inputs[1].rows
                } else {
                    forall|k: int|
                        #![trigger inputs[k]]
                        0 <= k < inputs.len() ==> inputs[k] == inputs[0]
                }
            },
            Node::RowReduce(_) => inputs.len() == 1 && inputs[0].cols > 0,
            Node::Concat(node) => joins(node.axis, inputs),
            Node::TrainingConcat(node) => joins(node.node.axis, inputs),
            Node::Split(node) => inputs.len() == 1 && sum_of(node.sizes@) == node.axis.extent(
                inputs[0].rows,
                inputs[0].cols,
            ),
            Node::Copy(_) => inputs.len() == 1,
            Node::TrainingCopy(_) => inputs.len() == 1,
            Node::Swiglu(block) => inputs.len() == 1 && inputs[0].cols == block.gate.weights.rows,
            Node::Mlp(mlp) => inputs.len() == 1 && mlp.executor.layers@.len() > 0 && inputs[0].cols
                == mlp.executor.width(0),
        }
    }

    /// The shapes of the block's outputs.
    pub open spec fn outputs(self, inputs: Seq<MatrixConfig>) -> Seq<MatrixConfig> {
        match self {
            Node::Linear(linear) => seq![
                MatrixConfig { rows: inputs[0].rows, cols: linear.weights.cols },
            ],
            Node::TrainingLinear(node) => seq![
                MatrixConfig { rows: inputs[0].rows, cols: node.linear.weights.cols },
            ],
            Node::Single(node) => seq![
                MatrixConfig {
                    rows: node.op.out_rows(inputs[0].rows, inputs[0].cols),
                    cols: node.op.out_cols(inputs[0].rows, inputs[0].cols),
                },
            ],
            Node::Binary(node) => seq![
                MatrixConfig {
                    rows: inputs[0].rows,
                    cols: if node.op is MatMul {
                        inputs[1].cols
                    } else {
                        inputs[0].cols
                    },
                },
            ],
            Node::RowReduce(_) => seq![MatrixConfig { rows: inputs[0].rows, cols: 1 }],
            Node::Concat(node) => seq![joined_config(node.axis, inputs)],
            Node::TrainingConcat(node) => seq![joined_config(node.node.axis, inputs)],
            Node::Split(node) => part_configs(node.axis, node.sizes@, inputs[0]),
            Node::Copy(node) => Seq::new(node.output_count as nat, |k: int| inputs[0]),
            Node::TrainingCopy(node) => Seq::new(node.node.output_count as nat, |k: int| inputs[0]),
            Node::Swiglu(block) => seq![
                MatrixConfig { rows: inputs[0].rows, cols: block.down.weights.cols },
            ],
            Node::Mlp(mlp) => seq![
                MatrixConfig {
                    rows: inputs[0].rows,
                    cols: mlp.executor.width(mlp.executor.layers@.len() as int),
                },
            ],
        }
    }

    /// The shapes of the block's outputs, if it accepts inputs of these shapes.
    pub fn output_configs(&self, inputs: &Vec<MatrixConfig>) -> (r: Option<Vec<MatrixConfig>>)
        ensures
            r is Some <==> self.fits(inputs@),
            r matches Some(configs) ==> configs@ == self.outputs(inputs@),
    {
        match self {
            Node::Concat(node) => {
                return match join_configs(node.axis, inputs) {
                    Some(config) => Some(one_config(config.rows, config.cols)),
                    None => None,
                };
            },
            Node::TrainingConcat(node) => {
                return match join_configs(node.node.axis, inputs) {
                    Some(config) => Some(one_config(config.rows, config.cols)),
                    None => None,
                };
            },
            Node::Binary(node) => {
                return binary_configs(node.op, inputs);
            },
            _ => {},
        }
        if inputs.len() != 1 {
            return None;
        }
        let input = inputs[0];
        match self {
            Node::Linear(linear) => if input.cols == linear.input_neurons() {
                Some(one_config(input.rows, linear.output_neurons()))
            } else {
                None
            },
            Node::TrainingLinear(node) => if input.cols == node.linear.input_neurons() {
                Some(one_config(input.rows, node.linear.output_neurons()))
            } else {
                None
            },
            Node::Single(node) => Some(
                match node.op {
                    SingleType::Transpose => one_config(input.cols, input.rows),
                    _ => one_config(input.rows, input.cols),
                },
            ),
            Node::RowReduce(_) => if input.cols > 0 {
                Some(one_config(input.rows, 1))
            } else {
                None
            },
            Node::Split(node) => split_configs(node, input),
            Node::Copy(node) => Some(repeat_config(input, node.output_count)),
            Node::TrainingCopy(node) => Some(repeat_config(input, node.node.output_count)),
            Node::Swiglu(block) => if input.cols == block.gate.input_neurons() {
                Some(one_config(input.rows, block.down.output_neurons()))
            } else {
                None
            },
            Node::Mlp(mlp) => {
                let n: usize = mlp.executor.len();
                if n > 0 && input.cols == mlp.executor.layers[0].input_neurons() {
                    Some(one_config(input.rows, mlp.executor.layers[n - 1].output_neurons()))
                } else {
                    None
                }
            },
            _ => None,
        }
    }

    /// Whether a training state is one that a block starts with.
    pub open spec fn starts_with(self, state: NodeTrainState) -> bool {
        match self {
            Node::Linear(_) => state.is_fresh(2) && state.children@.len() == 0,
            Node::Swiglu(_) => state.is_fresh(0) && state.children@.len() == 3 && (forall|i: int|
                0 <= i < 3 ==> (#[trigger] state.children@[i]).is_fresh(2)),
            Node::Mlp(mlp) => state.is_fresh(0) && state.children@.len()
                == mlp.executor.layers@.len() && (forall|i: int|
                0 <= i < state.children@.len() ==> (#[trigger] state.children@[i]).is_fresh(2)),
            _ => state.is_fresh(0) && state.children@.len() == 0,
        }
    }

    /// The training state that belongs to the block: one slot for every
    /// parameter of its layers.
    pub fn create_train_state(&self) -> (r: NodeTrainState)
        ensures
            self.starts_with(r),
    {
        match self {
            Node::Linear(linear) => linear.create_train_state(),
            Node::Swiglu(block) => block.create_train_state(),
            Node::Mlp(mlp) => mlp.create_train_state(),
            _ => NodeTrainState::with_parameter_count(0),
        }
    }
}

/// The output of a multi-input operation.
fn binary_configs(op: BinaryOp, inputs: &Vec<MatrixConfig>) -> (r: Option<Vec<MatrixConfig>>)
    ensures
        r is Some <==> Node::Binary(BinaryNode { op }).fits(inputs@),
        r matches Some(configs) ==> configs@ == Node::Binary(BinaryNode { op }).outputs(inputs@),
{
    if inputs.len() < 2 {
        return None;
    }
    match op {
        BinaryOp::Add => {},
        _ => {
            if inputs.len() != 2 {
                return None;
            }
        },
    }
    if let BinaryOp::MatMul = op {
        return if inputs[0].cols == inputs[1].rows {
            Some(one_config(inputs[0].rows, inputs[1].cols))
        } else {
            None
        };
    }
    let mut i: usize = 1;
    while i < inputs.len()
        invariant
            1 <= i <= inputs@.len(),
            !(op is MatMul),
            forall|k: int| #![trigger inputs@[k]] 0 <= k < i ==> inputs@[k] == inputs@[0],
        decreases inputs@.len() - i,
    {
        if inputs[i].rows != inputs[0].rows || inputs[i].cols != inputs[0].cols {
            assert(inputs@[i as int] != inputs@[0]);
            return None;
        }
        i = i + 1;
    }
    Some(one_config(inputs[0].rows, inputs[0].cols))
}

/// The outputs of a division.
fn split_configs(node: &SplitNode, input: MatrixConfig) -> (r: Option<Vec<MatrixConfig>>)
    ensures
        r is Some <==> sum_of(node.sizes@) == node.axis.extent(input.rows, input.cols),
        r matches Some(configs) ==> configs@ == part_configs(node.axis, node.sizes@, input),
{
    let extent: usize = match node.axis {
        MatrixAxis::Rows => input.rows,
        MatrixAxis::Columns => input.cols,
    };
    let mut left: usize = extent;
    let mut configs: Vec<MatrixConfig> = Vec::new();
    let mut i: usize = 0;
    let ghost sizes = node.sizes@;
    assert(sizes.take(0) =~= Seq::empty());
    while i < node.sizes.len()
        invariant
            i <= node.sizes@.len(),
            sizes == node.sizes@,
            extent == node.axis.extent(input.rows, input.cols),
            left == extent - sum_of(sizes.take(i as int)),
            configs@ == part_configs(node.axis, sizes, input).take(i as int),
        decreases node.sizes@.len() - i,
    {
        let size: usize = node.sizes[i];
        proof {
            crate::cuda::algebra::lemma_sum_of_take(sizes, i as int);
            crate::cuda::algebra::lemma_sum_of_le(sizes, i + 1);
        }
        if size > left {
            return None;
        }
        left = left - size;
        configs.push(
            match node.axis {
                MatrixAxis::Rows => MatrixConfig::new(size, input.cols),
                MatrixAxis::Columns => MatrixConfig::new(input.rows, size),
            },
        );
        i = i + 1;
        assert(configs@ =~= part_configs(node.axis, sizes, input).take(i as int));
    }
    proof {
        assert(sizes.take(i as int) =~= sizes);
        assert(configs@ =~= part_configs(node.axis, sizes, input));
    }
    if left == 0 {
        Some(configs)
    } else {
        None
    }
}

} // verus!
