use oxide_forge::cuda::command::Command;
use oxide_forge::cuda::runtime::CudaRuntime;
use oxide_forge::cuda::scalar::F32;
use oxide_forge::graph::builder::{BranchBuilder, GraphBuilder};
use oxide_forge::graph::compile::{Branch, Graph, InitConfig, InitError, Step};
use oxide_forge::graph::config::MatrixConfig;
use oxide_forge::graph::draft::DraftStep;
use oxide_forge::graph::node::{join_configs, Node};
use oxide_forge::graph::schedule::LearningRateScheduler;
use oxide_forge::net::linear::{Activation, LinearConfig};
use oxide_forge::net::loss::Loss;
use oxide_forge::net::node::{
    BinaryNode, BinaryOp, MatrixAxis, RowReduceNode, RowReduction, SingleNode, SingleType,
    SplitNode,
};

fn config(rows: usize, cols: usize) -> MatrixConfig {
    MatrixConfig::new(rows, cols)
}

fn linear(inputs: usize, outputs: usize) -> LinearConfig {
    LinearConfig::new(config(inputs, outputs), true, Activation::Relu)
}

fn random() -> InitConfig {
    InitConfig::Random {
        loss: Loss::BinaryCrossEntropyWithLogits,
        learning_rate: LearningRateScheduler::new(F32::one()),
    }
}

#[test]
fn shapes_follow_the_steps() {
    assert_eq!(
        DraftStep::Linear(linear(16, 48)).output_configs(&vec![config(32, 16)]),
        Some(vec![config(32, 48)])
    );
    assert_eq!(DraftStep::Linear(linear(16, 48)).output_configs(&vec![config(32, 17)]), None);
    assert_eq!(
        DraftStep::Copy(3).output_configs(&vec![config(2, 5)]),
        Some(vec![config(2, 5); 3])
    );
    assert_eq!(DraftStep::Copy(3).output_configs(&vec![]), None);
    assert_eq!(
        DraftStep::Concat(MatrixAxis::Rows).output_configs(&vec![config(2, 5), config(3, 5)]),
        Some(vec![config(5, 5)])
    );
    assert_eq!(
        DraftStep::Concat(MatrixAxis::Columns).output_configs(&vec![config(2, 5), config(2, 4)]),
        Some(vec![config(2, 9)])
    );
    assert_eq!(
        DraftStep::Concat(MatrixAxis::Rows).output_configs(&vec![config(2, 5), config(3, 4)]),
        None
    );
    assert_eq!(DraftStep::Concat(MatrixAxis::Rows).output_configs(&vec![config(2, 5)]), None);
}

#[test]
fn blocks_tell_their_output_shapes() {
    let inputs = vec![config(2, 6)];
    let transpose = Node::Single(SingleNode::new(SingleType::Transpose));
    assert_eq!(transpose.output_configs(&inputs), Some(vec![config(6, 2)]));
    let softmax = Node::Single(SingleNode::new(SingleType::Softmax));
    assert_eq!(softmax.output_configs(&inputs), Some(inputs.clone()));
    let reduce = Node::RowReduce(RowReduceNode::new(RowReduction::Mean));
    assert_eq!(reduce.output_configs(&inputs), Some(vec![config(2, 1)]));
    let split = Node::Split(SplitNode::new(MatrixAxis::Columns, vec![1, 5]));
    assert_eq!(split.output_configs(&inputs), Some(vec![config(2, 1), config(2, 5)]));
    let split = Node::Split(SplitNode::new(MatrixAxis::Columns, vec![1, 4]));
    assert_eq!(split.output_configs(&inputs), None);
    let product = Node::Binary(BinaryNode::new(BinaryOp::MatMul));
    assert_eq!(
        product.output_configs(&vec![config(2, 6), config(6, 3)]),
        Some(vec![config(2, 3)])
    );
    assert_eq!(product.output_configs(&vec![config(2, 6), config(5, 3)]), None);
    let sum = Node::Binary(BinaryNode::new(BinaryOp::Add));
    assert_eq!(sum.output_configs(&vec![config(2, 6); 3]), Some(vec![config(2, 6)]));
    assert_eq!(sum.output_configs(&vec![config(2, 6)]), None);
}

#[test]
fn shapes_too_large_to_join_are_refused() {
    let large = usize::MAX / 2 + 1;
    assert_eq!(join_configs(MatrixAxis::Rows, &vec![config(large, 1), config(large, 1)]), None);
    assert_eq!(
        join_configs(MatrixAxis::Rows, &vec![config(large - 1, 1), config(large, 1)]),
        Some(config(usize::MAX, 1))
    );
}

#[test]
fn branches_resolve_once_they_have_an_input() {
    let mut branch = BranchBuilder::start().then(linear(16, 32)).then(linear(32, 8)).end();
    assert_eq!(branch.get_input_config(), None);
    assert_eq!(branch.resolve_output(config(4, 16)), Some(config(4, 8)));
    assert_eq!(branch.resolve_output(config(4, 15)), None);
    branch.attach(config(4, 16));
    assert_eq!(branch.get_input_config(), Some(config(4, 16)));
    assert_eq!(branch.get_output_config(), Some(config(4, 8)));
    let graph = branch.into_graph();
    assert_eq!(graph.get_output_config(), config(4, 8));
}

#[test]
fn a_graph_of_branches_is_made_in_order() {
    let branches = vec![
        BranchBuilder::start().then(linear(16, 16)).end(),
        BranchBuilder::start().then(linear(16, 32)).then(linear(32, 16)).end(),
    ];
    let draft = GraphBuilder::start(config(32, 16))
        .copy(2)
        .map(branches)
        .concat(MatrixAxis::Columns)
        .then(linear(32, 16))
        .end();
    assert_eq!(draft.get_output_config(), config(32, 16));
    let mut runtime = CudaRuntime::new();
    let graph: Graph<false> = match draft.init(&mut runtime, random()) {
        Ok(graph) => graph,
        Err(error) => panic!("{error:?}"),
    };
    assert_eq!(graph.get_input_config(), config(32, 16));
    assert_eq!(graph.get_output_config(), config(32, 16));
    assert!(graph.training.is_none());
    assert_eq!(graph.steps.len(), 4);
    assert!(matches!(&graph.steps[0], Step::Node(Node::Copy(node)) if node.output_count() == 2));
    match &graph.steps[1] {
        Step::Branches(branches) => {
            assert_eq!(branches.len(), 2);
            assert_eq!(branches[1].get_input_config(), config(32, 16));
            assert_eq!(branches[1].steps.len(), 2);
            assert_eq!(branches[1].loss, Loss::BinaryCrossEntropyWithLogits);
        }
        _ => unreachable!(),
    }
    assert!(matches!(&graph.steps[2], Step::Node(Node::Concat(_))));
    assert!(matches!(&graph.steps[3], Step::Node(Node::Linear(_))));
    let allocated: Vec<usize> = runtime
        .take_pending()
        .into_iter()
        .filter_map(|command| match command {
            Command::Allocate { len, .. } => Some(len),
            _ => None,
        })
        .collect();
    assert_eq!(allocated, vec![256, 16, 512, 32, 512, 16, 512, 16]);
}

#[test]
fn a_branch_can_be_made_for_training() {
    let mut branch = BranchBuilder::start().then(linear(16, 16)).end();
    branch.attach(config(16, 16));
    let mut runtime = CudaRuntime::new();
    let branch: Branch<true> = match branch.init(&mut runtime, random()) {
        Ok(branch) => branch,
        Err(error) => panic!("{error:?}"),
    };
    assert_eq!(branch.training.unwrap().nodes().len(), 1);
    assert!(matches!(&branch.steps[0], Step::Node(Node::TrainingLinear(_))));
}

#[test]
fn loading_is_refused_with_the_path() {
    let draft = GraphBuilder::start(config(16, 16)).then(linear(16, 16)).end();
    let mut runtime = CudaRuntime::new();
    let result = draft.init::<false>(&mut runtime, InitConfig::Load(String::from("model.bin")));
    match result {
        Err(error) => {
            assert_eq!(error, InitError::LoadingNotImplemented(String::from("model.bin")))
        }
        Ok(_) => unreachable!(),
    }
    assert!(runtime.take_pending().is_empty());
}

#[test]
fn drafts_compose() {
    let first = GraphBuilder::start(config(4, 16)).then(linear(16, 32)).end();
    let second = GraphBuilder::start(config(4, 32)).then(linear(32, 8)).end();
    let both = first.then(second);
    assert_eq!(both.get_input_config(), config(4, 16));
    assert_eq!(both.get_output_config(), config(4, 8));
}

#[test]
fn a_joined_draft_becomes_a_graph_from_first_to_last() {
    let first = GraphBuilder::start(config(4, 16)).then(linear(16, 32)).end();
    let second = GraphBuilder::start(config(4, 32)).then(linear(32, 8)).then(linear(8, 24)).end();
    let mut runtime = CudaRuntime::new();
    let graph: Graph<false> = match first.then(second).init(&mut runtime, random()) {
        Ok(graph) => graph,
        Err(error) => panic!("{error:?}"),
    };
    assert_eq!(graph.input_config, config(4, 16));
    assert_eq!(graph.output_config, config(4, 24));
    assert_eq!(graph.steps.len(), 3);
}

#[test]
fn an_ended_branch_goes_on_where_it_ended() {
    let ended = BranchBuilder::start().then(linear(16, 32)).end();
    let mut one = BranchBuilder::continue_from(ended).then(linear(32, 8)).end();
    let mut whole = BranchBuilder::start().then(linear(16, 32)).then(linear(32, 8)).end();
    assert_eq!(one.steps.len(), 2);
    assert_eq!(one.steps.len(), whole.steps.len());
    assert_eq!(one.get_input_config(), whole.get_input_config());
    assert_eq!(one.get_output_config(), whole.get_output_config());
    one.attach(config(4, 16));
    whole.attach(config(4, 16));
    assert_eq!(one.get_output_config(), Some(config(4, 8)));
    assert_eq!(one.get_output_config(), whole.get_output_config());
}
