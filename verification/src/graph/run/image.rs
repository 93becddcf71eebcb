//! What graphs compute.

use vstd::prelude::*;

use super::forward::{branches_ran, chain_ran};
use super::{
    branches_footprint, branches_in_order, branches_outputs, branches_take, chain_footprint,
    chain_in_order, chain_outputs, chain_takes, lemma_chain_spared, moment,
};
use crate::cuda::algebra::{product, row_totals, zip, Term};
use crate::cuda::container::{ids, values_of, Matrix};
use crate::cuda::ops::BinaryFn;
use crate::cuda::runtime::CudaRuntime;
use crate::graph::compile::{Branch, Step};
use crate::graph::config::MatrixConfig;
use crate::graph::graph_node::any::configs_of;
use crate::graph::graph_node::GraphNode;
use crate::graph::node::{shapes, Node};
use crate::net::linear::{activated, affine_terms, Linear};
use crate::net::node::binary::sum_of_first;
use crate::net::node::structural::{parts_along, shapes_of};
use crate::net::node::BinaryOp;

verus! {

broadcast use crate::cuda::runtime::group_streams;

/// What a layer makes of an input.
pub open spec fn layer_image(layer: Linear, runtime: CudaRuntime, x: Seq<Term>, rows: nat) -> Seq<
    Term,
> {
    activated(
        layer.activation,
        affine_terms(
            x,
            runtime.matrix(layer.weights),
            layer.bias_terms(runtime),
            None,
            rows,
            layer.weights.rows as nat,
            layer.weights.cols as nat,
        ),
    )
}

/// What a multi-input operation makes of values of these shapes.
pub open spec fn combined(op: BinaryOp, values: Seq<Seq<Term>>, inputs: Seq<MatrixConfig>) -> Seq<
    Term,
> {
    match op {
        BinaryOp::Add => sum_of_first(values, values.len() as int),
        BinaryOp::Sub => zip(BinaryFn::Sub, values[0], values[1]),
        BinaryOp::Mul => zip(BinaryFn::Mul, values[0], values[1]),
        BinaryOp::Div => zip(BinaryFn::Div, values[0], values[1]),
        BinaryOp::MatMul => product(
            values[0],
            values[1],
            inputs[0].rows as nat,
            inputs[0].cols as nat,
            inputs[1].cols as nat,
        ),
    }
}

impl Node {
    /// What the block makes of values of these shapes.
    pub open spec fn image(
        self,
        runtime: CudaRuntime,
        values: Seq<Seq<Term>>,
        inputs: Seq<MatrixConfig>,
    ) -> Seq<Seq<Term>> {
        let (rows, cols) = (inputs[0].rows as nat, inputs[0].cols as nat);
        match self {
            Node::Linear(layer) => seq![layer_image(layer, runtime, values[0], rows)],
            Node::TrainingLinear(node) => seq![layer_image(node.linear, runtime, values[0], rows)],
            Node::Single(node) => seq![node.op.image(values[0], rows, cols)],
            Node::Binary(node) => seq![combined(node.op, values, inputs)],
            Node::RowReduce(node) => seq![
                node.reduction.weighted(row_totals(values[0], rows, cols), inputs[0].cols),
            ],
            Node::Concat(node) => seq![node.axis.joined_along(values, shapes(inputs))],
            Node::TrainingConcat(node) => seq![
                node.node.axis.joined_along(values, shapes(inputs)),
            ],
            Node::Split(node) => parts_along(node.axis, values[0], rows, cols, node.sizes@),
            Node::Copy(node) => Seq::new(
                node.output_count as nat,
                |k: int| node.mode.share(values[0], node.output_count),
            ),
            Node::TrainingCopy(node) => Seq::new(
                node.node.output_count as nat,
                |k: int| node.node.mode.share(values[0], node.node.output_count),
            ),
            Node::Swiglu(node) => seq![node.image(runtime, values[0], rows)],
            Node::Mlp(node) => seq![
                node.executor.stage(
                    runtime,
                    values[0],
                    rows,
                    node.executor.layers@.len() as int,
                ),
            ],
        }
    }

    /// A forward pass gives the block's image of its inputs.
    pub proof fn lemma_gives_image(
        self,
        end: Self,
        before: CudaRuntime,
        after: CudaRuntime,
        inputs: Seq<Matrix>,
        outputs: Seq<Matrix>,
    )
        requires
            self.takes(before, inputs),
            self.gives(end, before, after, inputs, outputs),
        ensures
            values_of(after, outputs) == self.image(
                before,
                values_of(before, inputs),
                configs_of(inputs),
            ),
    {
        let values = values_of(before, inputs);
        let given = configs_of(inputs);
        let r = values_of(after, outputs);
        assert(shapes(given) =~= shapes_of(inputs));
        if inputs.len() > 0 {
            assert(values[0] == before.matrix(inputs[0]));
            assert(given[0].rows == inputs[0].rows && given[0].cols == inputs[0].cols);
        }
        match self {
            Node::Split(_) => {},
            Node::Copy(_) | Node::TrainingCopy(_) => {
                assert(r =~= self.image(before, values, given));
            },
            Node::Binary(node) => {
                assert(combined(node.op, values, given) == node.op.image(before, inputs));
                assert(r =~= self.image(before, values, given));
            },
            _ => {
                assert(r =~= self.image(before, values, given));
            },
        }
    }

    /// The image stays while the block's buffers do.
    pub proof fn lemma_image_kept(
        self,
        runtime: CudaRuntime,
        before: CudaRuntime,
        after: CudaRuntime,
        values: Seq<Seq<Term>>,
        inputs: Seq<MatrixConfig>,
    )
        requires
            self.in_order(runtime),
            forall|id: usize| #[trigger]
                self.footprint().contains(id) ==> after.mem(id) == before.mem(id),
        ensures
            self.image(after, values, inputs) == self.image(before, values, inputs),
    {
        match self {
            Node::Linear(layer) => {
                lemma_layer_kept(layer, self.footprint(), before, after);
            },
            Node::TrainingLinear(node) => {
                lemma_layer_kept(node.linear, self.footprint(), before, after);
            },
            Node::Swiglu(node) => {
                let (g, u, d) = (node.gate.weights, node.up.weights, node.down.weights);
                assert(node.owns(g.buffer.id) && node.owns(u.buffer.id) && node.owns(d.buffer.id));
                assert(self.footprint().contains(g.buffer.id));
                assert(self.footprint().contains(u.buffer.id));
                assert(self.footprint().contains(d.buffer.id));
            },
            Node::Mlp(node) => {
                assert forall|id: usize| #[trigger] node.executor.owns(id) implies after.mem(id)
                    == before.mem(id) by {
                    assert(self.footprint().contains(id));
                }
                node.executor.lemma_stage_kept(
                    before,
                    after,
                    values[0],
                    inputs[0].rows as nat,
                    node.executor.layers@.len() as int,
                );
            },
            _ => {},
        }
    }
}

/// A layer computes the same while its buffers stay.
proof fn lemma_layer_kept(layer: Linear, own: Set<usize>, before: CudaRuntime, after: CudaRuntime)
    requires
        forall|id: usize| #[trigger] layer.owns(id) ==> own.contains(id),
        forall|id: usize| #[trigger] own.contains(id) ==> after.mem(id) == before.mem(id),
    ensures
        after.matrix(layer.weights) == before.matrix(layer.weights),
        layer.bias_terms(after) == layer.bias_terms(before),
{
    assert(layer.owns(layer.weights.buffer.id));
    assert(own.contains(layer.weights.buffer.id));
    if let Some(bias) = layer.bias {
        assert(layer.owns(bias.buffer.id));
        assert(own.contains(bias.buffer.id));
    }
}

impl<const TRAINING: bool> Step<TRAINING> {
    /// What the step makes of values of these shapes.
    pub open spec fn image(
        self,
        runtime: CudaRuntime,
        values: Seq<Seq<Term>>,
        inputs: Seq<MatrixConfig>,
    ) -> Seq<Seq<Term>>
        decreases self,
    {
        match self {
            Step::Node(node) => node.image(runtime, values, inputs),
            Step::Branches(branches) => branches_image(branches@, runtime, values, inputs),
        }
    }

    /// No two parts of the step share a buffer.
    pub open spec fn apart(self) -> bool
        decreases self,
    {
        match self {
            Step::Node(_) => true,
            Step::Branches(branches) => branches_apart(branches@),
        }
    }
}

/// What steps make of values of these shapes, one after the other.
pub open spec fn chain_image<const TRAINING: bool>(
    steps: Seq<Step<TRAINING>>,
    runtime: CudaRuntime,
    values: Seq<Seq<Term>>,
    inputs: Seq<MatrixConfig>,
) -> Seq<Seq<Term>>
    decreases steps,
{
    if steps.len() == 0 {
        values
    } else {
        steps.last().image(
            runtime,
            chain_image(steps.drop_last(), runtime, values, inputs),
            chain_outputs(steps.drop_last(), inputs),
        )
    }
}

/// What branches make of values of these shapes, one of each.
pub open spec fn branches_image<const TRAINING: bool>(
    branches: Seq<Branch<TRAINING>>,
    runtime: CudaRuntime,
    values: Seq<Seq<Term>>,
    inputs: Seq<MatrixConfig>,
) -> Seq<Seq<Term>>
    decreases branches,
{
    if branches.len() == 0 {
        Seq::empty()
    } else {
        branches_image(
            branches.drop_last(),
            runtime,
            values.drop_last(),
            inputs.drop_last(),
        ).push(
            chain_image(
                branches.last().steps@,
                runtime,
                seq![values.last()],
                seq![inputs.last()],
            )[0],
        )
    }
}

/// Steps run one after another: what the later ones make of what the earlier ones made.
pub proof fn law_steps_run_one_after_another<const TRAINING: bool>(
    earlier: Seq<Step<TRAINING>>,
    later: Seq<Step<TRAINING>>,
    runtime: CudaRuntime,
    values: Seq<Seq<Term>>,
    inputs: Seq<MatrixConfig>,
)
    ensures
        chain_outputs(earlier + later, inputs) == chain_outputs(
            later,
            chain_outputs(earlier, inputs),
        ),
        chain_image(earlier + later, runtime, values, inputs) == chain_image(
            later,
            runtime,
            chain_image(earlier, runtime, values, inputs),
            chain_outputs(earlier, inputs),
        ),
        later.len() == 1 ==> chain_image(earlier + later, runtime, values, inputs)
            == later[0].image(
            runtime,
            chain_image(earlier, runtime, values, inputs),
            chain_outputs(earlier, inputs),
        ),
        earlier.len() == 0 ==> chain_image(earlier, runtime, values, inputs) == values,
    decreases later.len(),
{
    let all = earlier + later;
    if later.len() == 0 {
        assert(all =~= earlier);
    } else {
        law_steps_run_one_after_another(earlier, later.drop_last(), runtime, values, inputs);
        assert(all.drop_last() =~= earlier + later.drop_last());
        assert(all.last() == later.last());
        if later.len() == 1 {
            assert(earlier + later.drop_last() =~= earlier);
        }
    }
}

/// Branches run each on its own: the one with a number makes its output of the input with that
/// number, and of nothing else.
pub proof fn law_branches_run_each_on_its_own<const TRAINING: bool>(
    branches: Seq<Branch<TRAINING>>,
    runtime: CudaRuntime,
    values: Seq<Seq<Term>>,
    inputs: Seq<MatrixConfig>,
    k: int,
)
    requires
        values.len() == branches.len(),
        inputs.len() == branches.len(),
        0 <= k < branches.len(),
    ensures
        branches_image(branches, runtime, values, inputs).len() == branches.len(),
        branches_image(branches, runtime, values, inputs)[k] == chain_image(
            branches[k].steps@,
            runtime,
            seq![values[k]],
            seq![inputs[k]],
        )[0],
        branches_outputs(branches, inputs).len() == branches.len(),
        branches_outputs(branches, inputs)[k] == chain_outputs(
            branches[k].steps@,
            seq![inputs[k]],
        )[0],
    decreases branches.len(),
{
    if branches.len() > 1 {
        let j = if k < branches.len() - 1 {
            k
        } else {
            0
        };
        law_branches_run_each_on_its_own(
            branches.drop_last(),
            runtime,
            values.drop_last(),
            inputs.drop_last(),
            j,
        );
    } else {
        assert(branches.drop_last().len() == 0);
        assert(branches_image(
            branches.drop_last(),
            runtime,
            values.drop_last(),
            inputs.drop_last(),
        ).len() == 0);
        assert(branches_outputs(branches.drop_last(), inputs.drop_last()).len() == 0);
    }
}

/// No two steps share a buffer.
pub open spec fn chain_apart<const TRAINING: bool>(steps: Seq<Step<TRAINING>>) -> bool
    decreases steps,
{
    steps.len() > 0 ==> {
        &&& chain_apart(steps.drop_last())
        &&& steps.last().apart()
        &&& chain_footprint(steps.drop_last()).disjoint(steps.last().footprint())
    }
}

/// No two branches share a buffer.
pub open spec fn branches_apart<const TRAINING: bool>(branches: Seq<Branch<TRAINING>>) -> bool
    decreases branches,
{
    branches.len() > 0 ==> {
        &&& branches_apart(branches.drop_last())
        &&& chain_apart(branches.last().steps@)
        &&& branches_footprint(branches.drop_last()).disjoint(
            chain_footprint(branches.last().steps@),
        )
    }
}

/// Steps in order share no buffer.
proof fn lemma_chain_apart<const TRAINING: bool>(
    steps: Seq<Step<TRAINING>>,
    runtime: CudaRuntime,
)
    requires
        chain_in_order(steps, runtime),
    ensures
        chain_apart(steps),
    decreases steps,
{
    if steps.len() > 0 {
        let last = steps.last();
        lemma_chain_apart(steps.drop_last(), runtime);
        assert(decreases_to!(steps => steps[steps.len() - 1]));
        assert(last.in_order(runtime));
        lemma_step_apart(last, runtime);
    }
}

/// The same for a step.
proof fn lemma_step_apart<const TRAINING: bool>(step: Step<TRAINING>, runtime: CudaRuntime)
    requires
        step.in_order(runtime),
    ensures
        step.apart(),
    decreases step,
{
    if let Step::Branches(branches) = step {
        assert(decreases_to!(step => branches));
        assert(decreases_to!(branches => branches@));
        lemma_branches_apart(branches@, runtime);
    }
}

/// The same for branches.
proof fn lemma_branches_apart<const TRAINING: bool>(
    branches: Seq<Branch<TRAINING>>,
    runtime: CudaRuntime,
)
    requires
        branches_in_order(branches, runtime),
    ensures
        branches_apart(branches),
    decreases branches,
{
    if branches.len() > 0 {
        let last = branches.last();
        lemma_branches_apart(branches.drop_last(), runtime);
        assert(decreases_to!(branches => branches[branches.len() - 1]));
        assert(decreases_to!(last => last.steps));
        assert(decreases_to!(last.steps => last.steps@));
        lemma_chain_apart(last.steps@, runtime);
    }
}

/// Buffers that are still there, with the same contents.
pub open spec fn spared(before: CudaRuntime, after: CudaRuntime, others: Set<usize>) -> bool {
    &&& others.subset_of(after.live@)
    &&& forall|id: usize| #[trigger] others.contains(id) ==> after.mem(id) == before.mem(id)
}

/// A forward pass through steps spares all buffers that neither they nor their inputs own,
/// and its outputs are none of them.
proof fn lemma_chain_spares<const TRAINING: bool>(
    steps: Seq<Step<TRAINING>>,
    ends: Seq<Step<TRAINING>>,
    before: CudaRuntime,
    after: CudaRuntime,
    inputs: Seq<Matrix>,
    outputs: Seq<Matrix>,
    others: Set<usize>,
)
    requires
        before.wf(),
        chain_ran(steps, ends, before, after, inputs, outputs),
        ids(inputs).subset_of(before.live@),
        others.subset_of(before.live@),
        others.disjoint(chain_footprint(steps)),
        others.disjoint(ids(inputs)),
    ensures
        after.wf(),
        ids(outputs).subset_of(after.live@),
        others.disjoint(ids(outputs)),
        spared(before, after, others),
    decreases steps,
{
    if steps.len() > 0 {
        let front = steps.drop_last();
        let last = steps.last();
        let front_end = ends.drop_last();
        let end = ends.last();
        let (middle, flow) = choose|middle: CudaRuntime, flow: Seq<Matrix>|
            {
                &&& #[trigger] moment(middle, flow)
                &&& chain_ran(front, front_end, before, middle, inputs, flow)
                &&& last.ran(end, middle, after, flow, outputs)
            };
        assert(others.disjoint(chain_footprint(front)));
        assert(others.disjoint(last.footprint()));
        lemma_chain_spares(front, front_end, before, middle, inputs, flow, others);
        lemma_step_spares(last, end, middle, after, flow, outputs, others);
    }
}

/// The same for a step.
proof fn lemma_step_spares<const TRAINING: bool>(
    step: Step<TRAINING>,
    end: Step<TRAINING>,
    before: CudaRuntime,
    after: CudaRuntime,
    inputs: Seq<Matrix>,
    outputs: Seq<Matrix>,
    others: Set<usize>,
)
    requires
        step.ran(end, before, after, inputs, outputs),
        others.subset_of(before.live@),
        others.disjoint(step.footprint()),
        others.disjoint(ids(inputs)),
    ensures
        after.wf(),
        ids(outputs).subset_of(after.live@),
        others.disjoint(ids(outputs)),
        spared(before, after, others),
{
    let taken = step.footprint().union(ids(inputs));
    let made = end.footprint().union(ids(outputs));
    assert(after.replaced(before, taken, made));
    assert(others.disjoint(taken));
    assert forall|id: usize| others.contains(id) implies !ids(outputs).contains(id) by {
        if ids(outputs).contains(id) {
            assert(made.contains(id));
        }
    }
    assert forall|id: usize| ids(outputs).contains(id) implies after.live@.contains(id) by {
        assert(made.contains(id));
    }
    assert forall|id: usize| #[trigger] others.contains(id) implies after.mem(id) == before.mem(id)
        && after.live@.contains(id) by {
        assert(!taken.contains(id));
    }
}

/// The same for branches.
proof fn lemma_branches_spares<const TRAINING: bool>(
    branches: Seq<Branch<TRAINING>>,
    ends: Seq<Branch<TRAINING>>,
    before: CudaRuntime,
    after: CudaRuntime,
    inputs: Seq<Matrix>,
    outputs: Seq<Matrix>,
    others: Set<usize>,
)
    requires
        before.wf(),
        branches_ran(branches, ends, before, after, inputs, outputs),
        branches_apart(branches),
        branches_footprint(branches).subset_of(before.live@),
        before.holds_all(inputs),
        branches_footprint(branches).disjoint(ids(inputs)),
        others.subset_of(before.live@),
        others.disjoint(branches_footprint(branches)),
        others.disjoint(ids(inputs)),
    ensures
        after.wf(),
        ids(outputs).subset_of(after.live@),
        others.disjoint(ids(outputs)),
        spared(before, after, others),
    decreases branches,
{
    if branches.len() > 0 {
        let front = branches.drop_last();
        let last = branches.last();
        let front_end = ends.drop_last();
        let end = ends.last();
        let middle = choose|middle: CudaRuntime|
            {
                &&& #[trigger] moment(middle, seq![inputs.last()])
                &&& branches_ran(
                    front,
                    front_end,
                    before,
                    middle,
                    inputs.drop_last(),
                    outputs.drop_last(),
                )
                &&& chain_ran(
                    last.steps@,
                    end.steps@,
                    middle,
                    after,
                    seq![inputs.last()],
                    seq![outputs.last()],
                )
            };
        let own = chain_footprint(last.steps@);
        let input = inputs.last();
        let more = others.union(own).insert(input.buffer.id);
        lemma_last_apart(inputs, before);
        assert(branches_footprint(branches) == branches_footprint(front).union(own));
        lemma_sets_apart(
            branches_footprint(front),
            own,
            ids(inputs.drop_last()),
            input.buffer.id,
            others,
        );
        lemma_branches_spares(
            front,
            front_end,
            before,
            middle,
            inputs.drop_last(),
            outputs.drop_last(),
            more,
        );
        lemma_one_id(input);
        let outs = ids(outputs.drop_last());
        let kept = others.union(outs);
        assert forall|id: usize| kept.contains(id) implies middle.live@.contains(id)
            && !own.contains(id) && id != input.buffer.id by {
            if others.contains(id) {
                assert(more.contains(id));
                assert(ids(inputs).contains(input.buffer.id));
            } else {
                assert(!more.contains(id));
                assert(more.contains(input.buffer.id));
                if own.contains(id) {
                    assert(more.contains(id));
                }
            }
        }
        assert(more.contains(input.buffer.id));
        lemma_chain_spares(
            last.steps@,
            end.steps@,
            middle,
            after,
            seq![input],
            seq![outputs.last()],
            kept,
        );
        lemma_one_id(outputs.last());
        lemma_ids_of_both(outputs);
        assert forall|id: usize| #[trigger] others.contains(id) implies after.mem(id)
            == before.mem(id) by {
            assert(more.contains(id) && kept.contains(id));
        }
        assert forall|id: usize| others.contains(id) implies !ids(outputs).contains(id) by {
            assert(more.contains(id) && kept.contains(id));
        }
        assert forall|id: usize| ids(outputs).contains(id) implies after.live@.contains(id) by {
            if outs.contains(id) {
                assert(kept.contains(id));
            }
        }
        assert(others.subset_of(after.live@)) by {
            assert forall|id: usize| others.contains(id) implies after.live@.contains(id) by {
                assert(kept.contains(id));
            }
        }
    }
}

/// What one branch owns and takes is not what the branches before it own and take.
proof fn lemma_sets_apart(
    front: Set<usize>,
    own: Set<usize>,
    rest: Set<usize>,
    input: usize,
    others: Set<usize>,
)
    requires
        front.disjoint(own),
        front.union(own).disjoint(rest.insert(input)),
        !rest.contains(input),
        others.disjoint(front.union(own)),
        others.disjoint(rest.insert(input)),
    ensures
        front.disjoint(rest),
        others.union(own).insert(input).disjoint(front),
        others.union(own).insert(input).disjoint(rest),
        !own.contains(input),
        !others.contains(input),
{
    assert(rest.insert(input).contains(input));
    assert forall|id: usize| rest.contains(id) implies !front.contains(id) && !own.contains(id)
        && !others.contains(id) by {
        assert(rest.insert(input).contains(id));
        if front.contains(id) || own.contains(id) {
            assert(front.union(own).contains(id));
        }
    }
    assert forall|id: usize| front.contains(id) implies !others.contains(id) && id != input by {
        assert(front.union(own).contains(id));
    }
    if own.contains(input) {
        assert(front.union(own).contains(input));
    }
}

/// The last of several live matrices shares no buffer with the others.
proof fn lemma_last_apart(ms: Seq<Matrix>, runtime: CudaRuntime)
    requires
        ms.len() > 0,
        runtime.holds_all(ms),
    ensures
        runtime.holds_all(ms.drop_last()),
        runtime.holds(ms.last()),
        runtime.live@.contains(ms.last().buffer.id),
        !ids(ms.drop_last()).contains(ms.last().buffer.id),
        ids(ms) == ids(ms.drop_last()).insert(ms.last().buffer.id),
{
    let front = ms.drop_last();
    let n = ms.len() - 1;
    assert forall|i: int, j: int|
        #![trigger front[i], front[j]]
        0 <= i < j < front.len() implies front[i].buffer.id != front[j].buffer.id by {
        assert(ms[i] == front[i] && ms[j] == front[j]);
    }
    assert forall|k: int| #![trigger front[k]] 0 <= k < front.len() implies runtime.holds(front[k]) by {
        assert(ms[k] == front[k]);
    }
    if ids(front).contains(ms.last().buffer.id) {
        let k = choose|k: int| 0 <= k < front.len() && (#[trigger] front[k]).buffer.id
            == ms.last().buffer.id;
        assert(ms[k] == front[k]);
        assert(ms[k].buffer.id != ms[n].buffer.id);
    }
    lemma_ids_of_both(ms);
    assert(runtime.holds(ms[n]));
}

/// The buffers of several matrices are those of all but the last, and the last.
proof fn lemma_ids_of_both(ms: Seq<Matrix>)
    requires
        ms.len() > 0,
    ensures
        ids(ms) == ids(ms.drop_last()).insert(ms.last().buffer.id),
{
    let front = ms.drop_last();
    let both = ids(front).insert(ms.last().buffer.id);
    assert forall|id: usize| #[trigger] ids(ms).contains(id) <==> both.contains(id) by {
        if ids(ms).contains(id) {
            let k = choose|k: int| 0 <= k < ms.len() && (#[trigger] ms[k]).buffer.id == id;
            if k < front.len() {
                assert(front[k] == ms[k]);
            }
        }
        if ids(front).contains(id) {
            let k = choose|k: int| 0 <= k < front.len() && (#[trigger] front[k]).buffer.id == id;
            assert(ms[k] == front[k]);
        }
        assert(ms[ms.len() - 1] == ms.last());
    }
    assert(ids(ms) =~= both);
}

/// The buffer of one matrix.
proof fn lemma_one_id(m: Matrix)
    ensures
        ids(seq![m]) == set![m.buffer.id],
{
    assert(seq![m][0] == m);
    assert(ids(seq![m]) =~= set![m.buffer.id]);
}

/// A graph computes what its steps compute, one after the other, with the parameters that
/// they have at the start.
pub proof fn law_graphs_compute_their_steps<const TRAINING: bool>(
    steps: Seq<Step<TRAINING>>,
    ends: Seq<Step<TRAINING>>,
    before: CudaRuntime,
    after: CudaRuntime,
    inputs: Seq<Matrix>,
    outputs: Seq<Matrix>,
)
    requires
        before.wf(),
        chain_in_order(steps, before),
        before.holds_all(inputs),
        chain_footprint(steps).disjoint(ids(inputs)),
        chain_takes(steps, configs_of(inputs)),
        chain_ran(steps, ends, before, after, inputs, outputs),
    ensures
        configs_of(outputs) == chain_outputs(steps, configs_of(inputs)),
        values_of(after, outputs) == chain_image(
            steps,
            before,
            values_of(before, inputs),
            configs_of(inputs),
        ),
{
    lemma_chain_apart(steps, before);
    before.lemma_replaced_nothing(Set::empty());
    lemma_chain_spared(steps, before, before, Set::empty(), Set::empty());
    assert(ids(inputs).subset_of(before.live@)) by {
        super::forward::lemma_inputs_live(inputs, before);
    }
    lemma_chain_computes(steps, ends, before, after, inputs, outputs);
}

/// The same for steps that share no buffer.
proof fn lemma_chain_computes<const TRAINING: bool>(
    steps: Seq<Step<TRAINING>>,
    ends: Seq<Step<TRAINING>>,
    before: CudaRuntime,
    after: CudaRuntime,
    inputs: Seq<Matrix>,
    outputs: Seq<Matrix>,
)
    requires
        before.wf(),
        chain_apart(steps),
        chain_footprint(steps).subset_of(before.live@),
        ids(inputs).subset_of(before.live@),
        chain_footprint(steps).disjoint(ids(inputs)),
        chain_takes(steps, configs_of(inputs)),
        chain_ran(steps, ends, before, after, inputs, outputs),
    ensures
        configs_of(outputs) == chain_outputs(steps, configs_of(inputs)),
        values_of(after, outputs) == chain_image(
            steps,
            before,
            values_of(before, inputs),
            configs_of(inputs),
        ),
    decreases steps,
{
    if steps.len() > 0 {
        let front = steps.drop_last();
        let last = steps.last();
        let front_end = ends.drop_last();
        let end = ends.last();
        let (middle, flow) = choose|middle: CudaRuntime, flow: Seq<Matrix>|
            {
                &&& #[trigger] moment(middle, flow)
                &&& chain_ran(front, front_end, before, middle, inputs, flow)
                &&& last.ran(end, middle, after, flow, outputs)
            };
        let own = last.footprint();
        assert(chain_footprint(steps) == chain_footprint(front).union(own));
        lemma_chain_computes(front, front_end, before, middle, inputs, flow);
        assert(own.disjoint(chain_footprint(front)));
        lemma_chain_spares(front, front_end, before, middle, inputs, flow, own);
        assert(decreases_to!(steps => steps[steps.len() - 1]));
        assert(last.takes_all(configs_of(flow)));
        assert(last.apart());
        lemma_step_computes(last, end, middle, after, flow, outputs);
        lemma_step_image_kept(last, end, middle, after, flow, outputs, before);
    }
}

/// The same for a step.
proof fn lemma_step_computes<const TRAINING: bool>(
    step: Step<TRAINING>,
    end: Step<TRAINING>,
    before: CudaRuntime,
    after: CudaRuntime,
    inputs: Seq<Matrix>,
    outputs: Seq<Matrix>,
)
    requires
        before.wf(),
        step.apart(),
        step.footprint().subset_of(before.live@),
        step.footprint().disjoint(ids(inputs)),
        step.takes_all(configs_of(inputs)),
        step.ran(end, before, after, inputs, outputs),
    ensures
        configs_of(outputs) == step.outputs(configs_of(inputs)),
        values_of(after, outputs) == step.image(
            before,
            values_of(before, inputs),
            configs_of(inputs),
        ),
    decreases step,
{
    match (step, end) {
        (Step::Node(node), Step::Node(last)) => {
            assert(node.takes_all(configs_of(inputs)));
            assert(node.takes(before, inputs));
            node.lemma_output_configs(last, before, after, inputs, outputs);
            node.lemma_gives_image(last, before, after, inputs, outputs);
        },
        (Step::Branches(branches), Step::Branches(ends)) => {
            assert(decreases_to!(step => branches));
            assert(decreases_to!(branches => branches@));
            assert(branches_ran(branches@, ends@, before, after, inputs, outputs));
            lemma_branches_compute(branches@, ends@, before, after, inputs, outputs);
        },
        _ => {},
    }
}

/// The same for branches.
proof fn lemma_branches_compute<const TRAINING: bool>(
    branches: Seq<Branch<TRAINING>>,
    ends: Seq<Branch<TRAINING>>,
    before: CudaRuntime,
    after: CudaRuntime,
    inputs: Seq<Matrix>,
    outputs: Seq<Matrix>,
)
    requires
        before.wf(),
        branches_apart(branches),
        branches_footprint(branches).subset_of(before.live@),
        before.holds_all(inputs),
        branches_footprint(branches).disjoint(ids(inputs)),
        branches_take(branches, configs_of(inputs)),
        branches_ran(branches, ends, before, after, inputs, outputs),
    ensures
        configs_of(outputs) == branches_outputs(branches, configs_of(inputs)),
        values_of(after, outputs) == branches_image(
            branches,
            before,
            values_of(before, inputs),
            configs_of(inputs),
        ),
    decreases branches,
{
    let given = configs_of(inputs);
    let values = values_of(before, inputs);
    if branches.len() > 0 {
        let front = branches.drop_last();
        let last = branches.last();
        let front_end = ends.drop_last();
        let end = ends.last();
        let middle = choose|middle: CudaRuntime|
            {
                &&& #[trigger] moment(middle, seq![inputs.last()])
                &&& branches_ran(
                    front,
                    front_end,
                    before,
                    middle,
                    inputs.drop_last(),
                    outputs.drop_last(),
                )
                &&& chain_ran(
                    last.steps@,
                    end.steps@,
                    middle,
                    after,
                    seq![inputs.last()],
                    seq![outputs.last()],
                )
            };
        let own = chain_footprint(last.steps@);
        let input = inputs.last();
        let output = outputs.last();
        let more = own.insert(input.buffer.id);
        lemma_last_apart(inputs, before);
        assert(branches_footprint(branches) == branches_footprint(front).union(own));
        lemma_sets_apart(
            branches_footprint(front),
            own,
            ids(inputs.drop_last()),
            input.buffer.id,
            Set::empty(),
        );
        assert(Set::empty().union(own) =~= own);
        assert(configs_of(inputs.drop_last()) =~= given.drop_last());
        assert(values_of(before, inputs.drop_last()) =~= values.drop_last());
        lemma_branches_compute(
            front,
            front_end,
            before,
            middle,
            inputs.drop_last(),
            outputs.drop_last(),
        );
        lemma_branches_spares(
            front,
            front_end,
            before,
            middle,
            inputs.drop_last(),
            outputs.drop_last(),
            more,
        );
        lemma_one_id(input);
        lemma_one_id(output);
        assert(configs_of(seq![input]) =~= seq![given.last()]);
        assert(more.contains(input.buffer.id));
        assert(values_of(middle, seq![input]) =~= seq![values.last()]);
        assert forall|id: usize| #[trigger] own.contains(id) implies middle.live@.contains(id)
            && middle.mem(id) == before.mem(id) by {
            assert(more.contains(id));
        }
        assert(decreases_to!(branches => branches[branches.len() - 1]));
        assert(decreases_to!(last => last.steps));
        assert(decreases_to!(last.steps => last.steps@));
        lemma_chain_computes(last.steps@, end.steps@, middle, after, seq![input], seq![output]);
        lemma_chain_image_kept(
            last.steps@,
            end.steps@,
            middle,
            after,
            seq![input],
            seq![output],
            before,
            seq![values.last()],
            seq![given.last()],
        );
        let outs = ids(outputs.drop_last());
        assert forall|id: usize| outs.contains(id) implies !own.contains(id) && id
            != input.buffer.id by {
            assert(!more.contains(id));
        }
        lemma_chain_spares(
            last.steps@,
            end.steps@,
            middle,
            after,
            seq![input],
            seq![output],
            outs,
        );
        let all = values_of(after, outputs);
        let fewer = values_of(middle, outputs.drop_last());
        assert forall|k: int| 0 <= k < fewer.len() implies all[k] == fewer[k] by {
            let m = outputs.drop_last()[k];
            assert(m == outputs[k]);
            assert(outs.contains(m.buffer.id));
        }
        assert(values_of(after, seq![output])[0] == after.matrix(output));
        assert(configs_of(seq![output])[0] == configs_of(outputs)[outputs.len() - 1]);
        assert(all =~= fewer.push(values_of(after, seq![output])[0]));
        assert(configs_of(outputs) =~= configs_of(outputs.drop_last()).push(
            configs_of(seq![output])[0],
        ));
    } else {
        assert(values_of(after, outputs) =~= Seq::empty());
        assert(configs_of(outputs) =~= Seq::empty());
    }
}

/// A step that ran computes the same from any moment at which its buffers hold the same.
proof fn lemma_step_image_kept<const TRAINING: bool>(
    step: Step<TRAINING>,
    end: Step<TRAINING>,
    before: CudaRuntime,
    after: CudaRuntime,
    inputs: Seq<Matrix>,
    outputs: Seq<Matrix>,
    early: CudaRuntime,
)
    requires
        step.ran(end, before, after, inputs, outputs),
        spared(early, before, step.footprint()),
    ensures
        forall|values: Seq<Seq<Term>>, given: Seq<MatrixConfig>| #[trigger]
            step.image(before, values, given) == step.image(early, values, given),
{
    assert(step.in_order(before));
    assert forall|values: Seq<Seq<Term>>, given: Seq<MatrixConfig>| #[trigger]
        step.image(before, values, given) == step.image(early, values, given) by {
        lemma_steady_step(step, before, before, early, values, given);
    }
}

/// Steps that ran compute the same from any moment at which their buffers hold the same.
proof fn lemma_chain_image_kept<const TRAINING: bool>(
    steps: Seq<Step<TRAINING>>,
    ends: Seq<Step<TRAINING>>,
    before: CudaRuntime,
    after: CudaRuntime,
    inputs: Seq<Matrix>,
    outputs: Seq<Matrix>,
    early: CudaRuntime,
    values: Seq<Seq<Term>>,
    given: Seq<MatrixConfig>,
)
    requires
        chain_ran(steps, ends, before, after, inputs, outputs),
        forall|id: usize| #[trigger]
            chain_footprint(steps).contains(id) ==> before.mem(id) == early.mem(id),
    ensures
        chain_image(steps, before, values, given) == chain_image(steps, early, values, given),
    decreases steps,
{
    if steps.len() > 0 {
        let front = steps.drop_last();
        let last = steps.last();
        let front_end = ends.drop_last();
        let end = ends.last();
        let (middle, flow) = choose|middle: CudaRuntime, flow: Seq<Matrix>|
            {
                &&& #[trigger] moment(middle, flow)
                &&& chain_ran(front, front_end, before, middle, inputs, flow)
                &&& last.ran(end, middle, after, flow, outputs)
            };
        assert forall|id: usize| #[trigger] chain_footprint(front).contains(id) implies before.mem(id)
            == early.mem(id) by {
            assert(chain_footprint(steps).contains(id));
        }
        assert forall|id: usize| #[trigger] last.footprint().contains(id) implies before.mem(id)
            == early.mem(id) by {
            assert(chain_footprint(steps).contains(id));
        }
        lemma_chain_image_kept(
            front,
            front_end,
            before,
            middle,
            inputs,
            flow,
            early,
            values,
            given,
        );
        assert(last.in_order(middle));
        lemma_steady_step(
            last,
            middle,
            before,
            early,
            chain_image(front, early, values, given),
            chain_outputs(front, given),
        );
    }
}

/// A step that is in order at some moment computes the same at two moments at which its
/// buffers hold the same.
proof fn lemma_steady_step<const TRAINING: bool>(
    step: Step<TRAINING>,
    runtime: CudaRuntime,
    before: CudaRuntime,
    early: CudaRuntime,
    values: Seq<Seq<Term>>,
    given: Seq<MatrixConfig>,
)
    requires
        step.in_order(runtime),
        forall|id: usize| #[trigger]
            step.footprint().contains(id) ==> before.mem(id) == early.mem(id),
    ensures
        step.image(before, values, given) == step.image(early, values, given),
    decreases step,
{
    match step {
        Step::Node(node) => {
            assert(step.footprint() == node.footprint());
            node.lemma_image_kept(runtime, early, before, values, given);
        },
        Step::Branches(branches) => {
            assert(step.footprint() == branches_footprint(branches@));
            assert(decreases_to!(step => branches));
            assert(decreases_to!(branches => branches@));
            lemma_steady_branches(branches@, runtime, before, early, values, given);
        },
    }
}

/// The same for branches.
proof fn lemma_steady_branches<const TRAINING: bool>(
    branches: Seq<Branch<TRAINING>>,
    runtime: CudaRuntime,
    before: CudaRuntime,
    early: CudaRuntime,
    values: Seq<Seq<Term>>,
    given: Seq<MatrixConfig>,
)
    requires
        branches_in_order(branches, runtime),
        forall|id: usize| #[trigger]
            branches_footprint(branches).contains(id) ==> before.mem(id) == early.mem(id),
    ensures
        branches_image(branches, before, values, given) == branches_image(
            branches,
            early,
            values,
            given,
        ),
    decreases branches,
{
    if branches.len() > 0 {
        let front = branches.drop_last();
        let last = branches.last();
        assert forall|id: usize| #[trigger] branches_footprint(front).contains(id) implies before.mem(
            id,
        ) == early.mem(id) by {
            assert(branches_footprint(branches).contains(id));
        }
        assert forall|id: usize| #[trigger]
            chain_footprint(last.steps@).contains(id) implies before.mem(id) == early.mem(id) by {
            assert(branches_footprint(branches).contains(id));
        }
        lemma_steady_branches(
            front,
            runtime,
            before,
            early,
            values.drop_last(),
            given.drop_last(),
        );
        assert(decreases_to!(branches => branches[branches.len() - 1]));
        assert(decreases_to!(last => last.steps));
        assert(decreases_to!(last.steps => last.steps@));
        lemma_steady_chain(
            last.steps@,
            runtime,
            before,
            early,
            seq![values.last()],
            seq![given.last()],
        );
    }
}

/// The same for steps.
proof fn lemma_steady_chain<const TRAINING: bool>(
    steps: Seq<Step<TRAINING>>,
    runtime: CudaRuntime,
    before: CudaRuntime,
    early: CudaRuntime,
    values: Seq<Seq<Term>>,
    given: Seq<MatrixConfig>,
)
    requires
        chain_in_order(steps, runtime),
        forall|id: usize| #[trigger]
            chain_footprint(steps).contains(id) ==> before.mem(id) == early.mem(id),
    ensures
        chain_image(steps, before, values, given) == chain_image(steps, early, values, given),
    decreases steps,
{
    if steps.len() > 0 {
        let front = steps.drop_last();
        let last = steps.last();
        assert forall|id: usize| #[trigger] chain_footprint(front).contains(id) implies before.mem(id)
            == early.mem(id) by {
            assert(chain_footprint(steps).contains(id));
        }
        assert forall|id: usize| #[trigger] last.footprint().contains(id) implies before.mem(id)
            == early.mem(id) by {
            assert(chain_footprint(steps).contains(id));
        }
        lemma_steady_chain(front, runtime, before, early, values, given);
        assert(decreases_to!(steps => steps[steps.len() - 1]));
        assert(last.in_order(runtime));
        lemma_steady_step(
            last,
            runtime,
            before,
            early,
            chain_image(front, early, values, given),
            chain_outputs(front, given),
        );
    }
}

impl Node {
    /// A block for training and the block for inference with the same parameters.
    pub open spec fn twin(self, plain: Self) -> bool {
        match (self, plain) {
            (Node::TrainingLinear(node), Node::Linear(layer)) => node.linear == layer,
            (Node::TrainingConcat(node), Node::Concat(join)) => node.node == join,
            (Node::TrainingCopy(node), Node::Copy(fork)) => node.node == fork,
            _ => plain == self,
        }
    }
}

impl Step<true> {
    /// A step for training and the step for inference with the same parameters.
    pub open spec fn twin(self, plain: Step<false>) -> bool
        decreases self,
    {
        match (self, plain) {
            (Step::Node(node), Step::Node(other)) => node.twin(other),
            (Step::Branches(branches), Step::Branches(others)) => branches_twin(branches@, others@),
            _ => false,
        }
    }
}

/// Steps for training and the steps for inference with the same parameters.
pub open spec fn chain_twin(steps: Seq<Step<true>>, plain: Seq<Step<false>>) -> bool
    decreases steps,
{
    &&& plain.len() == steps.len()
    &&& steps.len() > 0 ==> chain_twin(steps.drop_last(), plain.drop_last())
        && steps.last().twin(plain.last())
}

/// Branches for training and the branches for inference with the same parameters.
pub open spec fn branches_twin(branches: Seq<Branch<true>>, plain: Seq<Branch<false>>) -> bool
    decreases branches,
{
    &&& plain.len() == branches.len()
    &&& branches.len() > 0 ==> branches_twin(branches.drop_last(), plain.drop_last())
        && chain_twin(branches.last().steps@, plain.last().steps@)
}

/// A graph for training computes what the graph for inference with the same parameters
/// computes.
pub proof fn law_training_graphs_compute_as_inference(
    steps: Seq<Step<true>>,
    plain: Seq<Step<false>>,
    runtime: CudaRuntime,
    values: Seq<Seq<Term>>,
    inputs: Seq<MatrixConfig>,
)
    requires
        chain_twin(steps, plain),
    ensures
        chain_outputs(steps, inputs) == chain_outputs(plain, inputs),
        chain_image(steps, runtime, values, inputs) == chain_image(plain, runtime, values, inputs),
    decreases steps,
{
    if steps.len() > 0 {
        let front = steps.drop_last();
        let last = steps.last();
        law_training_graphs_compute_as_inference(
            front,
            plain.drop_last(),
            runtime,
            values,
            inputs,
        );
        assert(decreases_to!(steps => steps[steps.len() - 1]));
        lemma_twin_steps(
            last,
            plain.last(),
            runtime,
            chain_image(front, runtime, values, inputs),
            chain_outputs(front, inputs),
        );
    }
}

/// The same for a step.
proof fn lemma_twin_steps(
    step: Step<true>,
    plain: Step<false>,
    runtime: CudaRuntime,
    values: Seq<Seq<Term>>,
    inputs: Seq<MatrixConfig>,
)
    requires
        step.twin(plain),
    ensures
        step.outputs(inputs) == plain.outputs(inputs),
        step.image(runtime, values, inputs) == plain.image(runtime, values, inputs),
    decreases step,
{
    match (step, plain) {
        (Step::Node(node), Step::Node(other)) => {
            assert(node.outputs(inputs) =~= other.outputs(inputs));
            assert(node.image(runtime, values, inputs) =~= other.image(runtime, values, inputs));
        },
        (Step::Branches(branches), Step::Branches(others)) => {
            assert(decreases_to!(step => branches));
            assert(decreases_to!(branches => branches@));
            lemma_twin_branches(branches@, others@, runtime, values, inputs);
        },
        _ => {},
    }
}

/// The same for branches.
proof fn lemma_twin_branches(
    branches: Seq<Branch<true>>,
    plain: Seq<Branch<false>>,
    runtime: CudaRuntime,
    values: Seq<Seq<Term>>,
    inputs: Seq<MatrixConfig>,
)
    requires
        branches_twin(branches, plain),
    ensures
        branches_outputs(branches, inputs) == branches_outputs(plain, inputs),
        branches_image(branches, runtime, values, inputs) == branches_image(
            plain,
            runtime,
            values,
            inputs,
        ),
    decreases branches,
{
    if branches.len() > 0 {
        let last = branches.last();
        lemma_twin_branches(
            branches.drop_last(),
            plain.drop_last(),
            runtime,
            values.drop_last(),
            inputs.drop_last(),
        );
        assert(decreases_to!(branches => branches[branches.len() - 1]));
        assert(decreases_to!(last => last.steps));
        assert(decreases_to!(last.steps => last.steps@));
        law_training_graphs_compute_as_inference(
            last.steps@,
            plain.last().steps@,
            runtime,
            seq![values.last()],
            seq![inputs.last()],
        );
    }
}

} // verus!
