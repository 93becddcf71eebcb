//! Blocks without parameters that pass gradients back.

use vstd::prelude::*;

use super::{
    lemma_one, lemma_one_held, lemma_took_nothing, read_nothing, GraphNode, TrainingNode,
};
use crate::cuda::algebra::{row_totals, sum_of, Term};
use crate::cuda::container::convert::partitions;
use crate::cuda::container::matrix::squares_fit;
use crate::cuda::container::{distinct, ids, values_of, Matrix};
use crate::cuda::runtime::CudaRuntime;
use crate::graph::config::LearnConfig;
use crate::graph::state::lemma_ids_append;
use crate::net::linear::{single, take_single};
use crate::net::metadata::{HostDataCursor, HostRead};
use crate::net::node::binary::sum_of_first;
use crate::net::node::reduction::spread;
use crate::net::node::structural::{part_shapes, parts_along, shapes_of};
use crate::net::node::{
    BinaryOp, TrainingBinaryNode, TrainingConcatNode, TrainingFanOutNode, TrainingRowReduceNode,
    TrainingSingleNode, TrainingSplitNode,
};

verus! {

broadcast use crate::cuda::runtime::group_streams;

/// A block that does nothing exchanges its buffers for themselves.
proof fn lemma_idle<T: GraphNode>(node: T, runtime: CudaRuntime)
    requires
        runtime.wf(),
        node.footprint().subset_of(runtime.live@),
    ensures
        runtime.replaced(runtime, node.footprint(), node.footprint()),
{
    runtime.lemma_replaced_nothing(node.footprint());
}

/// Two lists of live matrices that share nothing make one.
proof fn lemma_all_held(a: Seq<Matrix>, b: Seq<Matrix>, runtime: CudaRuntime)
    requires
        runtime.holds_all(a),
        runtime.holds_all(b),
        ids(a).disjoint(ids(b)),
    ensures
        runtime.holds_all(a + b),
        ids(a + b) == ids(a).union(ids(b)),
{
    lemma_ids_append(a, b);
    assert(ids(a + b) =~= ids(a).union(ids(b)));
    let all = a + b;
    assert forall|k: int| #![trigger all[k]] 0 <= k < all.len() implies runtime.holds(all[k]) by {
        if k < a.len() {
            assert(all[k] == a[k]);
        } else {
            assert(all[k] == b[k - a.len()]);
        }
    }
    assert forall|i: int, j: int|
        #![trigger all[i], all[j]]
        0 <= i < all.len() && 0 <= j < all.len() && all[i].buffer.id == all[j].buffer.id implies i
        == j by {
        if i < a.len() {
            assert(all[i] == a[i]);
            assert(ids(a).contains(a[i].buffer.id));
        } else {
            assert(all[i] == b[i - a.len()]);
            assert(ids(b).contains(b[i - a.len()].buffer.id));
        }
        if j < a.len() {
            assert(all[j] == a[j]);
            assert(ids(a).contains(a[j].buffer.id));
        } else {
            assert(all[j] == b[j - a.len()]);
            assert(ids(b).contains(b[j - a.len()].buffer.id));
        }
    }
    assert(distinct(all));
}

impl GraphNode for TrainingConcatNode {
    open spec fn footprint(self) -> Set<usize> {
        Set::empty()
    }

    open spec fn in_order(self, runtime: CudaRuntime) -> bool {
        true
    }

    open spec fn takes(self, runtime: CudaRuntime, inputs: Seq<Matrix>) -> bool {
        self.node.axis.joinable(shapes_of(inputs))
    }

    open spec fn gives(
        self,
        end: Self,
        before: CudaRuntime,
        after: CudaRuntime,
        inputs: Seq<Matrix>,
        outputs: Seq<Matrix>,
    ) -> bool {
        let axis = self.node.axis;
        &&& end.node == self.node
        &&& end.input_shapes is Some
        &&& end.shapes() == shapes_of(inputs)
        &&& outputs.len() == 1
        &&& axis.extent(outputs[0].rows, outputs[0].cols) == sum_of(axis.extents(shapes_of(inputs)))
        &&& axis.breadth(outputs[0].rows, outputs[0].cols) == axis.breadth(
            inputs[0].rows,
            inputs[0].cols,
        )
        &&& after.matrix(outputs[0]) == axis.joined_along(
            values_of(before, inputs),
            shapes_of(inputs),
        )
    }

    open spec fn forgets(self, end: Self, before: CudaRuntime, after: CudaRuntime) -> bool {
        end.node == self.node && end.input_shapes is None && after == before
    }

    open spec fn data(self, runtime: CudaRuntime) -> Seq<Seq<Term>> {
        Seq::empty()
    }

    open spec fn data_sizes(self) -> Seq<usize> {
        Seq::empty()
    }

    fn forward(&mut self, inputs: Vec<Matrix>, runtime: &mut CudaRuntime) -> (r: Vec<Matrix>) {
        let ghost taken = ids(inputs@);
        let output = TrainingConcatNode::forward(self, inputs, runtime);
        proof {
            lemma_one_held(output, *runtime);
            assert(Set::empty().union(taken) =~= taken);
            assert(Set::empty().union(ids(seq![output])) =~= set![output.buffer.id]);
        }
        single(output)
    }

    fn clear_cache(&mut self, runtime: &mut CudaRuntime) {
        TrainingConcatNode::clear_cache(self);
        proof {
            runtime.lemma_replaced_nothing(Set::empty());
        }
    }

    fn get_data(&self, runtime: &mut CudaRuntime) -> (r: Vec<HostRead>) {
        read_nothing(runtime)
    }

    fn set_data(&mut self, data: &mut HostDataCursor, runtime: &mut CudaRuntime) {
        proof {
            lemma_took_nothing(*runtime, *data, |id: usize| self.footprint().contains(id));
        }
    }
}

impl TrainingNode for TrainingConcatNode {
    open spec fn takes_gradients(self, runtime: CudaRuntime, gradients: Seq<Matrix>) -> bool {
        let axis = self.node.axis;
        &&& gradients.len() == 1
        &&& self.input_shapes is Some
        &&& axis.agrees(self.shapes())
        &&& partitions(
            axis.extents(self.shapes()),
            axis.extent(gradients[0].rows, gradients[0].cols) as int,
        )
        &&& axis.breadth(gradients[0].rows, gradients[0].cols) == axis.breadth(
            self.shapes()[0].0,
            self.shapes()[0].1,
        )
    }

    open spec fn passes_back(
        self,
        end: Self,
        before: CudaRuntime,
        after: CudaRuntime,
        gradients: Seq<Matrix>,
        r: Seq<Matrix>,
    ) -> bool {
        &&& end.node == self.node
        &&& end.input_shapes is None
        &&& shapes_of(r) == self.shapes()
        &&& values_of(after, r) == parts_along(
            self.node.axis,
            before.matrix(gradients[0]),
            gradients[0].rows as nat,
            gradients[0].cols as nat,
            self.node.axis.extents(self.shapes()),
        )
    }

    open spec fn has_gradients(self) -> bool {
        true
    }

    open spec fn improves(
        self,
        end: Self,
        before: CudaRuntime,
        after: CudaRuntime,
        config: LearnConfig,
    ) -> bool {
        end == self && after == before
    }

    fn backward(&mut self, gradients: Vec<Matrix>, runtime: &mut CudaRuntime) -> (r: Vec<Matrix>) {
        let gradient = take_single(gradients);
        proof {
            lemma_one(gradient);
        }
        let parts = TrainingConcatNode::backward(self, gradient, runtime);
        proof {
            assert(Set::empty().union(ids(seq![gradient])) =~= set![gradient.buffer.id]);
            assert(Set::empty().union(ids(parts@)) =~= ids(parts@));
        }
        parts
    }

    fn learn(&mut self, config: LearnConfig, runtime: &mut CudaRuntime) {
        proof {
            lemma_idle(*self, *runtime);
        }
    }
}

impl GraphNode for TrainingSplitNode {
    open spec fn footprint(self) -> Set<usize> {
        Set::empty()
    }

    open spec fn in_order(self, runtime: CudaRuntime) -> bool {
        true
    }

    open spec fn takes(self, runtime: CudaRuntime, inputs: Seq<Matrix>) -> bool {
        inputs.len() == 1 && !self.forward_pending && partitions(
            self.node.sizes@,
            self.node.axis.extent(inputs[0].rows, inputs[0].cols) as int,
        )
    }

    open spec fn gives(
        self,
        end: Self,
        before: CudaRuntime,
        after: CudaRuntime,
        inputs: Seq<Matrix>,
        outputs: Seq<Matrix>,
    ) -> bool {
        &&& end.node == self.node
        &&& end.forward_pending
        &&& shapes_of(outputs) == part_shapes(
            self.node.axis,
            inputs[0].rows,
            inputs[0].cols,
            self.node.sizes@,
        )
        &&& values_of(after, outputs) == parts_along(
            self.node.axis,
            before.matrix(inputs[0]),
            inputs[0].rows as nat,
            inputs[0].cols as nat,
            self.node.sizes@,
        )
    }

    open spec fn forgets(self, end: Self, before: CudaRuntime, after: CudaRuntime) -> bool {
        end.node == self.node && !end.forward_pending && after == before
    }

    open spec fn data(self, runtime: CudaRuntime) -> Seq<Seq<Term>> {
        Seq::empty()
    }

    open spec fn data_sizes(self) -> Seq<usize> {
        Seq::empty()
    }

    fn forward(&mut self, inputs: Vec<Matrix>, runtime: &mut CudaRuntime) -> (r: Vec<Matrix>) {
        let input = take_single(inputs);
        proof {
            lemma_one(input);
        }
        let outputs = TrainingSplitNode::forward(self, input, runtime);
        proof {
            assert(Set::empty().union(ids(seq![input])) =~= set![input.buffer.id]);
            assert(Set::empty().union(ids(outputs@)) =~= ids(outputs@));
        }
        outputs
    }

    fn clear_cache(&mut self, runtime: &mut CudaRuntime) {
        TrainingSplitNode::clear_cache(self);
        proof {
            runtime.lemma_replaced_nothing(Set::empty());
        }
    }

    fn get_data(&self, runtime: &mut CudaRuntime) -> (r: Vec<HostRead>) {
        read_nothing(runtime)
    }

    fn set_data(&mut self, data: &mut HostDataCursor, runtime: &mut CudaRuntime) {
        proof {
            lemma_took_nothing(*runtime, *data, |id: usize| self.footprint().contains(id));
        }
    }
}

impl TrainingNode for TrainingSplitNode {
    open spec fn takes_gradients(self, runtime: CudaRuntime, gradients: Seq<Matrix>) -> bool {
        &&& self.forward_pending
        &&& self.node.axis.extents(shapes_of(gradients)) == self.node.sizes@
        &&& self.node.axis.joinable(shapes_of(gradients))
    }

    open spec fn passes_back(
        self,
        end: Self,
        before: CudaRuntime,
        after: CudaRuntime,
        gradients: Seq<Matrix>,
        r: Seq<Matrix>,
    ) -> bool {
        let axis = self.node.axis;
        &&& end.node == self.node
        &&& !end.forward_pending
        &&& r.len() == 1
        &&& axis.extent(r[0].rows, r[0].cols) == sum_of(self.node.sizes@)
        &&& axis.breadth(r[0].rows, r[0].cols) == axis.breadth(
            gradients[0].rows,
            gradients[0].cols,
        )
        &&& after.matrix(r[0]) == axis.joined_along(
            values_of(before, gradients),
            shapes_of(gradients),
        )
    }

    open spec fn has_gradients(self) -> bool {
        true
    }

    open spec fn improves(
        self,
        end: Self,
        before: CudaRuntime,
        after: CudaRuntime,
        config: LearnConfig,
    ) -> bool {
        end == self && after == before
    }

    fn backward(&mut self, gradients: Vec<Matrix>, runtime: &mut CudaRuntime) -> (r: Vec<Matrix>) {
        let ghost taken = ids(gradients@);
        let gradient = TrainingSplitNode::backward(self, gradients, runtime);
        proof {
            lemma_one_held(gradient, *runtime);
            assert(Set::empty().union(taken) =~= taken);
            assert(Set::empty().union(ids(seq![gradient])) =~= set![gradient.buffer.id]);
        }
        single(gradient)
    }

    fn learn(&mut self, config: LearnConfig, runtime: &mut CudaRuntime) {
        proof {
            lemma_idle(*self, *runtime);
        }
    }
}

impl GraphNode for TrainingFanOutNode {
    open spec fn footprint(self) -> Set<usize> {
        Set::empty()
    }

    open spec fn in_order(self, runtime: CudaRuntime) -> bool {
        self.node.output_count >= 2
    }

    open spec fn takes(self, runtime: CudaRuntime, inputs: Seq<Matrix>) -> bool {
        inputs.len() == 1 && !self.forward_pending
    }

    open spec fn gives(
        self,
        end: Self,
        before: CudaRuntime,
        after: CudaRuntime,
        inputs: Seq<Matrix>,
        outputs: Seq<Matrix>,
    ) -> bool {
        &&& end.node == self.node
        &&& end.forward_pending
        &&& outputs.len() == self.node.output_count
        &&& forall|k: int|
            0 <= k < outputs.len() ==> (#[trigger] outputs[k]).rows == inputs[0].rows
                && outputs[k].cols == inputs[0].cols && after.matrix(outputs[k])
                == self.node.mode.share(before.matrix(inputs[0]), self.node.output_count)
    }

    open spec fn forgets(self, end: Self, before: CudaRuntime, after: CudaRuntime) -> bool {
        end.node == self.node && !end.forward_pending && after == before
    }

    open spec fn data(self, runtime: CudaRuntime) -> Seq<Seq<Term>> {
        Seq::empty()
    }

    open spec fn data_sizes(self) -> Seq<usize> {
        Seq::empty()
    }

    fn forward(&mut self, inputs: Vec<Matrix>, runtime: &mut CudaRuntime) -> (r: Vec<Matrix>) {
        let input = take_single(inputs);
        proof {
            lemma_one(input);
        }
        let outputs = TrainingFanOutNode::forward(self, input, runtime);
        proof {
            assert(Set::empty().union(ids(seq![input])) =~= set![input.buffer.id]);
            assert(Set::empty().union(ids(outputs@)) =~= ids(outputs@));
        }
        outputs
    }

    fn clear_cache(&mut self, runtime: &mut CudaRuntime) {
        TrainingFanOutNode::clear_cache(self);
        proof {
            runtime.lemma_replaced_nothing(Set::empty());
        }
    }

    fn get_data(&self, runtime: &mut CudaRuntime) -> (r: Vec<HostRead>) {
        read_nothing(runtime)
    }

    fn set_data(&mut self, data: &mut HostDataCursor, runtime: &mut CudaRuntime) {
        proof {
            lemma_took_nothing(*runtime, *data, |id: usize| self.footprint().contains(id));
        }
    }
}

impl TrainingNode for TrainingFanOutNode {
    open spec fn takes_gradients(self, runtime: CudaRuntime, gradients: Seq<Matrix>) -> bool {
        &&& self.forward_pending
        &&& gradients.len() == self.node.output_count
        &&& BinaryOp::Add.fits(gradients)
    }

    open spec fn passes_back(
        self,
        end: Self,
        before: CudaRuntime,
        after: CudaRuntime,
        gradients: Seq<Matrix>,
        r: Seq<Matrix>,
    ) -> bool {
        &&& end.node == self.node
        &&& !end.forward_pending
        &&& r.len() == 1
        &&& r[0] == gradients[0]
        &&& after.matrix(r[0]) == self.node.mode.share(
            sum_of_first(values_of(before, gradients), self.node.output_count as int),
            self.node.output_count,
        )
    }

    open spec fn has_gradients(self) -> bool {
        true
    }

    open spec fn improves(
        self,
        end: Self,
        before: CudaRuntime,
        after: CudaRuntime,
        config: LearnConfig,
    ) -> bool {
        end == self && after == before
    }

    fn backward(&mut self, gradients: Vec<Matrix>, runtime: &mut CudaRuntime) -> (r: Vec<Matrix>) {
        let ghost taken = ids(gradients@);
        let gradient = TrainingFanOutNode::backward(self, gradients, runtime);
        proof {
            lemma_one_held(gradient, *runtime);
            assert(Set::empty().union(taken) =~= taken);
            assert(Set::empty().union(ids(seq![gradient])) =~= set![gradient.buffer.id]);
        }
        single(gradient)
    }

    fn learn(&mut self, config: LearnConfig, runtime: &mut CudaRuntime) {
        proof {
            lemma_idle(*self, *runtime);
        }
    }
}

impl GraphNode for TrainingRowReduceNode {
    open spec fn footprint(self) -> Set<usize> {
        Set::empty()
    }

    open spec fn in_order(self, runtime: CudaRuntime) -> bool {
        self.wf()
    }

    open spec fn takes(self, runtime: CudaRuntime, inputs: Seq<Matrix>) -> bool {
        inputs.len() == 1 && inputs[0].cols > 0 && inputs[0].rows <= u32::MAX
    }

    open spec fn gives(
        self,
        end: Self,
        before: CudaRuntime,
        after: CudaRuntime,
        inputs: Seq<Matrix>,
        outputs: Seq<Matrix>,
    ) -> bool {
        &&& end.node == self.node
        &&& end.input_shape == Some((inputs[0].rows, inputs[0].cols))
        &&& outputs.len() == 1
        &&& outputs[0].rows == inputs[0].rows
        &&& outputs[0].cols == 1
        &&& after.matrix(outputs[0]) == self.node.reduction.weighted(
            row_totals(
                before.matrix(inputs[0]),
                inputs[0].rows as nat,
                inputs[0].cols as nat,
            ),
            inputs[0].cols,
        )
    }

    open spec fn forgets(self, end: Self, before: CudaRuntime, after: CudaRuntime) -> bool {
        end.node == self.node && end.input_shape is None && after == before
    }

    open spec fn data(self, runtime: CudaRuntime) -> Seq<Seq<Term>> {
        Seq::empty()
    }

    open spec fn data_sizes(self) -> Seq<usize> {
        Seq::empty()
    }

    fn forward(&mut self, inputs: Vec<Matrix>, runtime: &mut CudaRuntime) -> (r: Vec<Matrix>) {
        let input = take_single(inputs);
        proof {
            lemma_one(input);
        }
        let output = TrainingRowReduceNode::forward(self, input, runtime);
        proof {
            lemma_one_held(output, *runtime);
            assert(Set::empty().union(ids(seq![input])) =~= set![input.buffer.id]);
            assert(Set::empty().union(ids(seq![output])) =~= set![output.buffer.id]);
        }
        single(output)
    }

    fn clear_cache(&mut self, runtime: &mut CudaRuntime) {
        TrainingRowReduceNode::clear_cache(self);
        proof {
            runtime.lemma_replaced_nothing(Set::empty());
        }
    }

    fn get_data(&self, runtime: &mut CudaRuntime) -> (r: Vec<HostRead>) {
        read_nothing(runtime)
    }

    fn set_data(&mut self, data: &mut HostDataCursor, runtime: &mut CudaRuntime) {
        proof {
            lemma_took_nothing(*runtime, *data, |id: usize| self.footprint().contains(id));
        }
    }
}

impl TrainingNode for TrainingRowReduceNode {
    open spec fn takes_gradients(self, runtime: CudaRuntime, gradients: Seq<Matrix>) -> bool {
        &&& gradients.len() == 1
        &&& self.input_shape is Some
        &&& gradients[0].rows == self.rows()
        &&& gradients[0].cols == 1
        &&& squares_fit(self.cols() as int, self.rows() as int)
    }

    open spec fn passes_back(
        self,
        end: Self,
        before: CudaRuntime,
        after: CudaRuntime,
        gradients: Seq<Matrix>,
        r: Seq<Matrix>,
    ) -> bool {
        &&& end.node == self.node
        &&& end.input_shape is None
        &&& r.len() == 1
        &&& r[0].rows == self.rows()
        &&& r[0].cols == self.cols()
        &&& after.matrix(r[0]) == self.node.reduction.weighted(
            spread(before.matrix(gradients[0]), self.rows() as nat, self.cols() as nat),
            self.cols(),
        )
    }

    open spec fn has_gradients(self) -> bool {
        true
    }

    open spec fn improves(
        self,
        end: Self,
        before: CudaRuntime,
        after: CudaRuntime,
        config: LearnConfig,
    ) -> bool {
        end == self && after == before
    }

    fn backward(&mut self, gradients: Vec<Matrix>, runtime: &mut CudaRuntime) -> (r: Vec<Matrix>) {
        let gradient = take_single(gradients);
        proof {
            lemma_one(gradient);
        }
        let passed = TrainingRowReduceNode::backward(self, gradient, runtime);
        proof {
            lemma_one_held(passed, *runtime);
            assert(Set::empty().union(ids(seq![gradient])) =~= set![gradient.buffer.id]);
            assert(Set::empty().union(ids(seq![passed])) =~= set![passed.buffer.id]);
        }
        single(passed)
    }

    fn learn(&mut self, config: LearnConfig, runtime: &mut CudaRuntime) {
        proof {
            lemma_idle(*self, *runtime);
        }
    }
}

impl GraphNode for TrainingSingleNode {
    open spec fn footprint(self) -> Set<usize> {
        self.retained()
    }

    open spec fn in_order(self, runtime: CudaRuntime) -> bool {
        self.wf(runtime)
    }

    open spec fn takes(self, runtime: CudaRuntime, inputs: Seq<Matrix>) -> bool {
        inputs.len() == 1 && self.node.op.launches(inputs[0].rows as int, inputs[0].cols as int)
    }

    open spec fn gives(
        self,
        end: Self,
        before: CudaRuntime,
        after: CudaRuntime,
        inputs: Seq<Matrix>,
        outputs: Seq<Matrix>,
    ) -> bool {
        let (rows, cols) = (inputs[0].rows, inputs[0].cols);
        let op = self.node.op;
        &&& end.node == self.node
        &&& end.forward_pending
        &&& outputs.len() == 1
        &&& outputs[0].rows == op.out_rows(rows, cols)
        &&& outputs[0].cols == op.out_cols(rows, cols)
        &&& after.matrix(outputs[0]) == op.image(
            before.matrix(inputs[0]),
            rows as nat,
            cols as nat,
        )
        &&& end.cache matches Some(cache) ==> cache.matrix().rows == rows && cache.matrix().cols
            == cols && after.matrix(cache.matrix()) == op.saved(
            before.matrix(inputs[0]),
            rows as nat,
            cols as nat,
        )
    }

    open spec fn forgets(self, end: Self, before: CudaRuntime, after: CudaRuntime) -> bool {
        end.node == self.node && !end.forward_pending && end.cache is None
    }

    open spec fn data(self, runtime: CudaRuntime) -> Seq<Seq<Term>> {
        Seq::empty()
    }

    open spec fn data_sizes(self) -> Seq<usize> {
        Seq::empty()
    }

    fn forward(&mut self, inputs: Vec<Matrix>, runtime: &mut CudaRuntime) -> (r: Vec<Matrix>) {
        let ghost own = self.retained();
        let input = take_single(inputs);
        proof {
            lemma_one(input);
        }
        let output = TrainingSingleNode::forward(self, input, runtime);
        proof {
            lemma_one_held(output, *runtime);
            assert(own.union(ids(seq![input])) =~= own.insert(input.buffer.id));
            assert(self.retained().union(ids(seq![output])) =~= self.retained().insert(
                output.buffer.id,
            ));
        }
        single(output)
    }

    fn clear_cache(&mut self, runtime: &mut CudaRuntime) {
        TrainingSingleNode::clear_cache(self, runtime);
    }

    fn get_data(&self, runtime: &mut CudaRuntime) -> (r: Vec<HostRead>) {
        read_nothing(runtime)
    }

    fn set_data(&mut self, data: &mut HostDataCursor, runtime: &mut CudaRuntime) {
        proof {
            lemma_took_nothing(*runtime, *data, |id: usize| self.footprint().contains(id));
        }
    }
}

impl TrainingNode for TrainingSingleNode {
    open spec fn takes_gradients(self, runtime: CudaRuntime, gradients: Seq<Matrix>) -> bool {
        &&& gradients.len() == 1
        &&& self.forward_pending
        &&& self.node.op.launches(gradients[0].rows as int, gradients[0].cols as int)
        &&& self.cache matches Some(cache) ==> cache.matrix().rows == gradients[0].rows
            && cache.matrix().cols == gradients[0].cols
    }

    open spec fn passes_back(
        self,
        end: Self,
        before: CudaRuntime,
        after: CudaRuntime,
        gradients: Seq<Matrix>,
        r: Seq<Matrix>,
    ) -> bool {
        let (rows, cols) = (gradients[0].rows, gradients[0].cols);
        let op = self.node.op;
        &&& end.node == self.node
        &&& !end.forward_pending
        &&& end.cache is None
        &&& r.len() == 1
        &&& r[0].rows == op.out_rows(rows, cols)
        &&& r[0].cols == op.out_cols(rows, cols)
        &&& after.matrix(r[0]) == op.pullback(
            match self.cache {
                Some(cache) => before.matrix(cache.matrix()),
                None => Seq::empty(),
            },
            before.matrix(gradients[0]),
            rows as nat,
            cols as nat,
        )
    }

    open spec fn has_gradients(self) -> bool {
        true
    }

    open spec fn improves(
        self,
        end: Self,
        before: CudaRuntime,
        after: CudaRuntime,
        config: LearnConfig,
    ) -> bool {
        end == self && after == before
    }

    fn backward(&mut self, gradients: Vec<Matrix>, runtime: &mut CudaRuntime) -> (r: Vec<Matrix>) {
        let ghost own = self.retained();
        let gradient = take_single(gradients);
        proof {
            lemma_one(gradient);
        }
        let passed = TrainingSingleNode::backward(self, gradient, runtime);
        proof {
            lemma_one_held(passed, *runtime);
            assert(own.union(ids(seq![gradient])) =~= own.insert(gradient.buffer.id));
            assert(self.retained().union(ids(seq![passed])) =~= set![passed.buffer.id]);
        }
        single(passed)
    }

    fn learn(&mut self, config: LearnConfig, runtime: &mut CudaRuntime) {
        proof {
            lemma_idle(*self, *runtime);
        }
    }
}

impl GraphNode for TrainingBinaryNode {
    open spec fn footprint(self) -> Set<usize> {
        ids(self.retained())
    }

    open spec fn in_order(self, runtime: CudaRuntime) -> bool {
        self.wf(runtime)
    }

    open spec fn takes(self, runtime: CudaRuntime, inputs: Seq<Matrix>) -> bool {
        self.node.op.accepts(inputs)
    }

    open spec fn gives(
        self,
        end: Self,
        before: CudaRuntime,
        after: CudaRuntime,
        inputs: Seq<Matrix>,
        outputs: Seq<Matrix>,
    ) -> bool {
        let op = self.node.op;
        &&& end.node == self.node
        &&& end.forward_pending
        &&& end.input_count == inputs.len()
        &&& end.retained() == if op.saves_inputs() {
            inputs
        } else {
            Seq::empty()
        }
        &&& values_of(after, end.retained()) == values_of(before, end.retained())
        &&& outputs.len() == 1
        &&& outputs[0].rows == op.out_rows(inputs)
        &&& outputs[0].cols == op.out_cols(inputs)
        &&& after.matrix(outputs[0]) == op.image(before, inputs)
    }

    open spec fn forgets(self, end: Self, before: CudaRuntime, after: CudaRuntime) -> bool {
        &&& end.node == self.node
        &&& end.input_count == 0
        &&& !end.forward_pending
        &&& end.cache is None
    }

    open spec fn data(self, runtime: CudaRuntime) -> Seq<Seq<Term>> {
        Seq::empty()
    }

    open spec fn data_sizes(self) -> Seq<usize> {
        Seq::empty()
    }

    fn forward(&mut self, inputs: Vec<Matrix>, runtime: &mut CudaRuntime) -> (r: Vec<Matrix>) {
        let ghost kept = self.retained();
        let ghost own = ids(kept);
        let ghost given = inputs@;
        proof {
            lemma_all_held(kept, given, *runtime);
        }
        let output = TrainingBinaryNode::forward(self, inputs, runtime);
        proof {
            lemma_one_held(output, *runtime);
            assert(own.union(ids(given)) =~= ids(kept + given));
            assert(self.footprint().union(ids(seq![output])) =~= self.footprint().insert(
                output.buffer.id,
            ));
        }
        single(output)
    }

    fn clear_cache(&mut self, runtime: &mut CudaRuntime) {
        let ghost before = *runtime;
        let ghost kept = self.retained();
        TrainingBinaryNode::clear_cache(self, runtime);
        proof {
            assert(self.retained() =~= Seq::<Matrix>::empty());
            assert(self.footprint() =~= Set::empty());
            assert(runtime.live@ =~= before.live@.difference(ids(kept)).union(Set::empty()));
        }
    }

    fn get_data(&self, runtime: &mut CudaRuntime) -> (r: Vec<HostRead>) {
        read_nothing(runtime)
    }

    fn set_data(&mut self, data: &mut HostDataCursor, runtime: &mut CudaRuntime) {
        proof {
            lemma_took_nothing(*runtime, *data, |id: usize| self.footprint().contains(id));
        }
    }
}

impl TrainingNode for TrainingBinaryNode {
    open spec fn takes_gradients(self, runtime: CudaRuntime, gradients: Seq<Matrix>) -> bool {
        &&& gradients.len() == 1
        &&& self.forward_pending
        &&& self.accepts_gradient(gradients[0])
    }

    open spec fn passes_back(
        self,
        end: Self,
        before: CudaRuntime,
        after: CudaRuntime,
        gradients: Seq<Matrix>,
        r: Seq<Matrix>,
    ) -> bool {
        &&& end.node == self.node
        &&& end.input_count == self.input_count
        &&& !end.forward_pending
        &&& end.cache is None
        &&& r.len() == self.input_count
        &&& forall|k: int|
            0 <= k < r.len() ==> after.matrix(#[trigger] r[k]) == self.node.op.pullback(
                before,
                self.retained(),
                before.matrix(gradients[0]),
                k,
            )
        &&& forall|k: int|
            0 <= k < r.len() ==> (self.cache is None ==> (#[trigger] r[k]).rows
                == gradients[0].rows && r[k].cols == gradients[0].cols) && (self.cache is Some
                ==> r[k].rows == self.retained()[k].rows && r[k].cols == self.retained()[k].cols)
    }

    open spec fn has_gradients(self) -> bool {
        true
    }

    open spec fn improves(
        self,
        end: Self,
        before: CudaRuntime,
        after: CudaRuntime,
        config: LearnConfig,
    ) -> bool {
        end == self && after == before
    }

    fn backward(&mut self, gradients: Vec<Matrix>, runtime: &mut CudaRuntime) -> (r: Vec<Matrix>) {
        let ghost kept = self.retained();
        let gradient = take_single(gradients);
        proof {
            lemma_all_held(kept, seq![gradient], *runtime);
            assert(kept + seq![gradient] =~= kept.push(gradient));
        }
        let parts = TrainingBinaryNode::backward(self, gradient, runtime);
        proof {
            assert(ids(kept).union(ids(seq![gradient])) =~= ids(kept.push(gradient)));
            assert(self.retained() =~= Seq::<Matrix>::empty());
            assert(self.footprint() =~= Set::empty());
            assert(self.footprint().union(ids(parts@)) =~= ids(parts@));
        }
        parts
    }

    fn learn(&mut self, config: LearnConfig, runtime: &mut CudaRuntime) {
        proof {
            lemma_idle(*self, *runtime);
        }
    }
}

} // verus!
