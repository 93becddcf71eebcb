//! Blocks that only run forward.

use vstd::prelude::*;

use super::{lemma_one, lemma_one_held, lemma_took_nothing, read_nothing, GraphNode};
use crate::cuda::algebra::{row_totals, sum_of, Term};
use crate::cuda::container::convert::partitions;
use crate::cuda::container::{ids, values_of, Matrix};
use crate::cuda::runtime::CudaRuntime;
use crate::net::linear::{single, take_single};
use crate::net::metadata::{HostDataCursor, HostRead};
use crate::net::node::structural::{part_shapes, parts_along, shapes_of};
use crate::net::node::{BinaryNode, ConcatNode, FanOutNode, RowReduceNode, SingleNode, SplitNode};

verus! {

broadcast use crate::cuda::runtime::group_streams;

impl GraphNode for SingleNode {
    open spec fn footprint(self) -> Set<usize> {
        Set::empty()
    }

    open spec fn in_order(self, runtime: CudaRuntime) -> bool {
        true
    }

    open spec fn takes(self, runtime: CudaRuntime, inputs: Seq<Matrix>) -> bool {
        inputs.len() == 1 && self.op.launches(inputs[0].rows as int, inputs[0].cols as int)
    }

    open spec fn gives(
        self,
        end: Self,
        before: CudaRuntime,
        after: CudaRuntime,
        inputs: Seq<Matrix>,
        outputs: Seq<Matrix>,
    ) -> bool {
        let (rows, cols) = (inputs[0].rows, inputs[0].cols);
        &&& end == self
        &&& outputs.len() == 1
        &&& outputs[0].rows == self.op.out_rows(rows, cols)
        &&& outputs[0].cols == self.op.out_cols(rows, cols)
        &&& after.matrix(outputs[0]) == self.op.image(
            before.matrix(inputs[0]),
            rows as nat,
            cols as nat,
        )
    }

    open spec fn forgets(self, end: Self, before: CudaRuntime, after: CudaRuntime) -> bool {
        end == self && after == before
    }

    open spec fn data(self, runtime: CudaRuntime) -> Seq<Seq<Term>> {
        Seq::empty()
    }

    open spec fn data_sizes(self) -> Seq<usize> {
        Seq::empty()
    }

    fn forward(&mut self, inputs: Vec<Matrix>, runtime: &mut CudaRuntime) -> (r: Vec<Matrix>) {
        let input = take_single(inputs);
        proof {
            lemma_one(input);
        }
        let output = SingleNode::forward(self, input, runtime);
        proof {
            lemma_one_held(output, *runtime);
            assert(self.footprint().union(ids(seq![input])) =~= set![input.buffer.id]);
            assert(self.footprint().union(ids(seq![output])) =~= set![output.buffer.id]);
        }
        single(output)
    }

    fn clear_cache(&mut self, runtime: &mut CudaRuntime) {
        proof {
            runtime.lemma_replaced_nothing(Set::empty());
        }
    }

    fn get_data(&self, runtime: &mut CudaRuntime) -> (r: Vec<HostRead>) {
        read_nothing(runtime)
    }

    fn set_data(&mut self, data: &mut HostDataCursor, runtime: &mut CudaRuntime) {
        proof {
            lemma_took_nothing(*runtime, *data, |id: usize| self.footprint().contains(id));
        }
    }
}

impl GraphNode for BinaryNode {
    open spec fn footprint(self) -> Set<usize> {
        Set::empty()
    }

    open spec fn in_order(self, runtime: CudaRuntime) -> bool {
        true
    }

    open spec fn takes(self, runtime: CudaRuntime, inputs: Seq<Matrix>) -> bool {
        self.op.accepts(inputs)
    }

    open spec fn gives(
        self,
        end: Self,
        before: CudaRuntime,
        after: CudaRuntime,
        inputs: Seq<Matrix>,
        outputs: Seq<Matrix>,
    ) -> bool {
        &&& end == self
        &&& outputs.len() == 1
        &&& outputs[0].rows == self.op.out_rows(inputs)
        &&& outputs[0].cols == self.op.out_cols(inputs)
        &&& after.matrix(outputs[0]) == self.op.image(before, inputs)
    }

    open spec fn forgets(self, end: Self, before: CudaRuntime, after: CudaRuntime) -> bool {
        end == self && after == before
    }

    open spec fn data(self, runtime: CudaRuntime) -> Seq<Seq<Term>> {
        Seq::empty()
    }

    open spec fn data_sizes(self) -> Seq<usize> {
        Seq::empty()
    }

    fn forward(&mut self, inputs: Vec<Matrix>, runtime: &mut CudaRuntime) -> (r: Vec<Matrix>) {
        let ghost taken = ids(inputs@);
        let output = self.forward_owned(inputs, runtime);
        proof {
            lemma_one_held(output, *runtime);
            assert(self.footprint().union(taken) =~= taken);
            assert(self.footprint().union(ids(seq![output])) =~= set![output.buffer.id]);
        }
        single(output)
    }

    fn clear_cache(&mut self, runtime: &mut CudaRuntime) {
        proof {
            runtime.lemma_replaced_nothing(Set::empty());
        }
    }

    fn get_data(&self, runtime: &mut CudaRuntime) -> (r: Vec<HostRead>) {
        read_nothing(runtime)
    }

    fn set_data(&mut self, data: &mut HostDataCursor, runtime: &mut CudaRuntime) {
        proof {
            lemma_took_nothing(*runtime, *data, |id: usize| self.footprint().contains(id));
        }
    }
}

impl GraphNode for RowReduceNode {
    open spec fn footprint(self) -> Set<usize> {
        Set::empty()
    }

    open spec fn in_order(self, runtime: CudaRuntime) -> bool {
        true
    }

    open spec fn takes(self, runtime: CudaRuntime, inputs: Seq<Matrix>) -> bool {
        inputs.len() == 1 && inputs[0].cols > 0 && inputs[0].rows <= u32::MAX
    }

    open spec fn gives(
        self,
        end: Self,
        before: CudaRuntime,
        after: CudaRuntime,
        inputs: Seq<Matrix>,
        outputs: Seq<Matrix>,
    ) -> bool {
        &&& end == self
        &&& outputs.len() == 1
        &&& outputs[0].rows == inputs[0].rows
        &&& outputs[0].cols == 1
        &&& after.matrix(outputs[0]) == self.reduction.weighted(
            row_totals(
                before.matrix(inputs[0]),
                inputs[0].rows as nat,
                inputs[0].cols as nat,
            ),
            inputs[0].cols,
        )
    }

    open spec fn forgets(self, end: Self, before: CudaRuntime, after: CudaRuntime) -> bool {
        end == self && after == before
    }

    open spec fn data(self, runtime: CudaRuntime) -> Seq<Seq<Term>> {
        Seq::empty()
    }

    open spec fn data_sizes(self) -> Seq<usize> {
        Seq::empty()
    }

    fn forward(&mut self, inputs: Vec<Matrix>, runtime: &mut CudaRuntime) -> (r: Vec<Matrix>) {
        let input = take_single(inputs);
        proof {
            lemma_one(input);
        }
        let output = RowReduceNode::forward(self, input, runtime);
        proof {
            lemma_one_held(output, *runtime);
            assert(self.footprint().union(ids(seq![input])) =~= set![input.buffer.id]);
            assert(self.footprint().union(ids(seq![output])) =~= set![output.buffer.id]);
        }
        single(output)
    }

    fn clear_cache(&mut self, runtime: &mut CudaRuntime) {
        proof {
            runtime.lemma_replaced_nothing(Set::empty());
        }
    }

    fn get_data(&self, runtime: &mut CudaRuntime) -> (r: Vec<HostRead>) {
        read_nothing(runtime)
    }

    fn set_data(&mut self, data: &mut HostDataCursor, runtime: &mut CudaRuntime) {
        proof {
            lemma_took_nothing(*runtime, *data, |id: usize| self.footprint().contains(id));
        }
    }
}

impl GraphNode for ConcatNode {
    open spec fn footprint(self) -> Set<usize> {
        Set::empty()
    }

    open spec fn in_order(self, runtime: CudaRuntime) -> bool {
        true
    }

    open spec fn takes(self, runtime: CudaRuntime, inputs: Seq<Matrix>) -> bool {
        self.axis.joinable(shapes_of(inputs))
    }

    open spec fn gives(
        self,
        end: Self,
        before: CudaRuntime,
        after: CudaRuntime,
        inputs: Seq<Matrix>,
        outputs: Seq<Matrix>,
    ) -> bool {
        &&& end == self
        &&& outputs.len() == 1
        &&& self.axis.extent(outputs[0].rows, outputs[0].cols) == sum_of(
            self.axis.extents(shapes_of(inputs)),
        )
        &&& self.axis.breadth(outputs[0].rows, outputs[0].cols) == self.axis.breadth(
            inputs[0].rows,
            inputs[0].cols,
        )
        &&& after.matrix(outputs[0]) == self.axis.joined_along(
            values_of(before, inputs),
            shapes_of(inputs),
        )
    }

    open spec fn forgets(self, end: Self, before: CudaRuntime, after: CudaRuntime) -> bool {
        end == self && after == before
    }

    open spec fn data(self, runtime: CudaRuntime) -> Seq<Seq<Term>> {
        Seq::empty()
    }

    open spec fn data_sizes(self) -> Seq<usize> {
        Seq::empty()
    }

    fn forward(&mut self, inputs: Vec<Matrix>, runtime: &mut CudaRuntime) -> (r: Vec<Matrix>) {
        let ghost taken = ids(inputs@);
        let output = self.forward_owned(inputs, runtime);
        proof {
            lemma_one_held(output, *runtime);
            assert(self.footprint().union(taken) =~= taken);
            assert(self.footprint().union(ids(seq![output])) =~= set![output.buffer.id]);
        }
        single(output)
    }

    fn clear_cache(&mut self, runtime: &mut CudaRuntime) {
        proof {
            runtime.lemma_replaced_nothing(Set::empty());
        }
    }

    fn get_data(&self, runtime: &mut CudaRuntime) -> (r: Vec<HostRead>) {
        read_nothing(runtime)
    }

    fn set_data(&mut self, data: &mut HostDataCursor, runtime: &mut CudaRuntime) {
        proof {
            lemma_took_nothing(*runtime, *data, |id: usize| self.footprint().contains(id));
        }
    }
}

impl GraphNode for SplitNode {
    open spec fn footprint(self) -> Set<usize> {
        Set::empty()
    }

    open spec fn in_order(self, runtime: CudaRuntime) -> bool {
        true
    }

    open spec fn takes(self, runtime: CudaRuntime, inputs: Seq<Matrix>) -> bool {
        inputs.len() == 1 && partitions(
            self.sizes@,
            self.axis.extent(inputs[0].rows, inputs[0].cols) as int,
        )
    }

    open spec fn gives(
        self,
        end: Self,
        before: CudaRuntime,
        after: CudaRuntime,
        inputs: Seq<Matrix>,
        outputs: Seq<Matrix>,
    ) -> bool {
        &&& end == self
        &&& shapes_of(outputs) == part_shapes(
            self.axis,
            inputs[0].rows,
            inputs[0].cols,
            self.sizes@,
        )
        &&& values_of(after, outputs) == parts_along(
            self.axis,
            before.matrix(inputs[0]),
            inputs[0].rows as nat,
            inputs[0].cols as nat,
            self.sizes@,
        )
    }

    open spec fn forgets(self, end: Self, before: CudaRuntime, after: CudaRuntime) -> bool {
        end == self && after == before
    }

    open spec fn data(self, runtime: CudaRuntime) -> Seq<Seq<Term>> {
        Seq::empty()
    }

    open spec fn data_sizes(self) -> Seq<usize> {
        Seq::empty()
    }

    fn forward(&mut self, inputs: Vec<Matrix>, runtime: &mut CudaRuntime) -> (r: Vec<Matrix>) {
        let input = take_single(inputs);
        proof {
            lemma_one(input);
        }
        let outputs = SplitNode::forward(self, input, runtime);
        proof {
            assert(self.footprint().union(ids(seq![input])) =~= set![input.buffer.id]);
            assert(self.footprint().union(ids(outputs@)) =~= ids(outputs@));
        }
        outputs
    }

    fn clear_cache(&mut self, runtime: &mut CudaRuntime) {
        proof {
            runtime.lemma_replaced_nothing(Set::empty());
        }
    }

    fn get_data(&self, runtime: &mut CudaRuntime) -> (r: Vec<HostRead>) {
        read_nothing(runtime)
    }

    fn set_data(&mut self, data: &mut HostDataCursor, runtime: &mut CudaRuntime) {
        proof {
            lemma_took_nothing(*runtime, *data, |id: usize| self.footprint().contains(id));
        }
    }
}

impl GraphNode for FanOutNode {
    open spec fn footprint(self) -> Set<usize> {
        Set::empty()
    }

    open spec fn in_order(self, runtime: CudaRuntime) -> bool {
        self.output_count >= 2
    }

    open spec fn takes(self, runtime: CudaRuntime, inputs: Seq<Matrix>) -> bool {
        inputs.len() == 1
    }

    open spec fn gives(
        self,
        end: Self,
        before: CudaRuntime,
        after: CudaRuntime,
        inputs: Seq<Matrix>,
        outputs: Seq<Matrix>,
    ) -> bool {
        &&& end == self
        &&& outputs.len() == self.output_count
        &&& forall|k: int|
            0 <= k < outputs.len() ==> (#[trigger] outputs[k]).rows == inputs[0].rows
                && outputs[k].cols == inputs[0].cols && after.matrix(outputs[k])
                == self.mode.share(before.matrix(inputs[0]), self.output_count)
    }

    open spec fn forgets(self, end: Self, before: CudaRuntime, after: CudaRuntime) -> bool {
        end == self && after == before
    }

    open spec fn data(self, runtime: CudaRuntime) -> Seq<Seq<Term>> {
        Seq::empty()
    }

    open spec fn data_sizes(self) -> Seq<usize> {
        Seq::empty()
    }

    fn forward(&mut self, inputs: Vec<Matrix>, runtime: &mut CudaRuntime) -> (r: Vec<Matrix>) {
        let input = take_single(inputs);
        proof {
            lemma_one(input);
        }
        let outputs = FanOutNode::forward(self, input, runtime);
        proof {
            assert(self.footprint().union(ids(seq![input])) =~= set![input.buffer.id]);
            assert(self.footprint().union(ids(outputs@)) =~= ids(outputs@));
        }
        outputs
    }

    fn clear_cache(&mut self, runtime: &mut CudaRuntime) {
        proof {
            runtime.lemma_replaced_nothing(Set::empty());
        }
    }

    fn get_data(&self, runtime: &mut CudaRuntime) -> (r: Vec<HostRead>) {
        read_nothing(runtime)
    }

    fn set_data(&mut self, data: &mut HostDataCursor, runtime: &mut CudaRuntime) {
        proof {
            lemma_took_nothing(*runtime, *data, |id: usize| self.footprint().contains(id));
        }
    }
}

} // verus!
