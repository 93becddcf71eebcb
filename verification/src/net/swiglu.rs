//! Gated feed-forward blocks.

use vstd::prelude::*;

use crate::cuda::algebra::{apply, literals, product, zip, Term};
use crate::cuda::container::matrix::multipliable;
use crate::cuda::container::Matrix;
use crate::cuda::ops::{BinaryFn, MapFn};
use crate::cuda::runtime::{addressable, chosen, CudaRuntime};
use crate::graph::state::NodeTrainState;
use crate::net::activation::Activation;
use crate::net::linear::{lemma_read_out_append, Linear};
use crate::net::metadata::{HostDataCursor, HostRead};
use crate::net::node::{BinaryNode, BinaryOp, SingleNode, SingleType};

verus! {

broadcast use crate::cuda::runtime::group_streams;

/// Parameter block for `down(SiLU(gate(input)) * up(input))`.
pub struct Swiglu {
    pub gate: Linear,
    pub up: Linear,
    pub down: Linear,
}

/// What the block makes of its input.
pub open spec fn gated(
    x: Seq<Term>,
    gate: Seq<Term>,
    up: Seq<Term>,
    down: Seq<Term>,
    rows: nat,
    width: nat,
    hidden: nat,
    cols: nat,
) -> Seq<Term> {
    product(
        zip(
            BinaryFn::Mul,
            apply(MapFn::Activate(Activation::Silu), product(x, gate, rows, width, hidden)),
            product(x, up, rows, width, hidden),
        ),
        down,
        rows,
        hidden,
        cols,
    )
}

/// A layer of weights alone.
pub open spec fn plain(layer: Linear) -> bool {
    layer.bias is None && layer.activation is Identity
}

impl Swiglu {
    /// The weights of the block are alive, share no buffer and fit together.
    pub open spec fn wf(self, runtime: CudaRuntime) -> bool {
        &&& plain(self.gate) && plain(self.up) && plain(self.down)
        &&& runtime.holds(self.gate.weights)
        &&& runtime.holds(self.up.weights)
        &&& runtime.holds(self.down.weights)
        &&& self.gate.weights.buffer.id != self.up.weights.buffer.id
        &&& self.gate.weights.buffer.id != self.down.weights.buffer.id
        &&& self.up.weights.buffer.id != self.down.weights.buffer.id
        &&& self.up.weights.rows == self.gate.weights.rows
        &&& self.up.weights.cols == self.gate.weights.cols
        &&& self.down.weights.rows == self.gate.weights.cols
    }

    /// Inputs that the block accepts.
    pub open spec fn accepts(self, runtime: CudaRuntime, input: Matrix) -> bool {
        let rows = input.rows as int;
        let hidden = self.gate.weights.cols as int;
        let cols = self.down.weights.cols as int;
        &&& runtime.holds(input)
        &&& input.cols == self.gate.weights.rows
        &&& multipliable(rows, input.cols as int, hidden)
        &&& multipliable(rows, hidden, cols)
        &&& addressable(rows * hidden)
        &&& addressable(rows * cols)
    }

    /// What the block makes of a matrix.
    pub open spec fn image(self, runtime: CudaRuntime, x: Seq<Term>, rows: nat) -> Seq<Term> {
        gated(
            x,
            runtime.matrix(self.gate.weights),
            runtime.matrix(self.up.weights),
            runtime.matrix(self.down.weights),
            rows,
            self.gate.weights.rows as nat,
            self.gate.weights.cols as nat,
            self.down.weights.cols as nat,
        )
    }

    /// The parameters in checkpoint order.
    pub open spec fn parameters(self, runtime: CudaRuntime) -> Seq<Seq<Term>> {
        seq![
            runtime.matrix(self.gate.weights),
            runtime.matrix(self.up.weights),
            runtime.matrix(self.down.weights),
        ]
    }

    /// Whether a buffer belongs to the block.
    pub open spec fn owns(self, id: usize) -> bool {
        ||| id == self.gate.weights.buffer.id
        ||| id == self.up.weights.buffer.id
        ||| id == self.down.weights.buffer.id
    }

    pub fn new(gate: Matrix, up: Matrix, down: Matrix) -> (r: Swiglu)
        ensures
            r.gate == (Linear { weights: gate, bias: None, activation: Activation::Identity }),
            r.up == (Linear { weights: up, bias: None, activation: Activation::Identity }),
            r.down == (Linear { weights: down, bias: None, activation: Activation::Identity }),
    {
        Swiglu { gate: identity_linear(gate), up: identity_linear(up), down: identity_linear(down) }
    }

    #[verifier::rlimit(40)]
    pub fn forward(&self, input: &Matrix, runtime: &mut CudaRuntime) -> (r: Matrix)
        requires
            old(runtime).wf(),
            self.wf(*old(runtime)),
            self.accepts(*old(runtime), *input),
        ensures
            final(runtime).grown(*old(runtime), r.buffer.id, None),
            final(runtime).holds(r),
            r.rows == input.rows,
            r.cols == self.down.weights.cols,
            final(runtime).matrix(r) == self.image(
                *old(runtime),
                old(runtime).matrix(*input),
                input.rows as nat,
            ),
    {
        let ghost before = *runtime;
        let gate = self.gate.forward(input, None, runtime, None);
        let ghost s1 = *runtime;
        let gate = SingleNode::new(SingleType::Activation(Activation::Silu)).forward(gate, runtime);
        let ghost s2 = *runtime;
        proof {
            assert(s2.live@ =~= before.live@.insert(gate.buffer.id));
            assert(s2.keeps(before, Set::empty()));
            assert(s2.buffers@[input.buffer.id as int] == input.buffer.len);
            assert(s2.buffers@[self.up.weights.buffer.id as int] == self.up.weights.buffer.len);
        }
        let up = self.up.forward(input, None, runtime, None);
        let ghost s3 = *runtime;
        assert(s3.buffers@[gate.buffer.id as int] == gate.buffer.len);
        assert(s3.matrix(gate) == s2.matrix(gate));
        let mut both: Vec<Matrix> = Vec::new();
        both.push(gate);
        both.push(up);
        let ghost pair = both@;
        proof {
            assert(pair[0] == gate && pair[1] == up);
            assert(s3.holds_all(pair));
            assert(crate::cuda::container::ids(pair) =~= set![gate.buffer.id, up.buffer.id]) by {
                assert(crate::cuda::container::ids(pair).contains(pair[0].buffer.id));
                assert(crate::cuda::container::ids(pair).contains(pair[1].buffer.id));
            }
        }
        let hidden = BinaryNode::new(BinaryOp::Mul).forward_owned(both, runtime);
        let ghost s4 = *runtime;
        proof {
            assert(s4.live@ =~= before.live@.insert(hidden.buffer.id));
            assert(s4.keeps(before, Set::empty()));
            assert(s4.buffers@[self.down.weights.buffer.id as int]
                == self.down.weights.buffer.len);
        }
        let output = self.down.forward(&hidden, None, runtime, None);
        let ghost s5 = *runtime;
        assert(s5.buffers@[hidden.buffer.id as int] == hidden.buffer.len);
        runtime.recycle_matrix(hidden);
        proof {
            assert(runtime.ran_on(s5, chosen(None)));
            assert(runtime.live@ =~= before.live@.insert(output.buffer.id));
            assert(runtime.buffers@[output.buffer.id as int] == output.buffer.len);
            assert(runtime.keeps(before, Set::empty()));
        }
        output
    }

    /// Runs the block on a matrix and gives that back.
    pub fn forward_owned(&self, input: Matrix, runtime: &mut CudaRuntime) -> (r: Matrix)
        requires
            old(runtime).wf(),
            self.wf(*old(runtime)),
            self.accepts(*old(runtime), input),
        ensures
            final(runtime).exchanged(*old(runtime), set![input.buffer.id], set![r.buffer.id]),
            final(runtime).holds(r),
            r.rows == input.rows,
            r.cols == self.down.weights.cols,
            final(runtime).matrix(r) == self.image(
                *old(runtime),
                old(runtime).matrix(input),
                input.rows as nat,
            ),
    {
        let ghost before = *runtime;
        let output = self.forward(&input, runtime);
        let ghost s1 = *runtime;
        assert(s1.buffers@[input.buffer.id as int] == input.buffer.len);
        runtime.recycle_matrix(input);
        proof {
            assert(runtime.ran_on(s1, chosen(None)));
            assert(runtime.live@ =~= before.live@.difference(set![input.buffer.id]).union(
                set![output.buffer.id],
            ));
            assert(runtime.buffers@[output.buffer.id as int] == output.buffer.len);
            assert(runtime.keeps(before, set![input.buffer.id]));
        }
        output
    }

    /// Training state for the three layers.
    pub fn create_train_state(&self) -> (r: NodeTrainState)
        ensures
            r.is_fresh(0),
            r.children@.len() == 3,
            forall|i: int|
                0 <= i < 3 ==> (#[trigger] r.children@[i]).is_fresh(2),
    {
        let mut children: Vec<NodeTrainState> = Vec::new();
        children.push(self.gate.create_train_state());
        children.push(self.up.create_train_state());
        children.push(self.down.create_train_state());
        NodeTrainState::with_children(children)
    }

    /// Brings all parameters to the host in checkpoint order.
    pub fn get_data(&self, runtime: &mut CudaRuntime) -> (r: Vec<HostRead>)
        requires
            old(runtime).wf(),
            self.wf(*old(runtime)),
        ensures
            final(runtime).read_out(*old(runtime), r@, self.parameters(*old(runtime))),
    {
        let ghost before = *runtime;
        let mut data = self.gate.get_data(runtime);
        let ghost s1 = *runtime;
        let ghost r1 = data@;
        proof {
            assert(s1.buffers@[self.up.weights.buffer.id as int] == self.up.weights.buffer.len);
        }
        let mut next = self.up.get_data(runtime);
        let ghost s2 = *runtime;
        let ghost r2 = next@;
        proof {
            lemma_read_out_append(
                before,
                s1,
                s2,
                r1,
                r2,
                self.gate.parameters(before),
                self.up.parameters(before),
            );
            assert(s2.buffers@[self.down.weights.buffer.id as int]
                == self.down.weights.buffer.len);
        }
        data.append(&mut next);
        let mut next = self.down.get_data(runtime);
        proof {
            assert(data@ =~= r1 + r2);
            lemma_read_out_append(
                before,
                s2,
                *runtime,
                r1 + r2,
                next@,
                self.gate.parameters(before) + self.up.parameters(before),
                self.down.parameters(before),
            );
            assert(self.gate.parameters(before) + self.up.parameters(before)
                + self.down.parameters(before) =~= self.parameters(before));
            assert(data@ + next@ =~= r1 + r2 + next@);
        }
        data.append(&mut next);
        data
    }

    /// Whether a source goes on with values for all parameters.
    pub open spec fn fits(self, source: HostDataCursor) -> bool {
        &&& source.wf()
        &&& source.data@.len() >= 3
        &&& source.data@[0].values@.len() == self.gate.weights.buffer.len
        &&& source.data@[1].values@.len() == self.up.weights.buffer.len
        &&& source.data@[2].values@.len() == self.down.weights.buffer.len
    }

    /// What loading all parameters from a source does.
    pub open spec fn restored(
        self,
        before: CudaRuntime,
        after: CudaRuntime,
        source: HostDataCursor,
        rest: HostDataCursor,
    ) -> bool {
        &&& rest.wf()
        &&& rest.data@ == source.data@.skip(3)
        &&& rest.consumed == source.consumed + 3
        &&& after.wf()
        &&& after.live@ == before.live@
        &&& after.device@.downloads == before.device@.downloads
        &&& after.ran_on(before, chosen(None))
        &&& after.keeps_but(before, |id: usize| self.owns(id))
        &&& self.parameters(after) == seq![
            literals(source.data@[0].values@),
            literals(source.data@[1].values@),
            literals(source.data@[2].values@),
        ]
    }

    /// Replaces all parameters by the next ones of a source.
    pub fn set_data(&mut self, data: &mut HostDataCursor, runtime: &mut CudaRuntime)
        requires
            old(runtime).wf(),
            old(self).wf(*old(runtime)),
            old(self).fits(*old(data)),
        ensures
            *final(self) == *old(self),
            old(self).restored(*old(runtime), *final(runtime), *old(data), *final(data)),
    {
        self.restore(data, runtime);
    }

    /// The same through a shared borrow: only device memory changes.
    pub(crate) fn restore(&self, data: &mut HostDataCursor, runtime: &mut CudaRuntime)
        requires
            old(runtime).wf(),
            self.wf(*old(runtime)),
            self.fits(*old(data)),
        ensures
            self.restored(*old(runtime), *final(runtime), *old(data), *final(data)),
    {
        let ghost before = *runtime;
        let ghost block = *self;
        let ghost source = data.data@;
        self.gate.restore(data, runtime);
        let ghost s1 = *runtime;
        proof {
            assert(block.gate.parameters(s1)[0] == literals(source[0].values@));
            assert(data.data@ == source.skip(1));
            assert(s1.buffers@[block.up.weights.buffer.id as int] == block.up.weights.buffer.len);
            assert(s1.buffers@[block.down.weights.buffer.id as int]
                == block.down.weights.buffer.len);
        }
        self.up.restore(data, runtime);
        let ghost s2 = *runtime;
        proof {
            assert(block.up.parameters(s2)[0] == literals(source[1].values@));
            assert(data.data@ =~= source.skip(2));
            assert(s2.buffers@[block.down.weights.buffer.id as int]
                == block.down.weights.buffer.len);
            assert(s2.matrix(block.gate.weights) == s1.matrix(block.gate.weights));
        }
        self.down.restore(data, runtime);
        proof {
            assert(block.down.parameters(*runtime)[0] == literals(source[2].values@));
            assert(data.data@ =~= source.skip(3));
            assert(runtime.matrix(block.gate.weights) == s2.matrix(block.gate.weights));
            assert(runtime.matrix(block.up.weights) == s2.matrix(block.up.weights));
            assert(block.parameters(*runtime) =~= seq![
                literals(source[0].values@),
                literals(source[1].values@),
                literals(source[2].values@),
            ]);
            assert(runtime.keeps_but(before, |id: usize| block.owns(id)));
        }
    }
}

fn identity_linear(weights: Matrix) -> (r: Linear)
    ensures
        r == (Linear { weights, bias: None, activation: Activation::Identity }),
{
    Linear::new(weights, None, Activation::Identity)
}

} // verus!
