//! Operations on two or more matrices.

use vstd::prelude::*;

use super::structural::duplicate;
use super::{BinaryCache, BinaryNode, BinaryOp, TrainingBinaryNode};
use crate::cuda::algebra::{apply, product, transpose, zip, Term};
use crate::cuda::command::Stream;
use crate::cuda::container::matrix::{lemma_squares_fit, multipliable};
use crate::cuda::container::{ids, lemma_ids_push, values_of, Matrix};
use crate::cuda::ops::{BinaryFn, MapFn};
use crate::cuda::runtime::{addressable, chosen, CudaRuntime};
use crate::cuda::scalar::{Scalar, F32, MINUS_ONE_BITS};
use crate::graph::state::{lemma_ids_append, recycle_all};

verus! {

broadcast use crate::cuda::runtime::group_streams;

/// The sum of the first `n` of several matrices, from left to right.
pub open spec fn sum_of_first(values: Seq<Seq<Term>>, n: int) -> Seq<Term>
    decreases n,
{
    if n <= 1 {
        values[0]
    } else {
        zip(BinaryFn::Add, sum_of_first(values, n - 1), values[n - 1])
    }
}

/// The matrices behind references.
pub open spec fn referenced(ms: Seq<&Matrix>) -> Seq<Matrix> {
    Seq::new(ms.len(), |k: int| *ms[k])
}

/// Minus one.
pub open spec fn minus_one() -> Scalar {
    Scalar::Literal(F32 { bits: MINUS_ONE_BITS })
}

impl BinaryOp {
    /// How many inputs the operation takes.
    pub open spec fn takes(self, count: nat) -> bool {
        count >= 2 && (!(self is Add) ==> count == 2)
    }

    /// Whether shapes fit the operation.
    pub open spec fn fits(self, inputs: Seq<Matrix>) -> bool {
        if self is MatMul {
            inputs[0].cols == inputs[1].rows
        } else {
            forall|k: int|
                #![trigger inputs[k]]
                0 <= k < inputs.len() ==> inputs[k].rows == inputs[0].rows && inputs[k].cols
                    == inputs[0].cols
        }
    }

    /// Inputs that the operation accepts: a matrix product also has to fit the
    /// device.
    pub open spec fn accepts(self, inputs: Seq<Matrix>) -> bool {
        &&& self.takes(inputs.len())
        &&& self.fits(inputs)
        &&& self is MatMul ==> multipliable(
            inputs[0].rows as int,
            inputs[0].cols as int,
            inputs[1].cols as int,
        ) && addressable(inputs[0].rows * inputs[1].cols)
    }

    /// The rows of the result.
    pub open spec fn out_rows(self, inputs: Seq<Matrix>) -> usize {
        inputs[0].rows
    }

    /// The columns of the result.
    pub open spec fn out_cols(self, inputs: Seq<Matrix>) -> usize {
        if self is MatMul {
            inputs[1].cols
        } else {
            inputs[0].cols
        }
    }

    /// What the operation makes of its inputs.
    pub open spec fn image(self, runtime: CudaRuntime, inputs: Seq<Matrix>) -> Seq<Term> {
        let values = values_of(runtime, inputs);
        match self {
            BinaryOp::Add => sum_of_first(values, inputs.len() as int),
            BinaryOp::Sub => zip(BinaryFn::Sub, values[0], values[1]),
            BinaryOp::Mul => zip(BinaryFn::Mul, values[0], values[1]),
            BinaryOp::Div => zip(BinaryFn::Div, values[0], values[1]),
            BinaryOp::MatMul => product(
                values[0],
                values[1],
                inputs[0].rows as nat,
                inputs[0].cols as nat,
                inputs[1].cols as nat,
            ),
        }
    }

    /// Whether the derivative depends on the inputs.
    pub open spec fn saves_inputs(self) -> bool {
        self is Mul || self is Div || self is MatMul
    }

    /// The gradient of input `k`, given that of the output.
    pub open spec fn pullback(
        self,
        runtime: CudaRuntime,
        inputs: Seq<Matrix>,
        gradient: Seq<Term>,
        k: int,
    ) -> Seq<Term> {
        let values = values_of(runtime, inputs);
        match self {
            BinaryOp::Add => gradient,
            BinaryOp::Sub => if k == 0 {
                gradient
            } else {
                apply(MapFn::Scale(minus_one()), gradient)
            },
            BinaryOp::Mul => zip(BinaryFn::Mul, gradient, values[1 - k]),
            BinaryOp::Div => if k == 0 {
                zip(BinaryFn::Div, gradient, values[1])
            } else {
                apply(
                    MapFn::Scale(minus_one()),
                    zip(
                        BinaryFn::Div,
                        zip(BinaryFn::Mul, gradient, values[0]),
                        zip(BinaryFn::Mul, values[1], values[1]),
                    ),
                )
            },
            BinaryOp::MatMul => if k == 0 {
                product(
                    gradient,
                    transpose(values[1], inputs[1].rows as nat, inputs[1].cols as nat),
                    inputs[0].rows as nat,
                    inputs[1].cols as nat,
                    inputs[0].cols as nat,
                )
            } else {
                product(
                    transpose(values[0], inputs[0].rows as nat, inputs[0].cols as nat),
                    gradient,
                    inputs[0].cols as nat,
                    inputs[0].rows as nat,
                    inputs[1].cols as nat,
                )
            },
        }
    }
}

/// Live matrices stay live while others are made.
proof fn lemma_held_on(before: CudaRuntime, after: CudaRuntime, m: Matrix)
    requires
        before.wf(),
        before.holds(m),
        after.live@.contains(m.buffer.id),
        after.keeps(before, Set::empty()),
    ensures
        after.holds(m),
        after.matrix(m) == before.matrix(m),
{
    assert(after.buffers@[m.buffer.id as int] == before.buffers@[m.buffer.id as int]);
}

impl BinaryNode {
    pub fn new(op: BinaryOp) -> (r: BinaryNode)
        ensures
            r.op == op,
    {
        BinaryNode { op }
    }

    pub fn op(&self) -> (r: BinaryOp)
        ensures
            r == self.op,
    {
        self.op
    }

    /// Executes without retaining state. `Add` accepts two or more inputs;
    /// every other operation accepts exactly two.
    pub fn forward(&self, inputs: &Vec<&Matrix>, runtime: &mut CudaRuntime) -> (r: Matrix)
        requires
            old(runtime).wf(),
            forall|k: int|
                0 <= k < inputs@.len() ==> old(runtime).holds(*#[trigger] inputs@[k]),
            self.op.accepts(referenced(inputs@)),
        ensures
            final(runtime).grown(*old(runtime), r.buffer.id, None),
            final(runtime).holds(r),
            r.rows == self.op.out_rows(referenced(inputs@)),
            r.cols == self.op.out_cols(referenced(inputs@)),
            final(runtime).matrix(r) == self.op.image(*old(runtime), referenced(inputs@)),
    {
        let ghost before = *runtime;
        let ghost all = referenced(inputs@);
        let ghost values = values_of(before, all);
        proof {
            assert(all[0] == *inputs@[0] && all[1] == *inputs@[1]);
        }
        let mut output = match self.op {
            BinaryOp::Add => runtime.matrix_add(inputs[0], inputs[1], None),
            BinaryOp::Sub => runtime.matrix_sub(inputs[0], inputs[1], None),
            BinaryOp::Mul => runtime.matrix_mul(inputs[0], inputs[1], None),
            BinaryOp::Div => runtime.matrix_div(inputs[0], inputs[1], None),
            BinaryOp::MatMul => runtime.matrix_multiply(inputs[0], inputs[1], None),
        };
        if let BinaryOp::Add = self.op {
            let mut index: usize = 2;
            let ghost first = output;
            proof {
                reveal_with_fuel(sum_of_first, 3);
                assert(runtime.matrix(output) == sum_of_first(values, 2));
            }
            while index < inputs.len()
                invariant
                    2 <= index <= inputs@.len(),
                    all == referenced(inputs@),
                    values == values_of(before, all),
                    before.wf(),
                    forall|k: int| 0 <= k < inputs@.len() ==> before.holds(*#[trigger] inputs@[k]),
                    self.op is Add,
                    self.op.fits(all),
                    output == first,
                    output.rows == all[0].rows,
                    output.cols == all[0].cols,
                    runtime.grown(before, output.buffer.id, None),
                    runtime.holds(output),
                    runtime.matrix(output) == sum_of_first(values, index as int),
                decreases inputs@.len() - index,
            {
                let ghost s0 = *runtime;
                proof {
                    assert(all[index as int] == *inputs@[index as int]);
                    lemma_held_on(before, s0, *inputs@[index as int]);
                }
                output.binary_assign(inputs[index], BinaryFn::Add, runtime, None);
                proof {
                    assert(runtime.buffers@[output.buffer.id as int] == output.buffer.len);
                    assert(values[index as int] == s0.matrix(*inputs@[index as int]));
                    assert(runtime.keeps(before, Set::empty()));
                }
                index = index + 1;
            }
        }
        output
    }

    /// Consuming variant used between owned network outputs. Element-wise
    /// operations reuse the first input; a matrix product allocates its
    /// differently shaped output. Consumed storage is returned to the pool.
    pub fn forward_owned(&self, inputs: Vec<Matrix>, runtime: &mut CudaRuntime) -> (r: Matrix)
        requires
            old(runtime).wf(),
            old(runtime).holds_all(inputs@),
            self.op.accepts(inputs@),
        ensures
            final(runtime).exchanged(*old(runtime), ids(inputs@), set![r.buffer.id]),
            final(runtime).holds(r),
            r.rows == self.op.out_rows(inputs@),
            r.cols == self.op.out_cols(inputs@),
            final(runtime).matrix(r) == self.op.image(*old(runtime), inputs@),
            !(self.op is MatMul) ==> r == inputs@[0],
    {
        match self.op {
            BinaryOp::Add => add_owned(inputs, runtime),
            BinaryOp::Sub => combine_owned(inputs, BinaryFn::Sub, runtime),
            BinaryOp::Mul => combine_owned(inputs, BinaryFn::Mul, runtime),
            BinaryOp::Div => combine_owned(inputs, BinaryFn::Div, runtime),
            BinaryOp::MatMul => {
                let ghost before = *runtime;
                let output = runtime.matrix_multiply(&inputs[0], &inputs[1], None);
                let ghost s1 = *runtime;
                proof {
                    assert forall|k: int| #![trigger inputs@[k]] 0 <= k < inputs@.len() implies s1.holds(
                        inputs@[k],
                    ) by {
                        lemma_held_on(before, s1, inputs@[k]);
                    }
                    assert(!ids(inputs@).contains(output.buffer.id));
                }
                let ghost taken = ids(inputs@);
                recycle_all(inputs, runtime);
                proof {
                    assert(runtime.ran_on(s1, chosen(None)));
                    assert forall|k: int| #![trigger inputs@[k]] 0 <= k < inputs@.len() implies before.live@.contains(
                        inputs@[k].buffer.id,
                    ) by {}
                    assert(runtime.live@ =~= before.live@.difference(taken).union(
                        set![output.buffer.id],
                    ));
                    assert(runtime.buffers@[output.buffer.id as int] == output.buffer.len);
                    assert(runtime.keeps(before, taken));
                }
                output
            },
        }
    }
}

/// Adds the other matrices to the first and gives them back.
fn add_owned(inputs: Vec<Matrix>, runtime: &mut CudaRuntime) -> (r: Matrix)
    requires
        old(runtime).wf(),
        old(runtime).holds_all(inputs@),
        BinaryOp::Add.accepts(inputs@),
    ensures
        final(runtime).exchanged(*old(runtime), ids(inputs@), set![r.buffer.id]),
        final(runtime).holds(r),
        r == inputs@[0],
        final(runtime).matrix(r) == sum_of_first(
            values_of(*old(runtime), inputs@),
            inputs@.len() as int,
        ),
{
    let ghost before = *runtime;
    let ghost all = inputs@;
    let ghost values = values_of(before, all);
    let mut left = inputs;
    let mut output = left.remove(0);
    let ghost first = output;
    let ghost mut done: int = 1;
    proof {
        runtime.lemma_ran_on_nothing(chosen(None));
        assert(before.holds(all[0]));
        assert(left@ =~= all.skip(1));
    }
    while left.len() > 0
        invariant
            before.wf(),
            runtime.wf(),
            before.holds_all(all),
            BinaryOp::Add.fits(all),
            values == values_of(before, all),
            1 <= done,
            done + left@.len() == all.len(),
            left@ == all.skip(done),
            output == first,
            first == all[0],
            runtime.holds(output),
            runtime.matrix(output) == sum_of_first(values, done),
            runtime.ran_on(before, chosen(None)),
            runtime.device@.downloads == before.device@.downloads,
            runtime.keeps(before, ids(all.take(done))),
            forall|id: usize|
                #![trigger runtime.live@.contains(id)]
                runtime.live@.contains(id) <==> id == first.buffer.id || before.live@.contains(id)
                    && !ids(all.take(done)).contains(id),
        decreases left@.len(),
    {
        let ghost s0 = *runtime;
        let input = left.remove(0);
        let ghost i = done;
        proof {
            assert(input == all[i]);
            assert(left@ =~= all.skip(i + 1));
            assert(before.holds(all[i]));
            assert(all[i].buffer.id != all[0].buffer.id);
            assert(!ids(all.take(i)).contains(input.buffer.id)) by {
                if ids(all.take(i)).contains(input.buffer.id) {
                    let k = choose|k: int|
                        0 <= k < all.take(i).len() && (#[trigger] all.take(i)[k]).buffer.id
                            == input.buffer.id;
                    assert(all[k].buffer.id == all[i].buffer.id);
                }
            }
            assert(s0.live@.contains(input.buffer.id));
            assert(s0.buffers@[input.buffer.id as int] == input.buffer.len);
            assert(s0.matrix(input) == values[i]);
        }
        output.binary_assign(&input, BinaryFn::Add, runtime, None);
        let ghost s1 = *runtime;
        assert(s1.buffers@[input.buffer.id as int] == input.buffer.len);
        runtime.recycle_matrix(input);
        proof {
            assert(runtime.ran_on(s1, chosen(None)));
            assert(runtime.buffers@[output.buffer.id as int] == output.buffer.len);
            assert(ids(all.take(i + 1)) =~= ids(all.take(i)).insert(input.buffer.id)) by {
                lemma_ids_push(all.take(i), all[i]);
                assert(all.take(i).push(all[i]) =~= all.take(i + 1));
            }
            assert(ids(all.take(i)).contains(first.buffer.id)) by {
                assert(all.take(i)[0].buffer.id == first.buffer.id);
            }
            done = done + 1;
        }
    }
    proof {
        assert(all.take(done) =~= all);
        assert(ids(all).contains(first.buffer.id)) by {
            assert(all[0].buffer.id == first.buffer.id);
        }
        assert(runtime.live@ =~= before.live@.difference(ids(all)).union(set![output.buffer.id]));
    }
    output
}

/// Combines the second of two matrices into the first and gives it back.
fn combine_owned(inputs: Vec<Matrix>, f: BinaryFn, runtime: &mut CudaRuntime) -> (r: Matrix)
    requires
        old(runtime).wf(),
        old(runtime).holds_all(inputs@),
        inputs@.len() == 2,
        inputs@[0].rows == inputs@[1].rows,
        inputs@[0].cols == inputs@[1].cols,
    ensures
        final(runtime).exchanged(*old(runtime), ids(inputs@), set![r.buffer.id]),
        final(runtime).holds(r),
        r == inputs@[0],
        final(runtime).matrix(r) == zip(
            f,
            old(runtime).matrix(inputs@[0]),
            old(runtime).matrix(inputs@[1]),
        ),
{
    let ghost before = *runtime;
    let ghost all = inputs@;
    let mut inputs = inputs;
    let rhs = inputs.remove(1);
    let mut output = inputs.remove(0);
    proof {
        assert(rhs == all[1] && output == all[0]);
        assert(before.holds(all[0]) && before.holds(all[1]));
    }
    output.binary_assign(&rhs, f, runtime, None);
    let ghost s1 = *runtime;
    assert(s1.buffers@[rhs.buffer.id as int] == rhs.buffer.len);
    runtime.recycle_matrix(rhs);
    proof {
        assert(runtime.ran_on(s1, chosen(None)));
        assert(runtime.buffers@[output.buffer.id as int] == output.buffer.len);
        assert(ids(all) =~= set![all[0].buffer.id, all[1].buffer.id]) by {
            assert(ids(all).contains(all[0].buffer.id));
            assert(ids(all).contains(all[1].buffer.id));
        }
        assert(runtime.live@ =~= before.live@.difference(ids(all)).union(set![output.buffer.id]));
        assert(runtime.keeps(before, ids(all)));
    }
    output
}

impl TrainingBinaryNode {
    pub fn new(op: BinaryOp) -> (r: TrainingBinaryNode)
        ensures
            r.node.op == op,
            r.input_count == 0,
            !r.forward_pending,
            r.cache is None,
    {
        TrainingBinaryNode {
            node: BinaryNode::new(op),
            input_count: 0,
            forward_pending: false,
            cache: None,
        }
    }

    pub fn op(&self) -> (r: BinaryOp)
        ensures
            r == self.node.op,
    {
        self.node.op()
    }

    /// The matrices that the node retains.
    pub open spec fn retained(self) -> Seq<Matrix> {
        match self.cache {
            Some(BinaryCache::Inputs(inputs)) => inputs@,
            None => Seq::empty(),
        }
    }

    /// The node retains what its derivative needs, and only between a forward
    /// and its backward pass.
    pub open spec fn wf(self, runtime: CudaRuntime) -> bool {
        &&& self.cache is Some <==> self.forward_pending && self.node.op.saves_inputs()
        &&& self.forward_pending ==> self.node.op.takes(self.input_count as nat)
        &&& runtime.holds_all(self.retained())
        &&& self.cache is Some ==> self.retained().len() == 2 && self.node.op.accepts(
            self.retained(),
        )
    }

    /// Whether the gradient has the shape of the output, and a matrix product
    /// can be differentiated on the device.
    pub open spec fn accepts_gradient(self, gradient: Matrix) -> bool {
        &&& self.cache is Some ==> gradient.rows == self.node.op.out_rows(self.retained())
            && gradient.cols == self.node.op.out_cols(self.retained())
        &&& self.node.op is MatMul ==> multipliable(
            gradient.rows as int,
            gradient.cols as int,
            self.retained()[0].cols as int,
        ) && multipliable(
            self.retained()[0].cols as int,
            gradient.rows as int,
            gradient.cols as int,
        )
    }

    /// Consumes branch outputs. Operations whose derivatives depend on their
    /// operands retain ownership; `Add` and `Sub` retain no forward values.
    pub fn forward(&mut self, inputs: Vec<Matrix>, runtime: &mut CudaRuntime) -> (r: Matrix)
        requires
            old(runtime).wf(),
            old(self).wf(*old(runtime)),
            old(runtime).holds_all(old(self).retained() + inputs@),
            old(self).node.op.accepts(inputs@),
        ensures
            final(self).node == old(self).node,
            final(self).forward_pending,
            final(self).input_count == inputs@.len(),
            final(self).wf(*final(runtime)),
            final(self).retained() == if old(self).node.op.saves_inputs() {
                inputs@
            } else {
                Seq::empty()
            },
            final(runtime).exchanged(
                *old(runtime),
                ids(old(self).retained() + inputs@),
                ids(final(self).retained()).insert(r.buffer.id),
            ),
            final(runtime).holds(r),
            !ids(final(self).retained()).contains(r.buffer.id),
            r.rows == old(self).node.op.out_rows(inputs@),
            r.cols == old(self).node.op.out_cols(inputs@),
            final(runtime).matrix(r) == old(self).node.op.image(*old(runtime), inputs@),
            values_of(*final(runtime), final(self).retained()) == values_of(
                *old(runtime),
                final(self).retained(),
            ),
    {
        let ghost before = *runtime;
        let ghost start = *self;
        let ghost all = inputs@;
        let ghost taken = ids(start.retained() + all);
        proof {
            runtime.lemma_held_prefix(start.retained(), all);
            lemma_ids_append(start.retained(), all);
        }
        self.clear_cache(runtime);
        let ghost s0 = *runtime;
        proof {
            s0.lemma_held_rest(before, start.retained(), all);
            assert forall|k: int| #![trigger all[k]] 0 <= k < all.len() implies s0.matrix(all[k])
                == before.matrix(all[k]) && before.live@.contains(all[k].buffer.id) by {
                assert(s0.holds(all[k]));
            }
            assert(values_of(s0, all) =~= values_of(before, all));
        }
        self.input_count = inputs.len();
        self.forward_pending = true;
        let output = match self.node.op {
            BinaryOp::Add | BinaryOp::Sub => {
                let output = self.node.forward_owned(inputs, runtime);
                proof {
                    assert(runtime.live@ =~= before.live@.difference(taken).union(
                        ids(Seq::<Matrix>::empty()).insert(output.buffer.id),
                    ));
                    assert(ids(all).contains(all[0].buffer.id));
                }
                output
            },
            op => {
                let output = match op {
                    BinaryOp::Mul => runtime.matrix_mul(&inputs[0], &inputs[1], None),
                    BinaryOp::Div => runtime.matrix_div(&inputs[0], &inputs[1], None),
                    _ => runtime.matrix_multiply(&inputs[0], &inputs[1], None),
                };
                proof {
                    assert(!ids(all).contains(output.buffer.id));
                    assert(runtime.live@ =~= before.live@.difference(taken).union(
                        ids(all).insert(output.buffer.id),
                    ));
                    assert forall|k: int| #![trigger all[k]] 0 <= k < all.len() implies runtime.holds(
                        all[k],
                    ) && runtime.matrix(all[k]) == before.matrix(all[k]) by {
                        lemma_held_on(s0, *runtime, all[k]);
                    }
                    assert(values_of(*runtime, all) =~= values_of(before, all));
                }
                self.cache = Some(BinaryCache::Inputs(inputs));
                output
            },
        };
        proof {
            assert(s0.ran_on(before, chosen(None)));
            assert(runtime.keeps(before, taken));
        }
        output
    }

    /// Borrowed training path for operations whose derivatives do not need
    /// their forward operands.
    pub fn forward_borrowed(&mut self, inputs: &Vec<&Matrix>, runtime: &mut CudaRuntime) -> (r: Matrix)
        requires
            old(runtime).wf(),
            old(self).wf(*old(runtime)),
            old(self).node.op is Add || old(self).node.op is Sub,
            forall|k: int|
                0 <= k < inputs@.len() ==> old(runtime).holds(*#[trigger] inputs@[k]),
            old(self).node.op.accepts(referenced(inputs@)),
        ensures
            final(self).node == old(self).node,
            final(self).forward_pending,
            final(self).input_count == inputs@.len(),
            final(self).cache is None,
            final(runtime).grown(*old(runtime), r.buffer.id, None),
            final(runtime).holds(r),
            r.rows == old(self).node.op.out_rows(referenced(inputs@)),
            r.cols == old(self).node.op.out_cols(referenced(inputs@)),
            final(runtime).matrix(r) == old(self).node.op.image(*old(runtime), referenced(inputs@)),
    {
        let ghost before = *runtime;
        let ghost start = *self;
        self.clear_cache(runtime);
        let ghost s0 = *runtime;
        proof {
            assert(start.retained() =~= Seq::empty());
            assert(s0.live@ =~= before.live@);
            assert forall|k: int| 0 <= k < inputs@.len() implies s0.holds(*#[trigger] inputs@[k])
                && s0.matrix(*inputs@[k]) == before.matrix(*inputs@[k]) by {
                lemma_held_on(before, s0, *inputs@[k]);
            }
            assert(values_of(s0, referenced(inputs@)) =~= values_of(before, referenced(inputs@)));
        }
        let output = self.node.forward(inputs, runtime);
        self.input_count = inputs.len();
        self.forward_pending = true;
        assert(s0.ran_on(before, chosen(None)));
        output
    }

    /// Consumes the upstream gradient and returns one gradient per input in
    /// the same order as forward.
    #[verifier::rlimit(40)]
    pub fn backward(&mut self, output_gradient: Matrix, runtime: &mut CudaRuntime) -> (r: Vec<Matrix>)
        requires
            old(runtime).wf(),
            old(self).wf(*old(runtime)),
            old(self).forward_pending,
            old(runtime).holds_all(old(self).retained().push(output_gradient)),
            old(self).accepts_gradient(output_gradient),
        ensures
            final(self).node == old(self).node,
            final(self).input_count == old(self).input_count,
            !final(self).forward_pending,
            final(self).cache is None,
            r@.len() == old(self).input_count,
            final(runtime).holds_all(r@),
            final(runtime).exchanged(
                *old(runtime),
                ids(old(self).retained().push(output_gradient)),
                ids(r@),
            ),
            forall|k: int|
                0 <= k < r@.len() ==> final(runtime).matrix(#[trigger] r@[k])
                    == old(self).node.op.pullback(
                    *old(runtime),
                    old(self).retained(),
                    old(runtime).matrix(output_gradient),
                    k,
                ),
            forall|k: int|
                0 <= k < r@.len() ==> (old(self).cache is None ==> (#[trigger] r@[k]).rows
                    == output_gradient.rows && r@[k].cols == output_gradient.cols) && (old(self).cache is Some ==> r@[k].rows == old(self).retained()[k].rows && r@[k].cols
                    == old(self).retained()[k].cols),
    {
        let ghost before = *runtime;
        let ghost start = *self;
        let ghost held = start.retained();
        proof {
            assert(held.push(output_gradient)[held.len() as int] == output_gradient);
            assert(held + seq![output_gradient] =~= held.push(output_gradient));
            lemma_ids_push(held, output_gradient);
        }
        self.forward_pending = false;
        let cache = self.cache.take();
        match (self.node.op, cache) {
            (BinaryOp::Mul, Some(BinaryCache::Inputs(inputs))) => {
                backward_mul(inputs, output_gradient, runtime)
            },
            (BinaryOp::Div, Some(BinaryCache::Inputs(inputs))) => {
                backward_div(inputs, output_gradient, runtime)
            },
            (BinaryOp::MatMul, Some(BinaryCache::Inputs(inputs))) => {
                backward_product(inputs, output_gradient, runtime)
            },
            (BinaryOp::Sub, _) => {
                let mut output_gradient = output_gradient;
                let lhs_gradient = runtime.clone_matrix(&output_gradient, None);
                let ghost s1 = *runtime;
                proof {
                    assert(s1.buffers@[output_gradient.buffer.id as int]
                        == output_gradient.buffer.len);
                }
                output_gradient.scale(
                    Scalar::Literal(F32 { bits: MINUS_ONE_BITS }),
                    runtime,
                    None,
                );
                let mut gradients: Vec<Matrix> = Vec::new();
                gradients.push(lhs_gradient);
                gradients.push(output_gradient);
                proof {
                    let all = gradients@;
                    assert(all[0] == lhs_gradient && all[1] == output_gradient);
                    assert(runtime.buffers@[lhs_gradient.buffer.id as int]
                        == lhs_gradient.buffer.len);
                    assert(runtime.buffers@[output_gradient.buffer.id as int]
                        == output_gradient.buffer.len);
                    assert(ids(all) =~= set![lhs_gradient.buffer.id, output_gradient.buffer.id]) by {
                        assert(ids(all).contains(all[0].buffer.id));
                        assert(ids(all).contains(all[1].buffer.id));
                    }
                    assert(ids(held.push(output_gradient)) =~= set![output_gradient.buffer.id]);
                    assert(runtime.live@ =~= before.live@.difference(
                        ids(held.push(output_gradient)),
                    ).union(ids(all)));
                    assert(runtime.matrix(lhs_gradient) == s1.matrix(lhs_gradient));
                    assert(runtime.keeps(before, ids(held.push(output_gradient))));
                }
                gradients
            },
            _ => {
                proof {
                    assert(start.node.op is Add);
                }
                let gradients = duplicate(output_gradient, self.input_count, runtime);
                assert(ids(held.push(output_gradient)) =~= set![output_gradient.buffer.id]);
                gradients
            },
        }
    }

    pub fn clear_cache(&mut self, runtime: &mut CudaRuntime)
        requires
            old(runtime).wf(),
            old(runtime).holds_all(old(self).retained()),
        ensures
            final(self).node == old(self).node,
            final(self).input_count == 0,
            !final(self).forward_pending,
            final(self).cache is None,
            final(runtime).released(*old(runtime), old(self).retained()),
    {
        proof {
            assert forall|s: Stream| #[trigger] runtime.ran_on(*runtime, s) by {
                runtime.lemma_ran_on_nothing(s);
            }
        }
        if let Some(BinaryCache::Inputs(inputs)) = self.cache.take() {
            recycle_all(inputs, runtime);
        }
        self.input_count = 0;
        self.forward_pending = false;
    }
}

/// Two matrices in order.
fn pair(first: Matrix, second: Matrix) -> (r: Vec<Matrix>)
    ensures
        r@ == seq![first, second],
        ids(r@) == set![first.buffer.id, second.buffer.id],
{
    let mut both: Vec<Matrix> = Vec::new();
    both.push(first);
    both.push(second);
    proof {
        assert(ids(both@) =~= set![first.buffer.id, second.buffer.id]) by {
            assert(both@[0] == first && both@[1] == second);
            assert(ids(both@).contains(both@[0].buffer.id));
            assert(ids(both@).contains(both@[1].buffer.id));
        }
    }
    both
}

/// What a backward pass owes for two retained inputs.
pub open spec fn paid_back(
    op: BinaryOp,
    before: CudaRuntime,
    after: CudaRuntime,
    inputs: Seq<Matrix>,
    gradient: Matrix,
    r: Seq<Matrix>,
) -> bool {
    &&& r.len() == 2
    &&& after.holds_all(r)
    &&& after.exchanged(before, ids(inputs.push(gradient)), ids(r))
    &&& forall|k: int|
        0 <= k < 2 ==> (#[trigger] r[k]).rows == inputs[k].rows && r[k].cols == inputs[k].cols
            && after.matrix(r[k]) == op.pullback(before, inputs, before.matrix(gradient), k)
}

/// Gives the gradient back, and the inputs, first to last.
fn recycle_backward_inputs(output_gradient: Matrix, inputs: Vec<Matrix>, runtime: &mut CudaRuntime)
    requires
        old(runtime).wf(),
        old(runtime).holds_all(inputs@.push(output_gradient)),
    ensures
        final(runtime).released(*old(runtime), inputs@.push(output_gradient)),
{
    let ghost before = *runtime;
    let ghost all = inputs@;
    proof {
        assert(all.push(output_gradient)[all.len() as int] == output_gradient);
        lemma_ids_push(all, output_gradient);
    }
    runtime.recycle_matrix(output_gradient);
    let ghost s1 = *runtime;
    proof {
        assert forall|k: int| #![trigger all[k]] 0 <= k < all.len() implies s1.holds(all[k]) by {
            assert(all.push(output_gradient)[k] == all[k]);
            assert(before.holds(all[k]));
            assert(all[k].buffer.id != output_gradient.buffer.id);
            assert(s1.buffers@[all[k].buffer.id as int] == all[k].buffer.len);
        }
        assert forall|i: int, j: int|
            #![trigger all[i], all[j]]
            0 <= i < j < all.len() implies all[i].buffer.id != all[j].buffer.id by {
            assert(all.push(output_gradient)[i] == all[i]);
            assert(all.push(output_gradient)[j] == all[j]);
        }
    }
    recycle_all(inputs, runtime);
    proof {
        assert forall|s: Stream| #[trigger] runtime.ran_on(before, s) by {
            assert(s1.ran_on(before, s));
            assert(runtime.ran_on(s1, s));
        }
    }
}

/// The end of a backward pass: two gradients were made from matrices that are
/// now given back.
proof fn lemma_paid_back(
    op: BinaryOp,
    before: CudaRuntime,
    made: CudaRuntime,
    after: CudaRuntime,
    inputs: Seq<Matrix>,
    gradient: Matrix,
    lhs: Matrix,
    rhs: Matrix,
)
    requires
        before.wf(),
        inputs.len() == 2,
        before.holds_all(inputs.push(gradient)),
        made.grown_by(before, seq![lhs, rhs], None),
        after.released(made, inputs.push(gradient)),
        lhs.rows == inputs[0].rows && lhs.cols == inputs[0].cols,
        rhs.rows == inputs[1].rows && rhs.cols == inputs[1].cols,
        made.matrix(lhs) == op.pullback(before, inputs, before.matrix(gradient), 0),
        made.matrix(rhs) == op.pullback(before, inputs, before.matrix(gradient), 1),
    ensures
        paid_back(op, before, after, inputs, gradient, seq![lhs, rhs]),
{
    let all = inputs.push(gradient);
    let r = seq![lhs, rhs];
    assert(r[0] == lhs && r[1] == rhs);
    assert forall|id: usize| #![trigger ids(all).contains(id)] ids(all).contains(id) implies before.live@.contains(
        id,
    ) by {
        let k = choose|k: int| 0 <= k < all.len() && (#[trigger] all[k]).buffer.id == id;
        assert(before.holds(all[k]));
    }
    assert forall|id: usize| #![trigger ids(r).contains(id)] ids(r).contains(id) implies !before.live@.contains(
        id,
    ) by {
        let k = choose|k: int| 0 <= k < r.len() && (#[trigger] r[k]).buffer.id == id;
    }
    assert(ids(r).contains(lhs.buffer.id)) by {
        assert(r[0].buffer.id == lhs.buffer.id);
    }
    assert(ids(r).contains(rhs.buffer.id)) by {
        assert(r[1].buffer.id == rhs.buffer.id);
    }
    assert forall|k: int| #![trigger r[k]] 0 <= k < r.len() implies after.holds(r[k])
        && after.matrix(r[k]) == made.matrix(r[k]) by {
        assert(made.holds(r[k]));
        assert(!ids(all).contains(r[k].buffer.id));
        assert(after.buffers@[r[k].buffer.id as int] == made.buffers@[r[k].buffer.id as int]);
    }
    assert(after.live@ =~= before.live@.difference(ids(all)).union(ids(r)));
    assert(after.ran_on(made, chosen(None)));
    assert(after.keeps(before, ids(all)));
}

fn backward_mul(inputs: Vec<Matrix>, output_gradient: Matrix, runtime: &mut CudaRuntime) -> (r: Vec<
    Matrix,
>)
    requires
        old(runtime).wf(),
        inputs@.len() == 2,
        BinaryOp::Mul.fits(inputs@),
        old(runtime).holds_all(inputs@.push(output_gradient)),
        output_gradient.rows == inputs@[0].rows,
        output_gradient.cols == inputs@[0].cols,
    ensures
        paid_back(
            BinaryOp::Mul,
            *old(runtime),
            *final(runtime),
            inputs@,
            output_gradient,
            r@,
        ),
{
    let ghost before = *runtime;
    let ghost all = inputs@;
    proof {
        assert(all.push(output_gradient)[0] == all[0]);
        assert(all.push(output_gradient)[1] == all[1]);
        assert(all.push(output_gradient)[2] == output_gradient);
    }
    let lhs_gradient = runtime.matrix_mul(&output_gradient, &inputs[1], None);
    let ghost s1 = *runtime;
    proof {
        lemma_held_on(before, s1, output_gradient);
        lemma_held_on(before, s1, all[0]);
    }
    let rhs_gradient = runtime.matrix_mul(&output_gradient, &inputs[0], None);
    let ghost s2 = *runtime;
    proof {
        lemma_two_made(before, s1, s2, lhs_gradient, rhs_gradient);
        lemma_held_through(before, s2, all.push(output_gradient));
    }
    recycle_backward_inputs(output_gradient, inputs, runtime);
    proof {
        lemma_paid_back(
            BinaryOp::Mul,
            before,
            s2,
            *runtime,
            all,
            output_gradient,
            lhs_gradient,
            rhs_gradient,
        );
    }
    pair(lhs_gradient, rhs_gradient)
}

/// Two matrices made one after the other.
proof fn lemma_two_made(before: CudaRuntime, first: CudaRuntime, second: CudaRuntime, a: Matrix, b: Matrix)
    requires
        before.wf(),
        first.grown(before, a.buffer.id, None),
        first.holds(a),
        second.grown(first, b.buffer.id, None),
        second.holds(b),
    ensures
        second.grown_by(before, seq![a, b], None),
        second.matrix(a) == first.matrix(a),
{
    let none = Seq::<Matrix>::empty();
    assert(ids(none) =~= Set::empty());
    before.lemma_ran_on_nothing(chosen(None));
    assert(before.grown_by(before, none, None));
    first.lemma_grown_by_push(before, before, none, a, None);
    second.lemma_grown_by_push(first, before, none.push(a), b, None);
    assert(none.push(a).push(b) =~= seq![a, b]);
    assert(none.push(a)[0] == a);
}

/// Live matrices stay live while others are made.
proof fn lemma_held_through(before: CudaRuntime, after: CudaRuntime, ms: Seq<Matrix>)
    requires
        before.wf(),
        before.holds_all(ms),
        after.keeps(before, Set::empty()),
        forall|id: usize|
            #![trigger after.live@.contains(id)]
            before.live@.contains(id) ==> after.live@.contains(id),
    ensures
        after.holds_all(ms),
{
    assert forall|k: int| #![trigger ms[k]] 0 <= k < ms.len() implies after.holds(ms[k]) by {
        lemma_held_on(before, after, ms[k]);
    }
}

/// The gradients of a quotient's operands.
#[verifier::rlimit(40)]
fn quotient_gradients(
    numerator: &Matrix,
    denominator: &Matrix,
    gradient: &Matrix,
    runtime: &mut CudaRuntime,
) -> (r: (Matrix, Matrix))
    requires
        old(runtime).wf(),
        old(runtime).holds(*numerator),
        old(runtime).holds(*denominator),
        old(runtime).holds(*gradient),
        numerator.rows == gradient.rows && numerator.cols == gradient.cols,
        denominator.rows == gradient.rows && denominator.cols == gradient.cols,
    ensures
        final(runtime).grown_by(*old(runtime), seq![r.0, r.1], None),
        r.0.rows == gradient.rows && r.0.cols == gradient.cols,
        r.1.rows == gradient.rows && r.1.cols == gradient.cols,
        final(runtime).matrix(r.0) == zip(
            BinaryFn::Div,
            old(runtime).matrix(*gradient),
            old(runtime).matrix(*denominator),
        ),
        final(runtime).matrix(r.1) == apply(
            MapFn::Scale(minus_one()),
            zip(
                BinaryFn::Div,
                zip(
                    BinaryFn::Mul,
                    old(runtime).matrix(*gradient),
                    old(runtime).matrix(*numerator),
                ),
                zip(
                    BinaryFn::Mul,
                    old(runtime).matrix(*denominator),
                    old(runtime).matrix(*denominator),
                ),
            ),
        ),
{
    let ghost before = *runtime;
    let lhs_gradient = runtime.matrix_div(gradient, denominator, None);
    let ghost s1 = *runtime;
    proof {
        lemma_held_on(before, s1, *denominator);
        lemma_held_on(before, s1, *gradient);
        lemma_held_on(before, s1, *numerator);
    }
    let square = runtime.matrix_mul(denominator, denominator, None);
    let ghost s2 = *runtime;
    proof {
        lemma_held_on(s1, s2, *gradient);
        lemma_held_on(s1, s2, *numerator);
        lemma_held_on(s1, s2, lhs_gradient);
    }
    let dividend = runtime.matrix_mul(gradient, numerator, None);
    let ghost s3 = *runtime;
    proof {
        lemma_held_on(s2, s3, square);
        lemma_held_on(s2, s3, lhs_gradient);
    }
    let mut rhs_gradient = runtime.matrix_div(&dividend, &square, None);
    let ghost s4 = *runtime;
    proof {
        lemma_held_on(s3, s4, square);
        lemma_held_on(s3, s4, dividend);
        lemma_held_on(s3, s4, lhs_gradient);
    }
    rhs_gradient.scale(Scalar::Literal(F32 { bits: MINUS_ONE_BITS }), runtime, None);
    let ghost s5 = *runtime;
    proof {
        assert(s5.buffers@[square.buffer.id as int] == square.buffer.len);
        assert(s5.buffers@[dividend.buffer.id as int] == dividend.buffer.len);
        assert(s5.buffers@[lhs_gradient.buffer.id as int] == lhs_gradient.buffer.len);
        assert(s5.buffers@[rhs_gradient.buffer.id as int] == rhs_gradient.buffer.len);
        assert(s5.matrix(lhs_gradient) == s4.matrix(lhs_gradient));
    }
    runtime.recycle_matrix(square);
    let ghost s6 = *runtime;
    proof {
        assert(s6.ran_on(s5, chosen(None)));
        assert(s6.buffers@[dividend.buffer.id as int] == dividend.buffer.len);
    }
    runtime.recycle_matrix(dividend);
    proof {
        assert(runtime.ran_on(s6, chosen(None)));
        let r = seq![lhs_gradient, rhs_gradient];
        assert(r[0] == lhs_gradient && r[1] == rhs_gradient);
        assert(runtime.buffers@[lhs_gradient.buffer.id as int] == lhs_gradient.buffer.len);
        assert(runtime.buffers@[rhs_gradient.buffer.id as int] == rhs_gradient.buffer.len);
        assert(ids(r) =~= set![lhs_gradient.buffer.id, rhs_gradient.buffer.id]) by {
            assert(ids(r).contains(r[0].buffer.id));
            assert(ids(r).contains(r[1].buffer.id));
        }
        assert(runtime.matrix(lhs_gradient) == s5.matrix(lhs_gradient));
        assert(runtime.matrix(rhs_gradient) == s5.matrix(rhs_gradient));
        assert(runtime.keeps(before, Set::empty()));
        assert(runtime.live@ =~= before.live@.insert(lhs_gradient.buffer.id).insert(
            rhs_gradient.buffer.id,
        ));
    }
    (lhs_gradient, rhs_gradient)
}

fn backward_div(inputs: Vec<Matrix>, output_gradient: Matrix, runtime: &mut CudaRuntime) -> (r: Vec<
    Matrix,
>)
    requires
        old(runtime).wf(),
        inputs@.len() == 2,
        BinaryOp::Div.fits(inputs@),
        old(runtime).holds_all(inputs@.push(output_gradient)),
        output_gradient.rows == inputs@[0].rows,
        output_gradient.cols == inputs@[0].cols,
    ensures
        paid_back(
            BinaryOp::Div,
            *old(runtime),
            *final(runtime),
            inputs@,
            output_gradient,
            r@,
        ),
{
    let ghost before = *runtime;
    let ghost all = inputs@;
    proof {
        assert(all.push(output_gradient)[0] == all[0]);
        assert(all.push(output_gradient)[1] == all[1]);
        assert(all.push(output_gradient)[2] == output_gradient);
    }
    let (lhs_gradient, rhs_gradient) = quotient_gradients(
        &inputs[0],
        &inputs[1],
        &output_gradient,
        runtime,
    );
    let ghost made = *runtime;
    proof {
        lemma_held_through(before, made, all.push(output_gradient));
    }
    recycle_backward_inputs(output_gradient, inputs, runtime);
    proof {
        lemma_paid_back(
            BinaryOp::Div,
            before,
            made,
            *runtime,
            all,
            output_gradient,
            lhs_gradient,
            rhs_gradient,
        );
    }
    pair(lhs_gradient, rhs_gradient)
}

/// The gradients of a matrix product's operands.
#[verifier::rlimit(40)]
fn product_gradients(lhs: &Matrix, rhs: &Matrix, gradient: &Matrix, runtime: &mut CudaRuntime) -> (r: (
    Matrix,
    Matrix,
))
    requires
        old(runtime).wf(),
        old(runtime).holds(*lhs),
        old(runtime).holds(*rhs),
        old(runtime).holds(*gradient),
        lhs.cols == rhs.rows,
        gradient.rows == lhs.rows,
        gradient.cols == rhs.cols,
        multipliable(gradient.rows as int, gradient.cols as int, lhs.cols as int),
        multipliable(lhs.cols as int, gradient.rows as int, gradient.cols as int),
    ensures
        final(runtime).grown_by(*old(runtime), seq![r.0, r.1], None),
        r.0.rows == lhs.rows && r.0.cols == lhs.cols,
        r.1.rows == rhs.rows && r.1.cols == rhs.cols,
        final(runtime).matrix(r.0) == product(
            old(runtime).matrix(*gradient),
            transpose(old(runtime).matrix(*rhs), rhs.rows as nat, rhs.cols as nat),
            lhs.rows as nat,
            rhs.cols as nat,
            lhs.cols as nat,
        ),
        final(runtime).matrix(r.1) == product(
            transpose(old(runtime).matrix(*lhs), lhs.rows as nat, lhs.cols as nat),
            old(runtime).matrix(*gradient),
            lhs.cols as nat,
            lhs.rows as nat,
            rhs.cols as nat,
        ),
{
    let ghost before = *runtime;
    proof {
        before.lemma_whole(lhs.buffer);
        before.lemma_whole(rhs.buffer);
        lemma_squares_fit(gradient.rows as int, lhs.cols as int);
        lemma_squares_fit(lhs.cols as int, gradient.cols as int);
    }
    let rhs_t = runtime.matrix_transpose(rhs, None);
    let ghost s1 = *runtime;
    proof {
        lemma_held_on(before, s1, *gradient);
        lemma_held_on(before, s1, *lhs);
    }
    let lhs_gradient = runtime.matrix_multiply(gradient, &rhs_t, None);
    let ghost s2 = *runtime;
    proof {
        lemma_held_on(s1, s2, *gradient);
        lemma_held_on(s1, s2, *lhs);
        lemma_held_on(s1, s2, rhs_t);
    }
    let lhs_t = runtime.matrix_transpose(lhs, None);
    let ghost s3 = *runtime;
    proof {
        lemma_held_on(s2, s3, *gradient);
        lemma_held_on(s2, s3, lhs_gradient);
        lemma_held_on(s2, s3, rhs_t);
    }
    let rhs_gradient = runtime.matrix_multiply(&lhs_t, gradient, None);
    let ghost s4 = *runtime;
    proof {
        lemma_held_on(s3, s4, lhs_t);
        lemma_held_on(s3, s4, rhs_t);
        lemma_held_on(s3, s4, lhs_gradient);
    }
    runtime.recycle_matrix(rhs_t);
    let ghost s5 = *runtime;
    proof {
        assert(s5.ran_on(s4, chosen(None)));
        assert(s5.buffers@[lhs_t.buffer.id as int] == lhs_t.buffer.len);
    }
    runtime.recycle_matrix(lhs_t);
    proof {
        assert(runtime.ran_on(s5, chosen(None)));
        let r = seq![lhs_gradient, rhs_gradient];
        assert(r[0] == lhs_gradient && r[1] == rhs_gradient);
        assert(runtime.buffers@[lhs_gradient.buffer.id as int] == lhs_gradient.buffer.len);
        assert(runtime.buffers@[rhs_gradient.buffer.id as int] == rhs_gradient.buffer.len);
        assert(ids(r) =~= set![lhs_gradient.buffer.id, rhs_gradient.buffer.id]) by {
            assert(ids(r).contains(r[0].buffer.id));
            assert(ids(r).contains(r[1].buffer.id));
        }
        assert(runtime.matrix(lhs_gradient) == s4.matrix(lhs_gradient));
        assert(runtime.matrix(rhs_gradient) == s4.matrix(rhs_gradient));
        assert(runtime.keeps(before, Set::empty()));
        assert(runtime.live@ =~= before.live@.insert(lhs_gradient.buffer.id).insert(
            rhs_gradient.buffer.id,
        ));
    }
    (lhs_gradient, rhs_gradient)
}

fn backward_product(inputs: Vec<Matrix>, output_gradient: Matrix, runtime: &mut CudaRuntime) -> (r: Vec<
    Matrix,
>)
    requires
        old(runtime).wf(),
        inputs@.len() == 2,
        BinaryOp::MatMul.fits(inputs@),
        old(runtime).holds_all(inputs@.push(output_gradient)),
        output_gradient.rows == inputs@[0].rows,
        output_gradient.cols == inputs@[1].cols,
        multipliable(
            output_gradient.rows as int,
            output_gradient.cols as int,
            inputs@[0].cols as int,
        ),
        multipliable(
            inputs@[0].cols as int,
            output_gradient.rows as int,
            output_gradient.cols as int,
        ),
    ensures
        paid_back(
            BinaryOp::MatMul,
            *old(runtime),
            *final(runtime),
            inputs@,
            output_gradient,
            r@,
        ),
{
    let ghost before = *runtime;
    let ghost all = inputs@;
    proof {
        assert(all.push(output_gradient)[0] == all[0]);
        assert(all.push(output_gradient)[1] == all[1]);
        assert(all.push(output_gradient)[2] == output_gradient);
    }
    let (lhs_gradient, rhs_gradient) = product_gradients(
        &inputs[0],
        &inputs[1],
        &output_gradient,
        runtime,
    );
    let ghost made = *runtime;
    proof {
        lemma_held_through(before, made, all.push(output_gradient));
    }
    recycle_backward_inputs(output_gradient, inputs, runtime);
    proof {
        lemma_paid_back(
            BinaryOp::MatMul,
            before,
            made,
            *runtime,
            all,
            output_gradient,
            lhs_gradient,
            rhs_gradient,
        );
    }
    pair(lhs_gradient, rhs_gradient)
}

} // verus!
