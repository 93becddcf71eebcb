//! Training state that lives outside the blocks it belongs to.

use vstd::prelude::*;

use crate::cuda::command::Stream;
use crate::cuda::container::{Matrix, Vector};
use crate::cuda::runtime::CudaRuntime;

verus! {

broadcast use crate::cuda::runtime::group_streams;

/// Forward state with the lifetime of one forward/backward pair.
pub struct NodeCache {
    pub inputs: Vec<Matrix>,
    pub outputs: Vec<Matrix>,
    pub input_shapes: Vec<(usize, usize)>,
    pub forward_pending: bool,
}

/// Parameter-sized storage whose lifetime spans optimizer steps.
pub enum ParameterBuffer {
    Matrix(Matrix),
    Vector(Vector),
}

/// What is known of one parameter between optimizer steps.
pub struct ParameterTrainState {
    pub gradient: Option<ParameterBuffer>,
    pub velocity: Option<ParameterBuffer>,
}

/// Training-only state paired with one otherwise inference-capable block.
pub struct NodeTrainState {
    pub cache: NodeCache,
    pub parameters: Vec<ParameterTrainState>,
    pub children: Vec<NodeTrainState>,
}

impl Default for NodeCache {
    fn default() -> (r: NodeCache)
        ensures
            r.is_clear(),
    {
        NodeCache {
            inputs: Vec::new(),
            outputs: Vec::new(),
            input_shapes: Vec::new(),
            forward_pending: false,
        }
    }
}

impl NodeCache {
    /// Nothing is retained and no backward is due.
    pub open spec fn is_clear(self) -> bool {
        &&& self.inputs@.len() == 0
        &&& self.outputs@.len() == 0
        &&& self.input_shapes@.len() == 0
        &&& !self.forward_pending
    }

    /// Everything retained, in the order in which it is given back.
    pub open spec fn retained(self) -> Seq<Matrix> {
        self.inputs@ + self.outputs@
    }
}

impl Default for ParameterTrainState {
    fn default() -> (r: ParameterTrainState)
        ensures
            r.gradient is None,
            r.velocity is None,
    {
        ParameterTrainState { gradient: None, velocity: None }
    }
}

impl Default for NodeTrainState {
    fn default() -> (r: NodeTrainState)
        ensures
            r.is_fresh(0),
            r.children@.len() == 0,
    {
        NodeTrainState {
            cache: NodeCache::default(),
            parameters: Vec::new(),
            children: Vec::new(),
        }
    }
}

/// Gives back every matrix of a list, first to last.
pub(crate) fn recycle_all(matrices: Vec<Matrix>, runtime: &mut CudaRuntime)
    requires
        old(runtime).wf(),
        old(runtime).holds_all(matrices@),
    ensures
        final(runtime).released(*old(runtime), matrices@),
{
    let ghost all = matrices@;
    let ghost before = *runtime;
    let mut left = matrices;
    proof {
        assert(left@ =~= all.skip(0));
        assert(all.take(0) =~= Seq::empty());
        assert forall|s: Stream| #[trigger] runtime.ran_on(before, s) by {
            runtime.lemma_ran_on_nothing(s);
        }
    }
    let ghost mut done: int = 0;
    while left.len() > 0
        invariant
            before.holds_all(all),
            0 <= done,
            done + left@.len() == all.len(),
            left@ == all.skip(done),
            runtime.released(before, all.take(done)),
        decreases left@.len(),
    {
        let ghost start = *runtime;
        let m = left.remove(0);
        proof {
            let i = done;
            assert(m == all[i]);
            assert(left@ =~= all.skip(i + 1));
            assert(before.holds(all[i]));
            assert(!crate::cuda::container::ids(all.take(i)).contains(m.buffer.id)) by {
                if crate::cuda::container::ids(all.take(i)).contains(m.buffer.id) {
                    let k = choose|k: int|
                        0 <= k < all.take(i).len() && (#[trigger] all.take(i)[k]).buffer.id
                            == m.buffer.id;
                    assert(all[k].buffer.id == all[i].buffer.id);
                }
            }
            assert(start.live@.contains(m.buffer.id));
            assert(start.buffers@[m.buffer.id as int] == m.buffer.len);
        }
        runtime.recycle_matrix(m);
        proof {
            runtime.lemma_released_push(start, before, all.take(done), m);
            assert(all.take(done).push(m) =~= all.take(done + 1));
            done = done + 1;
        }
    }
    assert(all.take(done) =~= all);
}

impl CudaRuntime {
    /// Whether all matrices are alive here, each with its own buffer.
    pub open spec fn holds_all(self, ms: Seq<Matrix>) -> bool {
        &&& crate::cuda::container::distinct(ms)
        &&& forall|k: int| #![trigger ms[k]] 0 <= k < ms.len() ==> self.holds(ms[k])
    }

    /// A later state in which the given matrices are no longer alive.
    pub open spec fn released(self, before: CudaRuntime, ms: Seq<Matrix>) -> bool {
        &&& self.wf()
        &&& forall|id: usize|
            #![trigger self.live@.contains(id)]
            self.live@.contains(id) <==> before.live@.contains(id)
                && !crate::cuda::container::ids(ms).contains(id)
        &&& self.keeps(before, crate::cuda::container::ids(ms))
        &&& self.device@.downloads == before.device@.downloads
        &&& forall|s: Stream| #[trigger] self.ran_on(before, s)
        &&& self.keeps_order(before)
    }

    /// One matrix more.
    pub proof fn lemma_released_push(
        self,
        middle: CudaRuntime,
        before: CudaRuntime,
        ms: Seq<Matrix>,
        m: Matrix,
    )
        requires
            middle.released(before, ms),
            self.shrunk(middle, m.buffer.id),
        ensures
            self.released(before, ms.push(m)),
    {
        let all = ms.push(m);
        assert forall|id: usize| #[trigger]
            crate::cuda::container::ids(all).contains(id)
                <==> crate::cuda::container::ids(ms).contains(id) || id == m.buffer.id by {
            assert(all[ms.len() as int] == m);
            if crate::cuda::container::ids(ms).contains(id) {
                let k = choose|k: int| 0 <= k < ms.len() && (#[trigger] ms[k]).buffer.id == id;
                assert(all[k].buffer.id == id);
            }
            if crate::cuda::container::ids(all).contains(id) && id != m.buffer.id {
                let k = choose|k: int| 0 <= k < all.len() && (#[trigger] all[k]).buffer.id == id;
                assert(ms[k].buffer.id == id);
            }
        }
        assert forall|s: Stream| #[trigger] self.ran_on(before, s) by {
            assert(middle.ran_on(before, s));
            assert(self.ran_on(middle, s));
        }
        assert forall|id: usize|
            #![trigger self.live@.contains(id)]
            self.live@.contains(id) <==> before.live@.contains(id)
                && !crate::cuda::container::ids(all).contains(id) by {
            assert(middle.live@.contains(id) <==> before.live@.contains(id)
                && !crate::cuda::container::ids(ms).contains(id));
        }
        assert forall|id: usize|
            #![trigger self.mem(id)]
            before.live@.contains(id) && !crate::cuda::container::ids(all).contains(
                id,
            ) implies self.mem(id) == before.mem(id) by {
            assert(middle.live@.contains(id));
            assert(self.mem(id) == middle.mem(id));
        }
    }
}

/// The buffers of two lists.
pub proof fn lemma_ids_append(a: Seq<Matrix>, b: Seq<Matrix>)
    ensures
        forall|id: usize| #[trigger]
            crate::cuda::container::ids(a + b).contains(id)
                <==> crate::cuda::container::ids(a).contains(id)
                || crate::cuda::container::ids(b).contains(id),
{
    let all = a + b;
    assert forall|id: usize| #[trigger]
        crate::cuda::container::ids(all).contains(id) <==> crate::cuda::container::ids(a).contains(
            id,
        ) || crate::cuda::container::ids(b).contains(id) by {
        if crate::cuda::container::ids(a).contains(id) {
            let k = choose|k: int| 0 <= k < a.len() && (#[trigger] a[k]).buffer.id == id;
            assert(all[k].buffer.id == id);
        }
        if crate::cuda::container::ids(b).contains(id) {
            let k = choose|k: int| 0 <= k < b.len() && (#[trigger] b[k]).buffer.id == id;
            assert(all[a.len() + k].buffer.id == id);
        }
        if crate::cuda::container::ids(all).contains(id) {
            let k = choose|k: int| 0 <= k < all.len() && (#[trigger] all[k]).buffer.id == id;
            if k < a.len() {
                assert(a[k].buffer.id == id);
            } else {
                assert(b[k - a.len()].buffer.id == id);
            }
        }
    }
}

impl CudaRuntime {
    /// Releasing one list and another is releasing both.
    pub proof fn lemma_released_append(
        self,
        middle: CudaRuntime,
        before: CudaRuntime,
        a: Seq<Matrix>,
        b: Seq<Matrix>,
    )
        requires
            middle.released(before, a),
            self.released(middle, b),
        ensures
            self.released(before, a + b),
    {
        lemma_ids_append(a, b);
        assert forall|s: Stream| #[trigger] self.ran_on(before, s) by {
            assert(middle.ran_on(before, s));
            assert(self.ran_on(middle, s));
        }
        assert forall|id: usize|
            #![trigger self.live@.contains(id)]
            self.live@.contains(id) <==> before.live@.contains(id)
                && !crate::cuda::container::ids(a + b).contains(id) by {
            assert(middle.live@.contains(id) <==> before.live@.contains(id)
                && !crate::cuda::container::ids(a).contains(id));
        }
        assert forall|id: usize|
            #![trigger self.mem(id)]
            before.live@.contains(id) && !crate::cuda::container::ids(a + b).contains(
                id,
            ) implies self.mem(id) == before.mem(id) by {
            assert(middle.live@.contains(id));
            assert(self.mem(id) == middle.mem(id));
        }
    }

    /// What remains of a list after its beginning was released.
    pub proof fn lemma_held_rest(self, before: CudaRuntime, a: Seq<Matrix>, b: Seq<Matrix>)
        requires
            before.holds_all(a + b),
            self.released(before, a),
        ensures
            self.holds_all(b),
    {
        let all = a + b;
        assert forall|k: int| 0 <= k < b.len() implies self.holds(#[trigger] b[k]) by {
            assert(all[a.len() + k] == b[k]);
            assert(before.holds(b[k]));
            assert(!crate::cuda::container::ids(a).contains(b[k].buffer.id)) by {
                if crate::cuda::container::ids(a).contains(b[k].buffer.id) {
                    let j = choose|j: int|
                        0 <= j < a.len() && (#[trigger] a[j]).buffer.id == b[k].buffer.id;
                    assert(all[j].buffer.id != all[a.len() + k].buffer.id);
                }
            }
            assert(self.live@.contains(b[k].buffer.id));
            assert(self.buffers@[b[k].buffer.id as int] == b[k].buffer.len);
        }
        assert forall|i: int, j: int| 0 <= i < j < b.len() implies (#[trigger] b[i]).buffer.id != (
        #[trigger] b[j]).buffer.id by {
            assert(all[a.len() + i].buffer.id != all[a.len() + j].buffer.id);
        }
    }

    /// The beginning of a held list is held.
    pub proof fn lemma_held_prefix(self, a: Seq<Matrix>, b: Seq<Matrix>)
        requires
            self.holds_all(a + b),
        ensures
            self.holds_all(a),
    {
        let all = a + b;
        assert forall|k: int| 0 <= k < a.len() implies self.holds(#[trigger] a[k]) by {
            assert(all[k] == a[k]);
        }
        assert forall|i: int, j: int| 0 <= i < j < a.len() implies (#[trigger] a[i]).buffer.id != (
        #[trigger] a[j]).buffer.id by {
            assert(all[i].buffer.id != all[j].buffer.id);
        }
    }
}

/// A list of states starts with the first and goes on with the rest.
pub proof fn lemma_retained_by_first(states: Seq<NodeTrainState>)
    requires
        states.len() > 0,
    ensures
        retained_by(states) == states[0].retained() + retained_by(states.drop_first()),
    decreases states.len(),
{
    if states.len() == 1 {
        assert(states.drop_last() =~= Seq::empty());
        assert(states.drop_first() =~= Seq::empty());
        assert(retained_by(Seq::<NodeTrainState>::empty()) =~= Seq::empty());
        assert(retained_by(states) =~= states[0].retained());
        assert(states[0].retained() + Seq::<Matrix>::empty() =~= states[0].retained());
    } else {
        let front = states.drop_last();
        lemma_retained_by_first(front);
        assert(front.drop_first() =~= states.drop_first().drop_last());
        assert(states.drop_first().last() == states.last());
        assert(retained_by(states) =~= states[0].retained() + retained_by(states.drop_first()));
    }
}

impl NodeTrainState {
    /// Nothing is cached, no gradient or velocity is known.
    pub open spec fn is_fresh(self, parameter_count: int) -> bool {
        &&& self.cache.is_clear()
        &&& self.parameters@.len() == parameter_count
        &&& forall|i: int|
            0 <= i < parameter_count ==> (#[trigger] self.parameters@[i]).gradient is None
                && self.parameters@[i].velocity is None
    }

    /// Every matrix cached here and in all descendants, in the order in which
    /// it is given back.
    pub open spec fn retained(self) -> Seq<Matrix>
        decreases self,
    {
        self.cache.retained() + retained_by(self.children@)
    }

    /// Nothing is cached here or in any descendant.
    pub open spec fn all_clear(self) -> bool
        decreases self,
    {
        self.cache.is_clear() && forall|i: int|
            #![trigger self.children@[i]]
            0 <= i < self.children@.len() ==> self.children@[i].all_clear()
    }

    /// Gradients and velocities are those of `before`, here and in all
    /// descendants.
    pub open spec fn same_parameters(self, before: NodeTrainState) -> bool
        decreases self,
    {
        &&& self.parameters == before.parameters
        &&& self.children@.len() == before.children@.len()
        &&& forall|i: int|
            #![trigger self.children@[i]]
            0 <= i < self.children@.len() ==> self.children@[i].same_parameters(
                before.children@[i],
            )
    }

    /// State of a block with this many parameters.
    pub fn with_parameter_count(parameter_count: usize) -> (r: NodeTrainState)
        ensures
            r.is_fresh(parameter_count as int),
            r.children@.len() == 0,
    {
        let mut parameters: Vec<ParameterTrainState> = Vec::new();
        let mut i: usize = 0;
        while i < parameter_count
            invariant
                i <= parameter_count,
                parameters@.len() == i,
                forall|k: int|
                    0 <= k < i ==> (#[trigger] parameters@[k]).gradient is None
                        && parameters@[k].velocity is None,
            decreases parameter_count - i,
        {
            parameters.push(ParameterTrainState::default());
            i = i + 1;
        }
        NodeTrainState { cache: NodeCache::default(), parameters, children: Vec::new() }
    }

    /// State of a block that is made of others.
    pub fn with_children(children: Vec<NodeTrainState>) -> (r: NodeTrainState)
        ensures
            r.is_fresh(0),
            r.children == children,
    {
        NodeTrainState { cache: NodeCache::default(), parameters: Vec::new(), children }
    }

    pub fn cache(&self) -> (r: &NodeCache)
        ensures
            *r == self.cache,
    {
        &self.cache
    }

    pub fn cache_mut(&mut self) -> (r: &mut NodeCache)
        ensures
            *r == old(self).cache,
            final(self).cache == *final(r),
            final(self).parameters == old(self).parameters,
            final(self).children == old(self).children,
    {
        &mut self.cache
    }

    pub fn children(&self) -> (r: &Vec<NodeTrainState>)
        ensures
            *r == self.children,
    {
        &self.children
    }

    pub fn children_mut(&mut self) -> (r: &mut Vec<NodeTrainState>)
        ensures
            *r == old(self).children,
            final(self).children == *final(r),
            final(self).parameters == old(self).parameters,
            final(self).cache == old(self).cache,
    {
        &mut self.children
    }

    /// Gives back everything cached here and in all descendants. Parameter
    /// state is kept.
    pub fn clear_cache(&mut self, runtime: &mut CudaRuntime)
        requires
            old(runtime).wf(),
            old(runtime).holds_all(old(self).retained()),
        ensures
            final(self).all_clear(),
            final(self).same_parameters(*old(self)),
            final(runtime).released(*old(runtime), old(self).retained()),
        decreases *old(self),
    {
        let ghost before = *runtime;
        let ghost start = *self;
        let ghost a = start.cache.inputs@;
        let ghost b = start.cache.outputs@;
        let ghost c = retained_by(start.children@);
        proof {
            assert(start.retained() =~= a + (b + c));
            runtime.lemma_held_prefix(a, b + c);
        }
        let mut inputs: Vec<Matrix> = Vec::new();
        std::mem::swap(&mut inputs, &mut self.cache.inputs);
        recycle_all(inputs, runtime);
        let ghost first = *runtime;
        proof {
            runtime.lemma_held_rest(before, a, b + c);
            runtime.lemma_held_prefix(b, c);
        }
        let mut outputs: Vec<Matrix> = Vec::new();
        std::mem::swap(&mut outputs, &mut self.cache.outputs);
        recycle_all(outputs, runtime);
        proof {
            runtime.lemma_held_rest(first, b, c);
            runtime.lemma_released_append(first, before, a, b);
        }
        let ghost second = *runtime;
        self.cache.input_shapes.clear();
        self.cache.forward_pending = false;
        let mut waiting: Vec<NodeTrainState> = Vec::new();
        std::mem::swap(&mut waiting, &mut self.children);
        let mut cleared: Vec<NodeTrainState> = Vec::new();
        let ghost all = start.children@;
        let ghost mut done: int = 0;
        let ghost mut given: Seq<Matrix> = Seq::empty();
        proof {
            assert(waiting@ =~= all.skip(0));
            assert(Seq::<Matrix>::empty() + c =~= c);
            assert forall|s: Stream| #[trigger] runtime.ran_on(second, s) by {
                runtime.lemma_ran_on_nothing(s);
            }
        }
        while waiting.len() > 0
            invariant
                start == *old(self),
                start.children@ == all,
                0 <= done,
                done + waiting@.len() == all.len(),
                waiting@ == all.skip(done),
                cleared@.len() == done,
                forall|k: int|
                    0 <= k < done ==> (#[trigger] cleared@[k]).all_clear()
                        && cleared@[k].same_parameters(all[k]),
                given + retained_by(waiting@) == c,
                second.holds_all(c),
                runtime.released(second, given),
            decreases waiting@.len(),
        {
            let ghost mid = *runtime;
            let ghost rest = waiting@;
            proof {
                lemma_retained_by_first(rest);
                runtime.lemma_held_rest(second, given, retained_by(rest));
                runtime.lemma_held_prefix(rest[0].retained(), retained_by(rest.drop_first()));
            }
            let mut child = waiting.remove(0);
            let ghost held = child.retained();
            proof {
                assert(child == all[done]);
                assert(waiting@ =~= rest.drop_first());
                assert(waiting@ =~= all.skip(done + 1));
                assert(decreases_to!(start => start.children));
                assert(decreases_to!(start.children => start.children@));
                assert(decreases_to!(start.children@ => start.children@[done]));
                assert(decreases_to!(start => start.children@[done]));
            }
            child.clear_cache(runtime);
            proof {
                runtime.lemma_released_append(mid, second, given, held);
                assert((given + held) + retained_by(waiting@) =~= given + retained_by(rest));
                given = given + held;
                done = done + 1;
            }
            cleared.push(child);
        }
        proof {
            assert(retained_by(waiting@) =~= Seq::empty());
            assert(given =~= c);
            runtime.lemma_released_append(second, before, a + b, c);
            assert((a + b) + c =~= start.retained());
        }
        self.children = cleared;
    }

    pub fn parameter_count(&self) -> (r: usize)
        ensures
            r == self.parameters@.len(),
    {
        self.parameters.len()
    }
}

/// Every matrix cached by a list of states.
pub open spec fn retained_by(states: Seq<NodeTrainState>) -> Seq<Matrix>
    decreases states, 0nat,
{
    if states.len() == 0 {
        Seq::empty()
    } else {
        retained_by(states.drop_last()) + states.last().retained()
    }
}

/// Graph-owned training arena. Its indices match the executable node list.
pub struct TrainState {
    pub nodes: Vec<NodeTrainState>,
}

impl Default for TrainState {
    fn default() -> (r: TrainState)
        ensures
            r.nodes@.len() == 0,
    {
        TrainState { nodes: Vec::new() }
    }
}

impl TrainState {
    pub fn new(nodes: Vec<NodeTrainState>) -> (r: TrainState)
        ensures
            r.nodes == nodes,
    {
        TrainState { nodes }
    }

    pub fn nodes(&self) -> (r: &Vec<NodeTrainState>)
        ensures
            *r == self.nodes,
    {
        &self.nodes
    }

    pub fn nodes_mut(&mut self) -> (r: &mut Vec<NodeTrainState>)
        ensures
            *r == old(self).nodes,
            final(self).nodes == *final(r),
    {
        &mut self.nodes
    }
}

} // verus!
