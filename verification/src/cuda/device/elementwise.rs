//! Kernels that treat every element on its own. A thread handles the elements
//! at its index and at every further stride of the grid.

use vstd::prelude::*;

use super::reduction::{computes, computes_map};
use crate::cuda::arith::lemma_row_col;

verus! {

/// Whether an executable function of an index computes a mathematical one.
pub open spec fn computes_fill<T, F: Fn(usize) -> T>(f: F, g: spec_fn(int) -> T) -> bool {
    forall|i: usize, r: T| #[trigger] call_ensures(f, (i,), r) ==> r == g(i as int)
}

/// The element of a thread's turn.
pub open spec fn turn_of(thread: int, stride: int, turn: int) -> int {
    thread + stride * turn
}

/// Whether a thread handles an element: the threads take turns along the
/// elements, each as often as it has elements to handle.
pub open spec fn handles(thread: int, stride: int, elements_per_thread: int, i: int) -> bool {
    i % stride == thread && i / stride < elements_per_thread
}

/// What a thread's turns make of elements: those that it handles get a new value, which may
/// depend on the index and the old one, and the others stay.
pub open spec fn turned<T>(
    before: Seq<T>,
    after: Seq<T>,
    thread: int,
    stride: int,
    elements_per_thread: int,
    value: spec_fn(int, T) -> T,
) -> bool {
    &&& after.len() == before.len()
    &&& forall|i: int|
        0 <= i < before.len() ==> #[trigger] after[i] == if handles(
            thread,
            stride,
            elements_per_thread,
            i,
        ) {
            value(i, before[i])
        } else {
            before[i]
        }
}

/// Where threads enough are launched, exactly one handles an element, and it
/// does so in exactly one of its turns.
pub proof fn law_every_element_is_handled_once(
    len: int,
    stride: int,
    elements_per_thread: int,
    i: int,
)
    requires
        0 <= i < len,
        stride > 0,
        len <= stride * elements_per_thread,
    ensures
        0 <= i % stride < stride,
        handles(i % stride, stride, elements_per_thread, i),
        forall|thread: int| #[trigger]
            handles(thread, stride, elements_per_thread, i) ==> thread == i % stride,
        forall|thread: int, turn: int|
            0 <= thread < stride && i == #[trigger] turn_of(thread, stride, turn) ==> turn == i
                / stride,
{
    vstd::arithmetic::div_mod::lemma_fundamental_div_mod(i, stride);
    let q = i / stride;
    assert(q < elements_per_thread) by (nonlinear_arith)
        requires
            stride * q <= i,
            i < stride * elements_per_thread,
            stride > 0,
    ;
    assert forall|thread: int, turn: int|
        0 <= thread < stride && i == #[trigger] turn_of(thread, stride, turn) implies turn == i
        / stride by {
        assert(stride * turn == turn * stride) by (nonlinear_arith);
        lemma_row_col(turn, thread, stride);
    }
}

/// The element of a thread's turn.
fn element_of(thread_index: usize, stride: usize, iteration: usize, Ghost(last): Ghost<int>) -> (r:
    usize)
    requires
        thread_index < stride,
        iteration < last,
        stride * last <= usize::MAX,
    ensures
        r == turn_of(thread_index as int, stride as int, iteration as int),
        r as int % stride as int == thread_index,
        r as int / stride as int == iteration,
{
    proof {
        let s = stride as int;
        let n = iteration as int;
        assert(s * n + s <= s * last && 0 <= s * n && s * n == n * s) by (nonlinear_arith)
            requires
                n + 1 <= last,
                s >= 0,
                n >= 0,
        ;
        lemma_row_col(n, thread_index as int, s);
    }
    thread_index + stride * iteration
}

/// Fills the thread's elements with a function of their index.
pub fn span_set_device<T, F: Fn(usize) -> T>(
    target: &mut Vec<T>,
    thread_index: usize,
    stride: usize,
    elements_per_thread: usize,
    f: F,
)
    requires
        thread_index < stride,
        stride * elements_per_thread <= usize::MAX,
        forall|i: usize| i < old(target)@.len() ==> #[trigger] call_requires(f, (i,)),
    ensures
        final(target)@.len() == old(target)@.len(),
        forall|i: usize|
            #![trigger final(target)@[i as int]]
            i < old(target)@.len() && handles(
                thread_index as int,
                stride as int,
                elements_per_thread as int,
                i as int,
            ) ==> call_ensures(f, (i,), final(target)@[i as int]),
        forall|i: int|
            0 <= i < old(target)@.len() && !handles(
                thread_index as int,
                stride as int,
                elements_per_thread as int,
                i,
            ) ==> #[trigger] final(target)@[i] == old(target)@[i],
        forall|m: spec_fn(int) -> T| #[trigger]
            computes_fill(f, m) ==> turned(
                old(target)@,
                final(target)@,
                thread_index as int,
                stride as int,
                elements_per_thread as int,
                |i: int, x: T| m(i),
            ),
{
    let ghost start = target@;
    let mut iteration: usize = 0;
    while iteration < elements_per_thread
        invariant
            iteration <= elements_per_thread,
            thread_index < stride,
            stride * elements_per_thread <= usize::MAX,
            target@.len() == start.len(),
            forall|i: usize| i < start.len() ==> #[trigger] call_requires(f, (i,)),
            forall|i: usize|
                #![trigger target@[i as int]]
                i < start.len() && handles(
                    thread_index as int,
                    stride as int,
                    iteration as int,
                    i as int,
                ) ==> call_ensures(f, (i,), target@[i as int]),
            forall|i: int|
                0 <= i < start.len() && !handles(
                    thread_index as int,
                    stride as int,
                    iteration as int,
                    i,
                ) ==> #[trigger] target@[i] == start[i],
        decreases elements_per_thread - iteration,
    {
        let index: usize = element_of(
            thread_index,
            stride,
            iteration,
            Ghost(elements_per_thread as int),
        );
        proof {
            lemma_turn(thread_index as int, stride as int, iteration as int, index as int);
        }
        if index < target.len() {
            let value = f(index);
            target.set(index, value);
        }
        iteration = iteration + 1;
    }
    let len: usize = target.len();
    proof {
        assert forall|m: spec_fn(int) -> T| #[trigger] computes_fill(f, m) implies turned(
            start,
            target@,
            thread_index as int,
            stride as int,
            elements_per_thread as int,
            |i: int, x: T| m(i),
        ) by {
            assert forall|i: int| 0 <= i < start.len() implies #[trigger] target@[i] == if handles(
                thread_index as int,
                stride as int,
                elements_per_thread as int,
                i,
            ) {
                m(i)
            } else {
                start[i]
            } by {
                let at = i as usize;
                assert(target@[at as int] == target@[i]);
            }
        }
    }
}

/// A turn adds exactly one element to those handled.
proof fn lemma_turn(thread: int, stride: int, turn: int, index: int)
    requires
        0 <= thread < stride,
        index == turn_of(thread, stride, turn),
        index % stride == thread,
        index / stride == turn,
    ensures
        forall|i: int|
            #![trigger handles(thread, stride, turn, i)]
            #![trigger handles(thread, stride, turn + 1, i)]
            0 <= i ==> (handles(thread, stride, turn + 1, i) <==> handles(thread, stride, turn, i)
                || i == index),
{
    assert forall|i: int|
        #![trigger handles(thread, stride, turn, i)]
        #![trigger handles(thread, stride, turn + 1, i)]
        0 <= i implies (handles(thread, stride, turn + 1, i) <==> handles(thread, stride, turn, i)
        || i == index) by {
        vstd::arithmetic::div_mod::lemma_fundamental_div_mod(i, stride);
    }
}

/// Combines two sources into the thread's elements of a target.
pub fn slice_binary_device<T: Copy, F: Fn(T, T) -> T>(
    lhs: &Vec<T>,
    rhs: &Vec<T>,
    output: &mut Vec<T>,
    thread_index: usize,
    stride: usize,
    elements_per_thread: usize,
    f: F,
)
    requires
        thread_index < stride,
        stride * elements_per_thread <= usize::MAX,
        lhs@.len() >= old(output)@.len(),
        rhs@.len() >= old(output)@.len(),
        forall|a: T, b: T| #[trigger] call_requires(f, (a, b)),
    ensures
        final(output)@.len() == old(output)@.len(),
        forall|i: int|
            #![trigger final(output)@[i]]
            0 <= i < old(output)@.len() && handles(
                thread_index as int,
                stride as int,
                elements_per_thread as int,
                i,
            ) ==> call_ensures(f, (lhs@[i], rhs@[i]), final(output)@[i]),
        forall|i: int|
            0 <= i < old(output)@.len() && !handles(
                thread_index as int,
                stride as int,
                elements_per_thread as int,
                i,
            ) ==> #[trigger] final(output)@[i] == old(output)@[i],
        forall|g: spec_fn(T, T) -> T| #[trigger]
            computes(f, g) ==> turned(
                old(output)@,
                final(output)@,
                thread_index as int,
                stride as int,
                elements_per_thread as int,
                |i: int, x: T| g(lhs@[i], rhs@[i]),
            ),
{
    let ghost start = output@;
    let mut iteration: usize = 0;
    while iteration < elements_per_thread
        invariant
            iteration <= elements_per_thread,
            thread_index < stride,
            stride * elements_per_thread <= usize::MAX,
            output@.len() == start.len(),
            lhs@.len() >= start.len(),
            rhs@.len() >= start.len(),
            forall|a: T, b: T| #[trigger] call_requires(f, (a, b)),
            forall|i: int|
                #![trigger output@[i]]
                0 <= i < start.len() && handles(
                    thread_index as int,
                    stride as int,
                    iteration as int,
                    i,
                ) ==> call_ensures(f, (lhs@[i], rhs@[i]), output@[i]),
            forall|i: int|
                0 <= i < start.len() && !handles(
                    thread_index as int,
                    stride as int,
                    iteration as int,
                    i,
                ) ==> #[trigger] output@[i] == start[i],
        decreases elements_per_thread - iteration,
    {
        let index: usize = element_of(
            thread_index,
            stride,
            iteration,
            Ghost(elements_per_thread as int),
        );
        proof {
            lemma_turn(thread_index as int, stride as int, iteration as int, index as int);
        }
        if index < output.len() {
            let value = f(lhs[index], rhs[index]);
            output.set(index, value);
        }
        iteration = iteration + 1;
    }
}

/// Combines a source into the thread's elements of a target.
pub fn slice_binary_assign_device<T: Copy, F: Fn(T, T) -> T>(
    target: &mut Vec<T>,
    rhs: &Vec<T>,
    thread_index: usize,
    stride: usize,
    elements_per_thread: usize,
    f: F,
)
    requires
        thread_index < stride,
        stride * elements_per_thread <= usize::MAX,
        rhs@.len() >= old(target)@.len(),
        forall|a: T, b: T| #[trigger] call_requires(f, (a, b)),
    ensures
        final(target)@.len() == old(target)@.len(),
        forall|i: int|
            #![trigger final(target)@[i]]
            0 <= i < old(target)@.len() && handles(
                thread_index as int,
                stride as int,
                elements_per_thread as int,
                i,
            ) ==> call_ensures(f, (old(target)@[i], rhs@[i]), final(target)@[i]),
        forall|i: int|
            0 <= i < old(target)@.len() && !handles(
                thread_index as int,
                stride as int,
                elements_per_thread as int,
                i,
            ) ==> #[trigger] final(target)@[i] == old(target)@[i],
        forall|g: spec_fn(T, T) -> T| #[trigger]
            computes(f, g) ==> turned(
                old(target)@,
                final(target)@,
                thread_index as int,
                stride as int,
                elements_per_thread as int,
                |i: int, x: T| g(x, rhs@[i]),
            ),
{
    let ghost start = target@;
    let mut iteration: usize = 0;
    while iteration < elements_per_thread
        invariant
            iteration <= elements_per_thread,
            thread_index < stride,
            stride * elements_per_thread <= usize::MAX,
            target@.len() == start.len(),
            rhs@.len() >= start.len(),
            forall|a: T, b: T| #[trigger] call_requires(f, (a, b)),
            forall|i: int|
                #![trigger target@[i]]
                0 <= i < start.len() && handles(
                    thread_index as int,
                    stride as int,
                    iteration as int,
                    i,
                ) ==> call_ensures(f, (start[i], rhs@[i]), target@[i]),
            forall|i: int|
                0 <= i < start.len() && !handles(
                    thread_index as int,
                    stride as int,
                    iteration as int,
                    i,
                ) ==> #[trigger] target@[i] == start[i],
        decreases elements_per_thread - iteration,
    {
        let index: usize = element_of(
            thread_index,
            stride,
            iteration,
            Ghost(elements_per_thread as int),
        );
        proof {
            lemma_turn(thread_index as int, stride as int, iteration as int, index as int);
            assert(!handles(
                thread_index as int,
                stride as int,
                iteration as int,
                index as int,
            ));
        }
        if index < target.len() {
            assert(target@[index as int] == start[index as int]);
            let value = f(target[index], rhs[index]);
            target.set(index, value);
        }
        iteration = iteration + 1;
    }
}

/// Maps the thread's elements in place.
pub fn slice_for_each_device<T: Copy, F: Fn(T) -> T>(
    span: &mut Vec<T>,
    thread_index: usize,
    stride: usize,
    elements_per_thread: usize,
    f: F,
)
    requires
        thread_index < stride,
        stride * elements_per_thread <= usize::MAX,
        forall|a: T| #[trigger] call_requires(f, (a,)),
    ensures
        final(span)@.len() == old(span)@.len(),
        forall|i: int|
            #![trigger final(span)@[i]]
            0 <= i < old(span)@.len() && handles(
                thread_index as int,
                stride as int,
                elements_per_thread as int,
                i,
            ) ==> call_ensures(f, (old(span)@[i],), final(span)@[i]),
        forall|i: int|
            0 <= i < old(span)@.len() && !handles(
                thread_index as int,
                stride as int,
                elements_per_thread as int,
                i,
            ) ==> #[trigger] final(span)@[i] == old(span)@[i],
        forall|m: spec_fn(T) -> T| #[trigger]
            computes_map(f, m) ==> turned(
                old(span)@,
                final(span)@,
                thread_index as int,
                stride as int,
                elements_per_thread as int,
                |i: int, x: T| m(x),
            ),
{
    let ghost start = span@;
    let mut iteration: usize = 0;
    while iteration < elements_per_thread
        invariant
            iteration <= elements_per_thread,
            thread_index < stride,
            stride * elements_per_thread <= usize::MAX,
            span@.len() == start.len(),
            forall|a: T| #[trigger] call_requires(f, (a,)),
            forall|i: int|
                #![trigger span@[i]]
                0 <= i < start.len() && handles(
                    thread_index as int,
                    stride as int,
                    iteration as int,
                    i,
                ) ==> call_ensures(f, (start[i],), span@[i]),
            forall|i: int|
                0 <= i < start.len() && !handles(
                    thread_index as int,
                    stride as int,
                    iteration as int,
                    i,
                ) ==> #[trigger] span@[i] == start[i],
        decreases elements_per_thread - iteration,
    {
        let index: usize = element_of(
            thread_index,
            stride,
            iteration,
            Ghost(elements_per_thread as int),
        );
        proof {
            lemma_turn(thread_index as int, stride as int, iteration as int, index as int);
            assert(!handles(
                thread_index as int,
                stride as int,
                iteration as int,
                index as int,
            ));
        }
        if index < span.len() {
            assert(span@[index as int] == start[index as int]);
            let value = f(span[index]);
            span.set(index, value);
        }
        iteration = iteration + 1;
    }
}

} // verus!
