//! What kernels make of memory is what their threads make of it.
//!
//! Elements are read in some way; the threads work on what is read, and so does a launch.

use vstd::prelude::*;

use super::elementwise::turned;
use super::reduction::{
    agree_on, block_value, contributions, fold, law_blocks_fold_everything, monoid, row_slice,
    with_result,
};
use crate::cuda::algebra::{row_of, row_totals, total, Term};
use crate::cuda::arith::{ceil_div, lemma_ceil_div};
use crate::cuda::command::{DeviceSliceDescriptor, Kernel, LaunchConfig};
use crate::cuda::meaning::Reading;
use crate::cuda::model::{reach, Device};
use crate::cuda::ops::{BinaryFn, InitFn, MapFn};
use crate::cuda::scalar::F32;

verus! {

/// Whether a range lies in memory.
pub open spec fn in_memory(device: Device, d: DeviceSliceDescriptor) -> bool {
    d.offset + d.len <= device.mem[d.buffer].len()
}

/// What is read of a range.
pub open spec fn seen<T>(reading: Reading<T>, device: Device, d: DeviceSliceDescriptor) -> Seq<T> {
    reading.read_all(device.read(d))
}

/// Every thread of a launch takes its turns once, in some order.
pub open spec fn all_turned<T>(
    states: Seq<Seq<T>>,
    order: Seq<int>,
    stride: int,
    elements_per_thread: int,
    value: spec_fn(int, T) -> T,
) -> bool {
    &&& order.no_duplicates()
    &&& forall|thread: int| 0 <= thread < stride <==> #[trigger] order.contains(thread)
    &&& states.len() == order.len() + 1
    &&& forall|n: int|
        0 <= n < order.len() ==> #[trigger] turned(
            states[n],
            states[n + 1],
            order[n],
            stride,
            elements_per_thread,
            value,
        )
}

/// After some threads, the elements that they handle have their new values.
proof fn lemma_some_turned<T>(
    states: Seq<Seq<T>>,
    order: Seq<int>,
    stride: int,
    elements_per_thread: int,
    value: spec_fn(int, T) -> T,
    n: int,
)
    requires
        all_turned(states, order, stride, elements_per_thread, value),
        0 <= n <= order.len(),
    ensures
        states[n].len() == states[0].len(),
        forall|i: int|
            0 <= i < states[0].len() ==> #[trigger] states[n][i] == if order.take(n).contains(
                i % stride,
            ) && i / stride < elements_per_thread {
                value(i, states[0][i])
            } else {
                states[0][i]
            },
    decreases n,
{
    if n > 0 {
        lemma_some_turned(states, order, stride, elements_per_thread, value, n - 1);
        let fewer = order.take(n - 1);
        let some = order.take(n);
        assert(turned(
            states[n - 1],
            states[n - 1 + 1],
            order[n - 1],
            stride,
            elements_per_thread,
            value,
        ));
        assert forall|i: int| 0 <= i < states[0].len() implies #[trigger] states[n][i] == if some.contains(
            i % stride,
        ) && i / stride < elements_per_thread {
            value(i, states[0][i])
        } else {
            states[0][i]
        } by {
            let t = i % stride;
            assert(states[n - 1][i] == if fewer.contains(t) && i / stride < elements_per_thread {
                value(i, states[0][i])
            } else {
                states[0][i]
            });
            if fewer.contains(t) {
                let k = choose|k: int| 0 <= k < fewer.len() && fewer[k] == t;
                assert(some[k] == t && order[k] == t);
                assert(order[n - 1] != t);
            }
            if order[n - 1] == t {
                assert(some[n - 1] == t);
            }
            if some.contains(t) && !fewer.contains(t) {
                let k = choose|k: int| 0 <= k < some.len() && some[k] == t;
                if k < n - 1 {
                    assert(fewer[k] == t);
                }
            }
        }
    }
}

/// Threads that take their turns in any order change the elements that they reach together,
/// and no others.
pub proof fn law_threads_reach_their_elements<T>(
    states: Seq<Seq<T>>,
    order: Seq<int>,
    stride: int,
    elements_per_thread: int,
    value: spec_fn(int, T) -> T,
)
    requires
        stride > 0,
        elements_per_thread >= 0,
        all_turned(states, order, stride, elements_per_thread, value),
    ensures
        states.last().len() == states[0].len(),
        forall|i: int|
            0 <= i < states[0].len() ==> #[trigger] states.last()[i] == if i < stride
                * elements_per_thread {
                value(i, states[0][i])
            } else {
                states[0][i]
            },
{
    let n = order.len() as int;
    lemma_some_turned(states, order, stride, elements_per_thread, value, n);
    assert(order.take(n) =~= order);
    assert forall|i: int| 0 <= i < states[0].len() implies #[trigger] states.last()[i] == if i
        < stride * elements_per_thread {
        value(i, states[0][i])
    } else {
        states[0][i]
    } by {
        vstd::arithmetic::div_mod::lemma_fundamental_div_mod(i, stride);
        assert(order.contains(i % stride));
        let q = i / stride;
        assert((q < elements_per_thread) == (i < stride * elements_per_thread))
            by (nonlinear_arith)
            requires
                i == stride * q + i % stride,
                0 <= i % stride < stride,
                stride > 0,
        ;
        assert(states[n][i] == states.last()[i]);
    }
}

/// What was written to a range is read there.
proof fn lemma_written(device: Device, d: DeviceSliceDescriptor, values: Seq<Term>)
    requires
        in_memory(device, d),
        values.len() == d.len,
    ensures
        device.write(d, values).read(d) == values,
{
    assert(device.write(d, values).read(d) =~= values);
}

/// The threads of a fill make what the launch makes.
pub proof fn law_fills_are_made_by_their_threads<T>(
    reading: Reading<T>,
    device: Device,
    target: DeviceSliceDescriptor,
    elements_per_thread: usize,
    f: InitFn,
    config: LaunchConfig,
    states: Seq<Seq<T>>,
    order: Seq<int>,
)
    requires
        in_memory(device, target),
        config.grid_x * config.block_x > 0,
        all_turned(
            states,
            order,
            config.grid_x * config.block_x,
            elements_per_thread as int,
            |i: int, x: T| (reading.fill)(f, i),
        ),
        states[0] == seen(reading, device, target),
    ensures
        states.last() == seen(
            reading,
            device.launch(Kernel::SpanSet { target, elements_per_thread, f }, config),
            target,
        ),
{
    let after = device.launch(Kernel::SpanSet { target, elements_per_thread, f }, config);
    let value = |i: int, x: T| (reading.fill)(f, i);
    lemma_element_wise(reading, device, after, target, elements_per_thread, config, states, order, value);
}

/// A launch that changes the elements that it reaches one by one is made by its threads.
proof fn lemma_element_wise<T>(
    reading: Reading<T>,
    device: Device,
    after: Device,
    target: DeviceSliceDescriptor,
    elements_per_thread: usize,
    config: LaunchConfig,
    states: Seq<Seq<T>>,
    order: Seq<int>,
    value: spec_fn(int, T) -> T,
)
    requires
        in_memory(device, target),
        config.grid_x * config.block_x > 0,
        all_turned(
            states,
            order,
            config.grid_x * config.block_x,
            elements_per_thread as int,
            value,
        ),
        states[0] == seen(reading, device, target),
        after.read(target).len() == target.len,
        forall|i: int|
            0 <= i < target.len ==> reading.read(#[trigger] after.read(target)[i]) == if i < reach(
                config,
                elements_per_thread as int,
            ) {
                value(i, reading.read(device.read(target)[i]))
            } else {
                reading.read(device.read(target)[i])
            },
    ensures
        states.last() == seen(reading, after, target),
{
    let stride = config.grid_x * config.block_x;
    law_threads_reach_their_elements(
        states,
        order,
        stride,
        elements_per_thread as int,
        value,
    );
    reading.lemma_read_all(device.read(target));
    reading.lemma_read_all(after.read(target));
    assert forall|i: int| 0 <= i < target.len implies #[trigger] states.last()[i] == seen(
        reading,
        after,
        target,
    )[i] by {
        assert(reading.read_all(after.read(target))[i] == reading.read(after.read(target)[i]));
        assert(states[0][i] == reading.read(device.read(target)[i]));
    }
    assert(states.last() =~= seen(reading, after, target));
}

/// The threads of a map make what the launch makes.
pub proof fn law_maps_are_made_by_their_threads<T>(
    reading: Reading<T>,
    device: Device,
    target: DeviceSliceDescriptor,
    elements_per_thread: usize,
    f: MapFn,
    config: LaunchConfig,
    states: Seq<Seq<T>>,
    order: Seq<int>,
)
    requires
        in_memory(device, target),
        config.grid_x * config.block_x > 0,
        all_turned(
            states,
            order,
            config.grid_x * config.block_x,
            elements_per_thread as int,
            |i: int, x: T| (reading.map)(f, x),
        ),
        states[0] == seen(reading, device, target),
    ensures
        states.last() == seen(
            reading,
            device.launch(Kernel::SliceForEach { target, elements_per_thread, f }, config),
            target,
        ),
{
    let after = device.launch(Kernel::SliceForEach { target, elements_per_thread, f }, config);
    let value = |i: int, x: T| (reading.map)(f, x);
    lemma_element_wise(reading, device, after, target, elements_per_thread, config, states, order, value);
}

/// The threads of a combination make what the launch makes.
pub proof fn law_combinations_are_made_by_their_threads<T>(
    reading: Reading<T>,
    device: Device,
    lhs: DeviceSliceDescriptor,
    rhs: DeviceSliceDescriptor,
    output: DeviceSliceDescriptor,
    elements_per_thread: usize,
    f: BinaryFn,
    config: LaunchConfig,
    states: Seq<Seq<T>>,
    order: Seq<int>,
)
    requires
        in_memory(device, lhs),
        in_memory(device, rhs),
        in_memory(device, output),
        lhs.len == output.len,
        rhs.len == output.len,
        config.grid_x * config.block_x > 0,
        all_turned(
            states,
            order,
            config.grid_x * config.block_x,
            elements_per_thread as int,
            |i: int, x: T|
                (reading.combine)(
                    f,
                    seen(reading, device, lhs)[i],
                    seen(reading, device, rhs)[i],
                ),
        ),
        states[0] == seen(reading, device, output),
    ensures
        states.last() == seen(
            reading,
            device.launch(Kernel::SliceBinary { lhs, rhs, output, elements_per_thread, f }, config),
            output,
        ),
{
    let after = device.launch(
        Kernel::SliceBinary { lhs, rhs, output, elements_per_thread, f },
        config,
    );
    let value = |i: int, x: T|
        (reading.combine)(f, seen(reading, device, lhs)[i], seen(reading, device, rhs)[i]);
    reading.lemma_read_all(device.read(lhs));
    reading.lemma_read_all(device.read(rhs));
    lemma_element_wise(reading, device, after, output, elements_per_thread, config, states, order, value);
}

/// The threads of a combination in place make what the launch makes.
pub proof fn law_assignments_are_made_by_their_threads<T>(
    reading: Reading<T>,
    device: Device,
    target: DeviceSliceDescriptor,
    rhs: DeviceSliceDescriptor,
    elements_per_thread: usize,
    f: BinaryFn,
    config: LaunchConfig,
    states: Seq<Seq<T>>,
    order: Seq<int>,
)
    requires
        in_memory(device, target),
        in_memory(device, rhs),
        rhs.len == target.len,
        config.grid_x * config.block_x > 0,
        all_turned(
            states,
            order,
            config.grid_x * config.block_x,
            elements_per_thread as int,
            |i: int, x: T| (reading.combine)(f, x, seen(reading, device, rhs)[i]),
        ),
        states[0] == seen(reading, device, target),
    ensures
        states.last() == seen(
            reading,
            device.launch(
                Kernel::SliceBinaryAssign { target, rhs, elements_per_thread, f },
                config,
            ),
            target,
        ),
{
    let after = device.launch(
        Kernel::SliceBinaryAssign { target, rhs, elements_per_thread, f },
        config,
    );
    let value = |i: int, x: T| (reading.combine)(f, x, seen(reading, device, rhs)[i]);
    reading.lemma_read_all(device.read(rhs));
    lemma_element_wise(reading, device, after, target, elements_per_thread, config, states, order, value);
}

/// A reduction leaves what its block writes.
pub proof fn law_reductions_are_made_by_their_block<T>(
    reading: Reading<T>,
    device: Device,
    source: DeviceSliceDescriptor,
    result: DeviceSliceDescriptor,
    elements_per_thread: usize,
    map: MapFn,
    reduce: BinaryFn,
    identity: F32,
    config: LaunchConfig,
)
    requires
        in_memory(device, source),
        in_memory(device, result),
        result.len == 1,
        elements_per_thread == ceil_div(source.len as int, 1024),
        config.block_x == 1024,
        config.shared_bytes >= 128,
    ensures
        seen(
            reading,
            device.launch(
                Kernel::MapReduce { source, result, elements_per_thread, map, reduce, identity },
                config,
            ),
            result,
        ) == with_result(
            seen(reading, device, result),
            0,
            block_value(
                reading.combiner(reduce),
                reading.mapper(map),
                seen(reading, device, source),
                true,
                (reading.literal)(identity),
                elements_per_thread as int,
                0,
            ),
        ),
{
    let term = Term::Reduce(map, reduce, identity, device.read(source));
    lemma_written(device, result, seq![term]);
    reading.lemma_read_all(device.read(source));
    reading.lemma_read_all(device.read(result));
    reading.lemma_read_all(seq![term]);
    let after = device.launch(
        Kernel::MapReduce { source, result, elements_per_thread, map, reduce, identity },
        config,
    );
    assert(reading.read_all(seq![term])[0] == reading.read(seq![term][0]));
    assert(seen(reading, after, result) =~= with_result(
        seen(reading, device, result),
        0,
        reading.read(term),
    ));
}

/// A reduction of pairs leaves what its block writes.
pub proof fn law_paired_reductions_are_made_by_their_block<T>(
    reading: Reading<T>,
    device: Device,
    lhs: DeviceSliceDescriptor,
    rhs: DeviceSliceDescriptor,
    result: DeviceSliceDescriptor,
    elements_per_thread: usize,
    map: BinaryFn,
    reduce: BinaryFn,
    identity: F32,
    config: LaunchConfig,
)
    requires
        in_memory(device, lhs),
        in_memory(device, rhs),
        in_memory(device, result),
        lhs.len == rhs.len,
        result.len == 1,
        elements_per_thread == ceil_div(lhs.len as int, 1024),
        config.block_x == 1024,
        config.shared_bytes >= 128,
    ensures
        seen(
            reading,
            device.launch(
                Kernel::ZipMapReduce {
                    lhs,
                    rhs,
                    result,
                    elements_per_thread,
                    map,
                    reduce,
                    identity,
                },
                config,
            ),
            result,
        ) == with_result(
            seen(reading, device, result),
            0,
            block_value(
                reading.combiner(reduce),
                reading.mapper(MapFn::Identity),
                reading.pairs(map, seen(reading, device, lhs), seen(reading, device, rhs)),
                false,
                (reading.literal)(identity),
                elements_per_thread as int,
                0,
            ),
        ),
{
    let term = Term::ZipReduce(map, reduce, identity, device.read(lhs), device.read(rhs));
    lemma_written(device, result, seq![term]);
    reading.lemma_read_all(device.read(lhs));
    reading.lemma_read_all(device.read(result));
    reading.lemma_read_all(seq![term]);
    let after = device.launch(
        Kernel::ZipMapReduce { lhs, rhs, result, elements_per_thread, map, reduce, identity },
        config,
    );
    assert(reading.read_all(seq![term])[0] == reading.read(seq![term][0]));
    assert(seen(reading, after, result) =~= with_result(
        seen(reading, device, result),
        0,
        reading.read(term),
    ));
}

/// A sum over rows leaves for every row what the row's block writes.
pub proof fn law_row_sums_are_made_by_their_blocks<T>(
    reading: Reading<T>,
    device: Device,
    matrix: DeviceSliceDescriptor,
    result: DeviceSliceDescriptor,
    cols: usize,
    elements_per_thread: usize,
    config: LaunchConfig,
    row: int,
)
    requires
        in_memory(device, matrix),
        in_memory(device, result),
        matrix.len == result.len * cols,
        elements_per_thread == ceil_div(cols as int, 1024),
        config.grid_x >= result.len,
        config.block_x == 1024,
        config.shared_bytes >= 128,
        0 <= row < result.len,
    ensures
        seen(
            reading,
            device.launch(
                Kernel::SumRows { matrix, result, cols, elements_per_thread },
                config,
            ),
            result,
        )[row] == block_value(
            reading.combiner(BinaryFn::Add),
            reading.mapper(MapFn::Identity),
            row_slice(seen(reading, device, matrix), cols as int, row),
            true,
            (reading.literal)(F32 { bits: 0 }),
            elements_per_thread as int,
            0,
        ),
{
    let all = device.read(matrix);
    let sums = row_totals(all, result.len as nat, cols as nat);
    lemma_written(device, result, sums);
    reading.lemma_read_all(all);
    reading.lemma_read_all(sums);
    let items = row_of(all, cols as nat, row);
    reading.lemma_read_all(items);
    assert(reading.read_all(sums)[row] == reading.read(sums[row]));
    assert(sums[row] == total(items));
    assert(0 <= row * cols && row * cols + cols <= result.len * cols) by (nonlinear_arith)
        requires
            0 <= row < result.len,
            cols >= 0,
    ;
    let slice = row_slice(seen(reading, device, matrix), cols as int, row);
    assert forall|k: int| 0 <= k < cols implies #[trigger] reading.read_all(items)[k] == slice[k] by {
        assert(reading.read_all(items)[k] == reading.read(items[k]));
        assert(reading.read_all(all)[row * cols + k] == reading.read(all[row * cols + k]));
    }
    assert(reading.read_all(items) =~= slice);
}

/// A comparison leaves what its block finds out.
pub proof fn law_comparisons_are_made_by_their_block<T>(
    reading: Reading<T>,
    device: Device,
    lhs: DeviceSliceDescriptor,
    rhs: DeviceSliceDescriptor,
    result: DeviceSliceDescriptor,
    elements_per_thread: usize,
    config: LaunchConfig,
)
    requires
        in_memory(device, lhs),
        in_memory(device, rhs),
        in_memory(device, result),
        lhs.len == rhs.len,
        result.len == 1,
        elements_per_thread == ceil_div(lhs.len as int, 1024),
        config.block_x == 1024,
    ensures
        seen(
            reading,
            device.launch(
                Kernel::CompareVectors { lhs, rhs, elements_per_thread, result },
                config,
            ),
            result,
        ) == with_result(
            seen(reading, device, result),
            0,
            if agree_on(
                reading.same,
                seen(reading, device, lhs),
                seen(reading, device, rhs),
                0 * 1024 * elements_per_thread,
                (0 + 1) * 1024 * elements_per_thread,
            ) {
                reading.yes
            } else {
                reading.no
            },
        ),
{
    let term = Term::Same(device.read(lhs), device.read(rhs));
    lemma_ceil_div(lhs.len as int, 1024);
    lemma_written(device, result, seq![term]);
    reading.lemma_read_all(device.read(lhs));
    reading.lemma_read_all(device.read(result));
    reading.lemma_read_all(seq![term]);
    let after = device.launch(
        Kernel::CompareVectors { lhs, rhs, elements_per_thread, result },
        config,
    );
    assert(reading.read_all(seq![term])[0] == reading.read(seq![term][0]));
    assert(0 * 1024 * elements_per_thread == 0 && (0 + 1) * 1024 * elements_per_thread == 1024
        * elements_per_thread) by (nonlinear_arith);
    assert(seen(reading, after, result) =~= with_result(
        seen(reading, device, result),
        0,
        reading.read(term),
    ));
}

/// Where grouping does not matter and the start changes nothing, a reduction is the fold of
/// its mapped items.
pub proof fn law_reductions_fold_their_items<T>(
    reading: Reading<T>,
    map: MapFn,
    reduce: BinaryFn,
    start: F32,
    items: Seq<Term>,
)
    requires
        monoid(reading.combiner(reduce), (reading.literal)(start)),
    ensures
        reading.read(Term::Reduce(map, reduce, start, items)) == fold(
            reading.combiner(reduce),
            (reading.literal)(start),
            Seq::new(items.len(), |i: int| (reading.map)(map, reading.read(items[i]))),
        ),
{
    let g = reading.combiner(reduce);
    let unit = (reading.literal)(start);
    let m = reading.mapper(map);
    let values = reading.read_all(items);
    reading.lemma_read_all(items);
    let per = ceil_div(items.len() as int, 1024);
    lemma_ceil_div(items.len() as int, 1024);
    law_blocks_fold_everything(g, m, values, true, unit, per, 1);
    let value = block_value(g, m, values, true, unit, per, 0);
    let one = Seq::new(1, |b: int| block_value(g, m, values, true, unit, per, b));
    lemma_fold_one(g, unit, one);
    let mapped = Seq::new(items.len(), |i: int| (reading.map)(map, reading.read(items[i])));
    assert(contributions(values, true, m, unit, 0, values.len() as int) =~= mapped);
}

/// The same for pairs.
pub proof fn law_paired_reductions_fold_their_pairs<T>(
    reading: Reading<T>,
    map: BinaryFn,
    reduce: BinaryFn,
    start: F32,
    a: Seq<Term>,
    b: Seq<Term>,
)
    requires
        monoid(reading.combiner(reduce), (reading.literal)(start)),
        a.len() == b.len(),
    ensures
        reading.read(Term::ZipReduce(map, reduce, start, a, b)) == fold(
            reading.combiner(reduce),
            (reading.literal)(start),
            Seq::new(
                a.len(),
                |i: int| (reading.combine)(map, reading.read(a[i]), reading.read(b[i])),
            ),
        ),
{
    let g = reading.combiner(reduce);
    let unit = (reading.literal)(start);
    let m = reading.mapper(MapFn::Identity);
    reading.lemma_read_all(a);
    reading.lemma_read_all(b);
    let values = reading.pairs(map, reading.read_all(a), reading.read_all(b));
    let per = ceil_div(a.len() as int, 1024);
    lemma_ceil_div(a.len() as int, 1024);
    law_blocks_fold_everything(g, m, values, false, unit, per, 1);
    let one = Seq::new(1, |k: int| block_value(g, m, values, false, unit, per, k));
    lemma_fold_one(g, unit, one);
    let mapped = Seq::new(
        a.len(),
        |i: int| (reading.combine)(map, reading.read(a[i]), reading.read(b[i])),
    );
    assert(contributions(values, false, m, unit, 0, values.len() as int) =~= mapped);
}

/// A single value folds to itself.
proof fn lemma_fold_one<T>(g: spec_fn(T, T) -> T, unit: T, values: Seq<T>)
    requires
        monoid(g, unit),
        values.len() == 1,
    ensures
        fold(g, unit, values) == values[0],
{
    assert(values.drop_last() =~= Seq::empty());
    assert(fold(g, unit, values.drop_last()) == unit);
    assert(g(unit, values[0]) == values[0]);
}

} // verus!
