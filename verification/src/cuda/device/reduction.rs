//! Kernels that reduce a block's elements to one value: every thread folds a
//! range, every warp folds its threads' values as a tree, and the first warp
//! folds those of all warps.

use vstd::prelude::*;

use super::index::WARP_SIZE;
use crate::cuda::arith::{ceil_div, lemma_ceil_div};

verus! {

/// Threads of a reducing block: a warp of warps.
pub const REDUCE_BLOCK: usize = 1024;

/// Whether an executable function computes a mathematical one.
pub open spec fn computes<T, F: Fn(T, T) -> T>(f: F, g: spec_fn(T, T) -> T) -> bool {
    forall|a: T, b: T, r: T| #[trigger] call_ensures(f, (a, b), r) ==> r == g(a, b)
}

/// The same for functions of one value.
pub open spec fn computes_map<T, F: Fn(T) -> T>(f: F, g: spec_fn(T) -> T) -> bool {
    forall|a: T, r: T| #[trigger] call_ensures(f, (a,), r) ==> r == g(a)
}

/// The same for a comparison.
pub open spec fn compares<T, F: Fn(T, T) -> bool>(f: F, g: spec_fn(T, T) -> bool) -> bool {
    forall|a: T, b: T, r: bool| #[trigger] call_ensures(f, (a, b), r) ==> r == g(a, b)
}

/// Values folded as a balanced tree.
pub open spec fn tree<T>(g: spec_fn(T, T) -> T, values: Seq<T>) -> T
    decreases values.len(),
{
    if values.len() <= 1 {
        values[0]
    } else {
        let half = (values.len() / 2) as int;
        g(tree(g, values.take(half)), tree(g, values.skip(half)))
    }
}

/// Values folded from the left, starting from an element.
pub open spec fn fold<T>(g: spec_fn(T, T) -> T, start: T, values: Seq<T>) -> T
    decreases values.len(),
{
    if values.len() == 0 {
        start
    } else {
        g(fold(g, start, values.drop_last()), values.last())
    }
}

/// What the elements of a range contribute; past the end it is the default.
pub open spec fn contributions<T>(
    source: Seq<T>,
    apply_map: bool,
    map: spec_fn(T) -> T,
    default: T,
    from: int,
    to: int,
) -> Seq<T> {
    Seq::new(
        (to - from) as nat,
        |i: int|
            if from + i < source.len() {
                if apply_map {
                    map(source[from + i])
                } else {
                    source[from + i]
                }
            } else {
                default
            },
    )
}

/// One exchange of a warp: every lane takes in the value of the lane `delta`
/// places up. Lanes without one take in their own.
fn shuffle_step<T: Copy, F: Fn(T, T) -> T>(lanes: &Vec<T>, delta: usize, reduce: &F) -> (r: Vec<T>)
    requires
        lanes@.len() == 32,
        delta <= 32,
        forall|a: T, b: T| #[trigger] call_requires(*reduce, (a, b)),
    ensures
        r@.len() == 32,
        forall|g: spec_fn(T, T) -> T, l: int|
            #![trigger computes(*reduce, g), r@[l]]
            computes(*reduce, g) && 0 <= l && l + delta < 32 ==> r@[l] == g(
                lanes@[l],
                lanes@[l + delta],
            ),
{
    let mut next: Vec<T> = Vec::new();
    let mut lane: usize = 0;
    while lane < WARP_SIZE
        invariant
            lane <= 32,
            lanes@.len() == 32,
            delta <= 32,
            next@.len() == lane,
            forall|a: T, b: T| #[trigger] call_requires(*reduce, (a, b)),
            forall|g: spec_fn(T, T) -> T, l: int|
                #![trigger computes(*reduce, g), next@[l]]
                computes(*reduce, g) && 0 <= l < lane && l + delta < 32 ==> next@[l] == g(
                    lanes@[l],
                    lanes@[l + delta],
                ),
        decreases 32 - lane,
    {
        let own = lanes[lane];
        let other = if lane + delta < WARP_SIZE {
            lanes[lane + delta]
        } else {
            own
        };
        next.push(reduce(own, other));
        lane = lane + 1;
    }
    next
}

/// Folds a warp's values; the first lane's result is the warp's.
pub fn warp_reduce<T: Copy, F: Fn(T, T) -> T>(values: &Vec<T>, reduce: &F) -> (r: T)
    requires
        values@.len() == 32,
        forall|a: T, b: T| #[trigger] call_requires(*reduce, (a, b)),
    ensures
        forall|g: spec_fn(T, T) -> T| #[trigger]
            computes(*reduce, g) ==> r == tree(g, values@),
{
    let once = shuffle_step(values, 1, reduce);
    let twice = shuffle_step(&once, 2, reduce);
    let thrice = shuffle_step(&twice, 4, reduce);
    let fourth = shuffle_step(&thrice, 8, reduce);
    let last = shuffle_step(&fourth, 16, reduce);
    proof {
        assert forall|g: spec_fn(T, T) -> T| #[trigger] computes(*reduce, g) implies last@[0]
            == tree(g, values@) by {
            let v = values@;
            assert forall|l: int| 0 <= l && l + 1 <= 32 implies #[trigger] v[l] == tree(
                g,
                v.subrange(l, l + 1),
            ) by {}
            lemma_exchange(g, v, v, once@, 1);
            lemma_exchange(g, v, once@, twice@, 2);
            lemma_exchange(g, v, twice@, thrice@, 4);
            lemma_exchange(g, v, thrice@, fourth@, 8);
            lemma_exchange(g, v, fourth@, last@, 16);
            assert(v.subrange(0, 32) =~= v);
            assert(last@[0] == tree(g, v.subrange(0, 32)));
        }
    }
    last[0]
}

/// An exchange doubles the run of values that a lane has folded.
proof fn lemma_exchange<T>(
    g: spec_fn(T, T) -> T,
    v: Seq<T>,
    before: Seq<T>,
    after: Seq<T>,
    delta: int,
)
    requires
        v.len() == 32,
        1 <= delta <= 16,
        forall|l: int|
            #![trigger before[l]]
            0 <= l && l + delta <= 32 ==> before[l] == tree(g, v.subrange(l, l + delta)),
        forall|l: int|
            #![trigger after[l]]
            0 <= l && l + delta < 32 ==> after[l] == g(before[l], before[l + delta]),
    ensures
        forall|l: int|
            #![trigger after[l]]
            0 <= l && l + 2 * delta <= 32 ==> after[l] == tree(
                g,
                v.subrange(l, l + 2 * delta),
            ),
{
    assert forall|l: int| #![trigger after[l]] 0 <= l && l + 2 * delta <= 32 implies after[l] == tree(
        g,
        v.subrange(l, l + 2 * delta),
    ) by {
        let run = v.subrange(l, l + 2 * delta);
        assert(run.take(delta) =~= v.subrange(l, l + delta));
        assert(run.skip(delta) =~= v.subrange(l + delta, l + 2 * delta));
        assert(run.len() / 2 == delta);
        assert(before[l] == tree(g, v.subrange(l, l + delta)));
        assert(before[l + delta] == tree(g, v.subrange(l + delta, l + delta + delta)));
    }
}

/// What one thread makes of its range.
pub fn thread_partial<T: Copy, M: Fn(T) -> T, F: Fn(T, T) -> T>(
    source: &Vec<T>,
    index: usize,
    elements_per_thread: usize,
    apply_map: bool,
    map: &M,
    reduce: &F,
    default: T,
) -> (r: T)
    requires
        (index + 1) * elements_per_thread <= usize::MAX,
        index < usize::MAX,
        forall|a: T| #[trigger] call_requires(*map, (a,)),
        forall|a: T, b: T| #[trigger] call_requires(*reduce, (a, b)),
    ensures
        forall|m: spec_fn(T) -> T, g: spec_fn(T, T) -> T|
            #![trigger computes_map(*map, m), computes(*reduce, g)]
            computes_map(*map, m) && computes(*reduce, g) ==> r == fold(
                g,
                default,
                contributions(
                    source@,
                    apply_map,
                    m,
                    default,
                    index * elements_per_thread,
                    (index + 1) * elements_per_thread,
                ),
            ),
{
    proof {
        assert(index * elements_per_thread <= (index + 1) * elements_per_thread) by (nonlinear_arith);
        assert(0 <= index * elements_per_thread) by (nonlinear_arith);
    }
    let from: usize = index * elements_per_thread;
    let to: usize = (index + 1) * elements_per_thread;
    let mut value = default;
    let mut i: usize = from;
    proof {
        assert forall|m: spec_fn(T) -> T, g: spec_fn(T, T) -> T|
            #![trigger computes_map(*map, m), computes(*reduce, g)]
            computes_map(*map, m) && computes(*reduce, g) implies value == fold(
            g,
            default,
            contributions(source@, apply_map, m, default, from as int, i as int),
        ) by {
            assert(contributions(source@, apply_map, m, default, from as int, i as int)
                =~= Seq::empty());
        }
    }
    while i < to
        invariant
            from <= i <= to,
            forall|a: T| #[trigger] call_requires(*map, (a,)),
            forall|a: T, b: T| #[trigger] call_requires(*reduce, (a, b)),
            forall|m: spec_fn(T) -> T, g: spec_fn(T, T) -> T|
                #![trigger computes_map(*map, m), computes(*reduce, g)]
                computes_map(*map, m) && computes(*reduce, g) ==> value == fold(
                    g,
                    default,
                    contributions(source@, apply_map, m, default, from as int, i as int),
                ),
        decreases to - i,
    {
        let ghost sofar = value;
        let temp = if i < source.len() {
            let source_value = source[i];
            if apply_map {
                map(source_value)
            } else {
                source_value
            }
        } else {
            default
        };
        value = reduce(value, temp);
        proof {
            assert forall|m: spec_fn(T) -> T, g: spec_fn(T, T) -> T|
                #![trigger computes_map(*map, m), computes(*reduce, g)]
                computes_map(*map, m) && computes(*reduce, g) implies value == fold(
                g,
                default,
                contributions(source@, apply_map, m, default, from as int, i + 1),
            ) by {
                let longer = contributions(source@, apply_map, m, default, from as int, i + 1);
                assert(longer.drop_last() =~= contributions(
                    source@,
                    apply_map,
                    m,
                    default,
                    from as int,
                    i as int,
                ));
                assert(longer.last() == temp);
            }
        }
        i = i + 1;
    }
    value
}

/// The value of a thread of a block.
pub open spec fn partial_of<T>(
    g: spec_fn(T, T) -> T,
    m: spec_fn(T) -> T,
    source: Seq<T>,
    apply_map: bool,
    default: T,
    elements_per_thread: int,
    index: int,
) -> T {
    fold(
        g,
        default,
        contributions(
            source,
            apply_map,
            m,
            default,
            index * elements_per_thread,
            (index + 1) * elements_per_thread,
        ),
    )
}

/// The value of a warp, given the index of its first thread.
pub open spec fn warp_value<T>(
    g: spec_fn(T, T) -> T,
    m: spec_fn(T) -> T,
    source: Seq<T>,
    apply_map: bool,
    default: T,
    elements_per_thread: int,
    first: int,
) -> T {
    tree(
        g,
        Seq::new(
            32,
            |lane: int|
                partial_of(g, m, source, apply_map, default, elements_per_thread, first + lane),
        ),
    )
}

/// The value that a block writes.
pub open spec fn block_value<T>(
    g: spec_fn(T, T) -> T,
    m: spec_fn(T) -> T,
    source: Seq<T>,
    apply_map: bool,
    default: T,
    elements_per_thread: int,
    block: int,
) -> T {
    tree(
        g,
        Seq::new(
            32,
            |warp: int|
                warp_value(
                    g,
                    m,
                    source,
                    apply_map,
                    default,
                    elements_per_thread,
                    block * 1024 + warp * 32,
                ),
        ),
    )
}

/// What the lanes of a warp bring to its tree.
fn warp_partials<T: Copy, M: Fn(T) -> T, F: Fn(T, T) -> T>(
    source: &Vec<T>,
    first: usize,
    elements_per_thread: usize,
    apply_map: bool,
    map: &M,
    reduce: &F,
    default: T,
) -> (r: Vec<T>)
    requires
        (first + 32) * elements_per_thread <= usize::MAX,
        first + 32 <= usize::MAX,
        forall|a: T| #[trigger] call_requires(*map, (a,)),
        forall|a: T, b: T| #[trigger] call_requires(*reduce, (a, b)),
    ensures
        r@.len() == 32,
        forall|m: spec_fn(T) -> T, g: spec_fn(T, T) -> T|
            #![trigger computes_map(*map, m), computes(*reduce, g)]
            computes_map(*map, m) && computes(*reduce, g) ==> r@ == Seq::new(
                32,
                |lane: int|
                    partial_of(
                        g,
                        m,
                        source@,
                        apply_map,
                        default,
                        elements_per_thread as int,
                        first + lane,
                    ),
            ),
{
    let mut values: Vec<T> = Vec::new();
    let mut lane: usize = 0;
    while lane < WARP_SIZE
        invariant
            lane <= 32,
            values@.len() == lane,
            (first + 32) * elements_per_thread <= usize::MAX,
            first + 32 <= usize::MAX,
            forall|a: T| #[trigger] call_requires(*map, (a,)),
            forall|a: T, b: T| #[trigger] call_requires(*reduce, (a, b)),
            forall|m: spec_fn(T) -> T, g: spec_fn(T, T) -> T, l: int|
                #![trigger computes_map(*map, m), computes(*reduce, g), values@[l]]
                computes_map(*map, m) && computes(*reduce, g) && 0 <= l < lane ==> values@[l]
                    == partial_of(
                    g,
                    m,
                    source@,
                    apply_map,
                    default,
                    elements_per_thread as int,
                    first + l,
                ),
        decreases 32 - lane,
    {
        proof {
            let n = first + lane + 1;
            assert(n * elements_per_thread <= (first + 32) * elements_per_thread) by (nonlinear_arith)
                requires
                    n <= first + 32,
            ;
        }
        let value = thread_partial(
            source,
            first + lane,
            elements_per_thread,
            apply_map,
            map,
            reduce,
            default,
        );
        values.push(value);
        lane = lane + 1;
    }
    proof {
        assert forall|m: spec_fn(T) -> T, g: spec_fn(T, T) -> T|
            #![trigger computes_map(*map, m), computes(*reduce, g)]
            computes_map(*map, m) && computes(*reduce, g) implies values@ == Seq::new(
            32,
            |lane: int|
                partial_of(
                    g,
                    m,
                    source@,
                    apply_map,
                    default,
                    elements_per_thread as int,
                    first + lane,
                ),
        ) by {
            assert(values@ =~= Seq::new(
                32,
                |lane: int|
                    partial_of(
                        g,
                        m,
                        source@,
                        apply_map,
                        default,
                        elements_per_thread as int,
                        first + lane,
                    ),
            ));
        }
    }
    values
}

/// What a block makes of its threads' ranges.
pub fn block_fold<T: Copy, M: Fn(T) -> T, F: Fn(T, T) -> T>(
    source: &Vec<T>,
    block_id: usize,
    elements_per_thread: usize,
    apply_map: bool,
    map: &M,
    reduce: &F,
    default: T,
) -> (r: T)
    requires
        (block_id + 1) * 1024 <= usize::MAX,
        (block_id + 1) * 1024 * elements_per_thread <= usize::MAX,
        forall|a: T| #[trigger] call_requires(*map, (a,)),
        forall|a: T, b: T| #[trigger] call_requires(*reduce, (a, b)),
    ensures
        forall|m: spec_fn(T) -> T, g: spec_fn(T, T) -> T|
            #![trigger computes_map(*map, m), computes(*reduce, g)]
            computes_map(*map, m) && computes(*reduce, g) ==> r == block_value(
                g,
                m,
                source@,
                apply_map,
                default,
                elements_per_thread as int,
                block_id as int,
            ),
{
    let mut shared: Vec<T> = Vec::new();
    let mut warp: usize = 0;
    while warp < WARP_SIZE
        invariant
            warp <= 32,
            shared@.len() == warp,
            (block_id + 1) * 1024 <= usize::MAX,
            (block_id + 1) * 1024 * elements_per_thread <= usize::MAX,
            forall|a: T| #[trigger] call_requires(*map, (a,)),
            forall|a: T, b: T| #[trigger] call_requires(*reduce, (a, b)),
            forall|m: spec_fn(T) -> T, g: spec_fn(T, T) -> T, w: int|
                #![trigger computes_map(*map, m), computes(*reduce, g), shared@[w]]
                computes_map(*map, m) && computes(*reduce, g) && 0 <= w < warp ==> shared@[w]
                    == warp_value(
                    g,
                    m,
                    source@,
                    apply_map,
                    default,
                    elements_per_thread as int,
                    block_id * 1024 + w * 32,
                ),
        decreases 32 - warp,
    {
        proof {
            let n = block_id * 1024 + warp * 32 + 32;
            let all = (block_id + 1) * 1024;
            assert(n * elements_per_thread <= all * elements_per_thread) by (nonlinear_arith)
                requires
                    n <= all,
            ;
        }
        let lanes = warp_partials(
            source,
            block_id * REDUCE_BLOCK + warp * WARP_SIZE,
            elements_per_thread,
            apply_map,
            map,
            reduce,
            default,
        );
        let value = warp_reduce(&lanes, reduce);
        shared.push(value);
        warp = warp + 1;
    }
    let result = warp_reduce(&shared, reduce);
    proof {
        assert forall|m: spec_fn(T) -> T, g: spec_fn(T, T) -> T|
            #![trigger computes_map(*map, m), computes(*reduce, g)]
            computes_map(*map, m) && computes(*reduce, g) implies result == block_value(
            g,
            m,
            source@,
            apply_map,
            default,
            elements_per_thread as int,
            block_id as int,
        ) by {
            assert(shared@ =~= Seq::new(
                32,
                |warp: int|
                    warp_value(
                        g,
                        m,
                        source@,
                        apply_map,
                        default,
                        elements_per_thread as int,
                        block_id * 1024 + warp * 32,
                    ),
            ));
        }
    }
    result
}

/// The results after a block has written its own, where there is a place for it.
pub open spec fn with_result<T>(results: Seq<T>, block: int, value: T) -> Seq<T> {
    if block < results.len() {
        results.update(block, value)
    } else {
        results
    }
}

/// Writes a block's value to its place among the results; a block without a place writes
/// nothing.
pub fn write_result<T>(result: &mut Vec<T>, block_id: usize, value: T)
    ensures
        final(result)@ == with_result(old(result)@, block_id as int, value),
{
    if block_id < result.len() {
        result.set(block_id, value);
    }
}

/// A block of a reduction: folds its threads' ranges and writes what comes out.
pub fn map_reduce_device<T: Copy, M: Fn(T) -> T, F: Fn(T, T) -> T>(
    source: &Vec<T>,
    result: &mut Vec<T>,
    block_id: usize,
    elements_per_thread: usize,
    apply_map: bool,
    map: &M,
    reduce: &F,
    default: T,
)
    requires
        (block_id + 1) * 1024 <= usize::MAX,
        (block_id + 1) * 1024 * elements_per_thread <= usize::MAX,
        forall|a: T| #[trigger] call_requires(*map, (a,)),
        forall|a: T, b: T| #[trigger] call_requires(*reduce, (a, b)),
    ensures
        final(result)@.len() == old(result)@.len(),
        forall|i: int|
            0 <= i < old(result)@.len() && i != block_id ==> #[trigger] final(result)@[i] == old(
                result,
            )@[i],
        forall|m: spec_fn(T) -> T, g: spec_fn(T, T) -> T|
            #![trigger computes_map(*map, m), computes(*reduce, g)]
            computes_map(*map, m) && computes(*reduce, g) ==> final(result)@ == with_result(
                old(result)@,
                block_id as int,
                block_value(
                    g,
                    m,
                    source@,
                    apply_map,
                    default,
                    elements_per_thread as int,
                    block_id as int,
                ),
            ),
{
    let value = block_fold(
        source,
        block_id,
        elements_per_thread,
        apply_map,
        map,
        reduce,
        default,
    );
    write_result(result, block_id, value);
}

/// A row of a row-major matrix.
pub open spec fn row_slice<T>(matrix: Seq<T>, cols: int, row: int) -> Seq<T> {
    matrix.subrange(row * cols, row * cols + cols)
}

/// A block of a sum over rows: folds the row with its number as the only block of that row
/// would, and writes what comes out to the row's place.
pub fn sum_rows_device<T: Copy, M: Fn(T) -> T, F: Fn(T, T) -> T>(
    matrix: &Vec<T>,
    result: &mut Vec<T>,
    cols: usize,
    elements_per_thread: usize,
    block_id: usize,
    map: &M,
    reduce: &F,
    default: T,
)
    requires
        (block_id + 1) * cols <= matrix@.len(),
        1024 * elements_per_thread <= usize::MAX,
        forall|a: T| #[trigger] call_requires(*map, (a,)),
        forall|a: T, b: T| #[trigger] call_requires(*reduce, (a, b)),
    ensures
        final(result)@.len() == old(result)@.len(),
        forall|i: int|
            0 <= i < old(result)@.len() && i != block_id ==> #[trigger] final(result)@[i] == old(
                result,
            )@[i],
        forall|m: spec_fn(T) -> T, g: spec_fn(T, T) -> T|
            #![trigger computes_map(*map, m), computes(*reduce, g)]
            computes_map(*map, m) && computes(*reduce, g) ==> final(result)@ == with_result(
                old(result)@,
                block_id as int,
                block_value(
                    g,
                    m,
                    row_slice(matrix@, cols as int, block_id as int),
                    true,
                    default,
                    elements_per_thread as int,
                    0,
                ),
            ),
{
    proof {
        assert((block_id + 1) * cols == block_id * cols + cols && 0 <= block_id * cols)
            by (nonlinear_arith);
    }
    let len: usize = matrix.len();
    let first: usize = block_id * cols;
    let mut row: Vec<T> = Vec::new();
    let mut col: usize = 0;
    while col < cols
        invariant
            col <= cols,
            first + cols <= matrix@.len() == len,
            row@ == matrix@.subrange(first as int, first + col),
        decreases cols - col,
    {
        row.push(matrix[first + col]);
        col = col + 1;
        assert(row@ =~= matrix@.subrange(first as int, first + col));
    }
    let value = block_fold(&row, 0, elements_per_thread, true, map, reduce, default);
    write_result(result, block_id, value);
}

/// A function that does not mind how its arguments are grouped, with an element
/// that changes nothing.
pub open spec fn monoid<T>(g: spec_fn(T, T) -> T, unit: T) -> bool {
    &&& forall|a: T, b: T, c: T| #[trigger] g(g(a, b), c) == g(a, g(b, c))
    &&& forall|a: T| #[trigger] g(unit, a) == a
    &&& forall|a: T| #[trigger] g(a, unit) == a
}

/// Folding one list after another.
proof fn lemma_fold_append<T>(g: spec_fn(T, T) -> T, unit: T, a: Seq<T>, b: Seq<T>)
    requires
        monoid(g, unit),
    ensures
        fold(g, unit, a + b) == g(fold(g, unit, a), fold(g, unit, b)),
    decreases b.len(),
{
    if b.len() == 0 {
        assert(a + b =~= a);
        assert(g(fold(g, unit, a), unit) == fold(g, unit, a));
    } else {
        lemma_fold_append(g, unit, a, b.drop_last());
        assert((a + b).drop_last() =~= a + b.drop_last());
        assert((a + b).last() == b.last());
        let x = fold(g, unit, a);
        let y = fold(g, unit, b.drop_last());
        assert(g(g(x, y), b.last()) == g(x, g(y, b.last())));
    }
}

/// A tree folds to the same as a list where grouping does not matter.
pub proof fn lemma_tree_is_fold<T>(g: spec_fn(T, T) -> T, unit: T, values: Seq<T>)
    requires
        monoid(g, unit),
        values.len() > 0,
    ensures
        tree(g, values) == fold(g, unit, values),
    decreases values.len(),
{
    if values.len() == 1 {
        assert(values.drop_last() =~= Seq::empty());
        assert(fold(g, unit, values.drop_last()) == unit);
        assert(g(unit, values[0]) == values[0]);
    } else {
        let half = (values.len() / 2) as int;
        lemma_tree_is_fold(g, unit, values.take(half));
        lemma_tree_is_fold(g, unit, values.skip(half));
        lemma_fold_append(g, unit, values.take(half), values.skip(half));
        assert(values.take(half) + values.skip(half) =~= values);
    }
}

/// Folding the folds of consecutive equal ranges is folding the whole range.
proof fn lemma_fold_of_ranges<T>(
    g: spec_fn(T, T) -> T,
    m: spec_fn(T) -> T,
    source: Seq<T>,
    apply_map: bool,
    unit: T,
    width: int,
    first: int,
    n: nat,
)
    requires
        monoid(g, unit),
        width >= 0,
        first >= 0,
    ensures
        fold(
            g,
            unit,
            Seq::new(
                n,
                |i: int|
                    fold(
                        g,
                        unit,
                        contributions(
                            source,
                            apply_map,
                            m,
                            unit,
                            (first + i) * width,
                            (first + i + 1) * width,
                        ),
                    ),
            ),
        ) == fold(
            g,
            unit,
            contributions(source, apply_map, m, unit, first * width, (first + n) * width),
        ),
    decreases n,
{
    let parts = Seq::new(
        n,
        |i: int|
            fold(
                g,
                unit,
                contributions(
                    source,
                    apply_map,
                    m,
                    unit,
                    (first + i) * width,
                    (first + i + 1) * width,
                ),
            ),
    );
    let whole = contributions(source, apply_map, m, unit, first * width, (first + n) * width);
    if n == 0 {
        assert(parts =~= Seq::empty());
        assert(whole =~= Seq::empty());
    } else {
        let less = (n - 1) as nat;
        lemma_fold_of_ranges(g, m, source, apply_map, unit, width, first, less);
        let shorter = Seq::new(
            less,
            |i: int|
                fold(
                    g,
                    unit,
                    contributions(
                        source,
                        apply_map,
                        m,
                        unit,
                        (first + i) * width,
                        (first + i + 1) * width,
                    ),
                ),
        );
        assert(parts.drop_last() =~= shorter);
        let a = contributions(source, apply_map, m, unit, first * width, (first + less) * width);
        let b = contributions(
            source,
            apply_map,
            m,
            unit,
            (first + less) * width,
            (first + n) * width,
        );
        assert((first + n) * width == (first + less) * width + width && first * width <= (first
            + less) * width) by (nonlinear_arith)
            requires
                n == less + 1,
                width >= 0,
        ;
        assert(first + less + 1 == first + n);
        assert(a + b =~= whole);
        lemma_fold_append(g, unit, a, b);
    }
}

/// Where grouping does not matter, a block writes the fold of everything in its
/// range.
pub proof fn law_block_folds_its_range<T>(
    g: spec_fn(T, T) -> T,
    m: spec_fn(T) -> T,
    source: Seq<T>,
    apply_map: bool,
    unit: T,
    elements_per_thread: int,
    block: int,
)
    requires
        monoid(g, unit),
        elements_per_thread >= 0,
        block >= 0,
    ensures
        block_value(g, m, source, apply_map, unit, elements_per_thread, block) == fold(
            g,
            unit,
            contributions(
                source,
                apply_map,
                m,
                unit,
                block * (1024 * elements_per_thread),
                (block + 1) * (1024 * elements_per_thread),
            ),
        ),
{
    let ept = elements_per_thread;
    let width = 32 * ept;
    let warps = Seq::new(
        32,
        |warp: int| warp_value(g, m, source, apply_map, unit, ept, block * 1024 + warp * 32),
    );
    lemma_tree_is_fold(g, unit, warps);
    let ranges = Seq::new(
        32,
        |i: int|
            fold(
                g,
                unit,
                contributions(
                    source,
                    apply_map,
                    m,
                    unit,
                    (block * 32 + i) * width,
                    (block * 32 + i + 1) * width,
                ),
            ),
    );
    assert forall|w: int| 0 <= w < 32 implies warps[w] == ranges[w] by {
        let first = block * 1024 + w * 32;
        let lanes = Seq::new(
            32,
            |lane: int| partial_of(g, m, source, apply_map, unit, ept, first + lane),
        );
        lemma_tree_is_fold(g, unit, lanes);
        lemma_fold_of_ranges(g, m, source, apply_map, unit, ept, first, 32);
        assert(lanes =~= Seq::new(
            32,
            |i: int|
                fold(
                    g,
                    unit,
                    contributions(
                        source,
                        apply_map,
                        m,
                        unit,
                        (first + i) * ept,
                        (first + i + 1) * ept,
                    ),
                ),
        ));
        assert(first * ept == (block * 32 + w) * width && (first + 32) * ept == (block * 32 + w + 1)
            * width) by (nonlinear_arith)
            requires
                first == block * 1024 + w * 32,
                width == 32 * ept,
        ;
    }
    assert(warps =~= ranges);
    lemma_fold_of_ranges(g, m, source, apply_map, unit, width, block * 32, 32);
    assert((block * 32) * width == block * (1024 * ept) && (block * 32 + 32) * width == (block + 1)
        * (1024 * ept)) by (nonlinear_arith)
        requires
            width == 32 * ept,
    ;
}

/// Where grouping does not matter, the fold of what all blocks write is the fold
/// of all mapped elements, provided that there are blocks enough.
pub proof fn law_blocks_fold_everything<T>(
    g: spec_fn(T, T) -> T,
    m: spec_fn(T) -> T,
    source: Seq<T>,
    apply_map: bool,
    unit: T,
    elements_per_thread: int,
    blocks: nat,
)
    requires
        monoid(g, unit),
        elements_per_thread >= 0,
        source.len() <= blocks * (1024 * elements_per_thread),
    ensures
        fold(
            g,
            unit,
            Seq::new(
                blocks,
                |b: int| block_value(g, m, source, apply_map, unit, elements_per_thread, b),
            ),
        ) == fold(
            g,
            unit,
            contributions(source, apply_map, m, unit, 0, source.len() as int),
        ),
{
    let width = 1024 * elements_per_thread;
    let written = Seq::new(
        blocks,
        |b: int| block_value(g, m, source, apply_map, unit, elements_per_thread, b),
    );
    assert forall|b: int| 0 <= b < blocks implies #[trigger] written[b] == fold(
        g,
        unit,
        contributions(source, apply_map, m, unit, b * width, (b + 1) * width),
    ) by {
        law_block_folds_its_range(g, m, source, apply_map, unit, elements_per_thread, b);
    }
    assert(written =~= Seq::new(
        blocks,
        |i: int|
            fold(
                g,
                unit,
                contributions(source, apply_map, m, unit, (0 + i) * width, (0 + i + 1) * width),
            ),
    ));
    lemma_fold_of_ranges(g, m, source, apply_map, unit, width, 0, blocks);
    assert(0 * width == 0) by (nonlinear_arith);
    let n = source.len() as int;
    let end = (0 + blocks) * width;
    let inside = contributions(source, apply_map, m, unit, 0, n);
    let past = contributions(source, apply_map, m, unit, n, end);
    assert(contributions(source, apply_map, m, unit, 0, end) =~= inside + past);
    lemma_fold_append(g, unit, inside, past);
    lemma_fold_of_units(g, unit, past);
    assert(g(fold(g, unit, inside), unit) == fold(g, unit, inside));
}

/// Elements that change nothing fold to one that changes nothing.
proof fn lemma_fold_of_units<T>(g: spec_fn(T, T) -> T, unit: T, values: Seq<T>)
    requires
        monoid(g, unit),
        forall|i: int| 0 <= i < values.len() ==> #[trigger] values[i] == unit,
    ensures
        fold(g, unit, values) == unit,
    decreases values.len(),
{
    if values.len() > 0 {
        lemma_fold_of_units(g, unit, values.drop_last());
        assert(values.last() == unit);
        assert(g(unit, unit) == unit);
    }
}

/// One exchange of a warp that only keeps agreement.
fn agree_step(lanes: &Vec<bool>, delta: usize) -> (r: Vec<bool>)
    requires
        lanes@.len() == 32,
        delta <= 32,
    ensures
        r@.len() == 32,
        forall|l: int|
            0 <= l < 32 ==> #[trigger] r@[l] == (lanes@[l] && (l + delta < 32 ==> lanes@[l
                + delta])),
{
    let mut next: Vec<bool> = Vec::new();
    let mut lane: usize = 0;
    while lane < WARP_SIZE
        invariant
            lane <= 32,
            lanes@.len() == 32,
            delta <= 32,
            next@.len() == lane,
            forall|l: int|
                0 <= l < lane ==> #[trigger] next@[l] == (lanes@[l] && (l + delta < 32 ==> lanes@[l
                    + delta])),
        decreases 32 - lane,
    {
        let mut agreed = lanes[lane];
        if lane + delta < WARP_SIZE {
            agreed = agreed && lanes[lane + delta];
        }
        next.push(agreed);
        lane = lane + 1;
    }
    next
}

/// Whether a run of lanes agrees.
pub open spec fn all_agree(lanes: Seq<bool>, from: int, to: int) -> bool {
    forall|i: int| from <= i < to && i < lanes.len() ==> #[trigger] lanes[i]
}

/// Whether all lanes of a warp agree.
pub fn warp_all(lanes: &Vec<bool>) -> (r: bool)
    requires
        lanes@.len() == 32,
    ensures
        r == all_agree(lanes@, 0, 32),
{
    let once = agree_step(lanes, 1);
    let twice = agree_step(&once, 2);
    let thrice = agree_step(&twice, 4);
    let fourth = agree_step(&thrice, 8);
    let last = agree_step(&fourth, 16);
    proof {
        let v = lanes@;
        lemma_agreement(v, v, once@, 1);
        lemma_agreement(v, once@, twice@, 2);
        lemma_agreement(v, twice@, thrice@, 4);
        lemma_agreement(v, thrice@, fourth@, 8);
        lemma_agreement(v, fourth@, last@, 16);
        assert(last@[0] == all_agree(v, 0, 32));
    }
    last[0]
}

/// An exchange doubles the run of lanes whose agreement a lane knows.
proof fn lemma_agreement(v: Seq<bool>, before: Seq<bool>, after: Seq<bool>, delta: int)
    requires
        v.len() == 32,
        1 <= delta <= 16,
        delta == 1 ==> before == v,
        delta > 1 ==> (forall|l: int|
            0 <= l < 32 ==> #[trigger] before[l] == all_agree(v, l, l + delta)),
        forall|l: int|
            0 <= l < 32 ==> #[trigger] after[l] == (before[l] && (l + delta < 32 ==> before[l
                + delta])),
    ensures
        forall|l: int| 0 <= l < 32 ==> #[trigger] after[l] == all_agree(v, l, l + 2 * delta),
{
    assert forall|l: int| 0 <= l < 32 implies #[trigger] after[l] == all_agree(v, l, l + 2 * delta) by {
        assert(before[l] == all_agree(v, l, l + delta)) by {
            if delta == 1 {
                assert(v[l] ==> all_agree(v, l, l + 1));
            }
        }
        if l + delta < 32 {
            assert(before[l + delta] == all_agree(v, l + delta, l + delta + delta)) by {
                if delta == 1 {
                    assert(v[l + 1] ==> all_agree(v, l + 1, l + 2));
                }
            }
        }
        if after[l] {
            assert forall|i: int| l <= i < l + 2 * delta && i < v.len() implies #[trigger] v[i] by {
                if i >= l + delta {
                    assert(before[l + delta]);
                }
            }
        }
        if all_agree(v, l, l + 2 * delta) {
            assert(all_agree(v, l, l + delta));
            if l + delta < 32 {
                assert(all_agree(v, l + delta, l + delta + delta));
            }
        }
    }
}

/// Whether two vectors agree on a range, as far as both go.
pub open spec fn agree_on<T>(
    g: spec_fn(T, T) -> bool,
    lhs: Seq<T>,
    rhs: Seq<T>,
    from: int,
    to: int,
) -> bool {
    forall|i: int|
        from <= i < to && i < lhs.len() && i < rhs.len() ==> g(#[trigger] lhs[i], rhs[i])
}

/// Whether two vectors agree on the elements of one thread.
fn thread_agrees<T: Copy, F: Fn(T, T) -> bool>(
    lhs: &Vec<T>,
    rhs: &Vec<T>,
    from: usize,
    to: usize,
    same: &F,
) -> (r: bool)
    requires
        from <= to,
        forall|a: T, b: T| #[trigger] call_requires(*same, (a, b)),
    ensures
        forall|g: spec_fn(T, T) -> bool| #[trigger]
            compares(*same, g) ==> r == agree_on(g, lhs@, rhs@, from as int, to as int),
{
    let mut agreed = true;
    let mut index: usize = from;
    while index < to
        invariant
            from <= index <= to,
            forall|a: T, b: T| #[trigger] call_requires(*same, (a, b)),
            forall|g: spec_fn(T, T) -> bool| #[trigger]
                compares(*same, g) ==> agreed == agree_on(
                    g,
                    lhs@,
                    rhs@,
                    from as int,
                    index as int,
                ),
        decreases to - index,
    {
        let ghost so_far = agreed;
        if index < lhs.len() && index < rhs.len() {
            let one = same(lhs[index], rhs[index]);
            agreed = agreed && one;
        }
        proof {
            assert forall|g: spec_fn(T, T) -> bool| #[trigger] compares(*same, g) implies agreed
                == agree_on(g, lhs@, rhs@, from as int, index + 1) by {
                if agree_on(g, lhs@, rhs@, from as int, index + 1) {
                    assert(agree_on(g, lhs@, rhs@, from as int, index as int));
                    if index < lhs@.len() && index < rhs@.len() {
                        let e = lhs@[index as int];
                    }
                }
            }
        }
        index = index + 1;
    }
    agreed
}

/// Ranges that follow one another agree exactly if the whole does.
proof fn lemma_agree_pieces<T>(
    g: spec_fn(T, T) -> bool,
    lhs: Seq<T>,
    rhs: Seq<T>,
    from: int,
    step: int,
    count: int,
)
    requires
        step >= 0,
        count >= 0,
    ensures
        agree_on(g, lhs, rhs, from, from + count * step) <==> (forall|k: int|
            0 <= k < count ==> #[trigger] agree_on(
                g,
                lhs,
                rhs,
                from + k * step,
                from + (k + 1) * step,
            )),
{
    let whole = agree_on(g, lhs, rhs, from, from + count * step);
    if whole {
        assert forall|k: int| 0 <= k < count implies #[trigger] agree_on(
            g,
            lhs,
            rhs,
            from + k * step,
            from + (k + 1) * step,
        ) by {
            assert(0 <= k * step && (k + 1) * step <= count * step) by (nonlinear_arith)
                requires
                    0 <= k < count,
                    step >= 0,
            ;
        }
    }
    if forall|k: int|
        0 <= k < count ==> #[trigger] agree_on(g, lhs, rhs, from + k * step, from + (k + 1) * step) {
        assert forall|i: int|
            from <= i < from + count * step && i < lhs.len() && i < rhs.len() implies g(
            #[trigger] lhs[i],
            rhs[i],
        ) by {
            assert(step > 0) by (nonlinear_arith)
                requires
                    0 < count * step,
                    step >= 0,
            ;
            let k = (i - from) / step;
            vstd::arithmetic::div_mod::lemma_fundamental_div_mod(i - from, step);
            assert(0 <= k < count && k * step <= i - from < (k + 1) * step) by (nonlinear_arith)
                requires
                    i - from == step * k + (i - from) % step,
                    0 <= (i - from) % step < step,
                    0 <= i - from < count * step,
                    step > 0,
            ;
            assert(agree_on(g, lhs, rhs, from + k * step, from + (k + 1) * step));
        }
    }
}

/// Whether two vectors agree on a block's elements, of which every thread handles the same
/// number.
pub fn block_agrees<T: Copy, F: Fn(T, T) -> bool>(
    lhs: &Vec<T>,
    rhs: &Vec<T>,
    elements_per_thread: usize,
    block_id: usize,
    same: &F,
) -> (r: bool)
    requires
        (block_id + 1) * 1024 <= usize::MAX,
        (block_id + 1) * 1024 * elements_per_thread <= usize::MAX,
        forall|a: T, b: T| #[trigger] call_requires(*same, (a, b)),
    ensures
        forall|g: spec_fn(T, T) -> bool| #[trigger]
            compares(*same, g) ==> r == agree_on(
                g,
                lhs@,
                rhs@,
                block_id * 1024 * elements_per_thread,
                (block_id + 1) * 1024 * elements_per_thread,
            ),
{
    let ghost per = elements_per_thread as int;
    let ghost base = block_id * 1024;
    let mut shared: Vec<bool> = Vec::new();
    let mut warp: usize = 0;
    while warp < WARP_SIZE
        invariant
            warp <= 32,
            shared@.len() == warp,
            per == elements_per_thread,
            base == block_id * 1024,
            (block_id + 1) * 1024 <= usize::MAX,
            (block_id + 1) * 1024 * elements_per_thread <= usize::MAX,
            forall|a: T, b: T| #[trigger] call_requires(*same, (a, b)),
            forall|g: spec_fn(T, T) -> bool, w: int|
                #![trigger compares(*same, g), shared@[w]]
                compares(*same, g) && 0 <= w < warp ==> shared@[w] == agree_on(
                    g,
                    lhs@,
                    rhs@,
                    (base + w * 32) * per,
                    (base + w * 32) * per + 32 * per,
                ),
        decreases 32 - warp,
    {
        let first: usize = block_id * REDUCE_BLOCK + warp * WARP_SIZE;
        let mut lanes: Vec<bool> = Vec::new();
        let mut lane: usize = 0;
        while lane < WARP_SIZE
            invariant
                lane <= 32,
                lanes@.len() == lane,
                first + 32 <= (block_id + 1) * 1024 <= usize::MAX,
                (block_id + 1) * 1024 * elements_per_thread <= usize::MAX,
                per == elements_per_thread,
                forall|a: T, b: T| #[trigger] call_requires(*same, (a, b)),
                forall|g: spec_fn(T, T) -> bool, l: int|
                    #![trigger compares(*same, g), lanes@[l]]
                    compares(*same, g) && 0 <= l < lane ==> lanes@[l] == agree_on(
                        g,
                        lhs@,
                        rhs@,
                        first * per + l * per,
                        first * per + (l + 1) * per,
                    ),
            decreases 32 - lane,
        {
            let thread: usize = first + lane;
            proof {
                assert((thread + 1) * per <= (block_id + 1) * 1024 * elements_per_thread)
                    by (nonlinear_arith)
                    requires
                        thread + 1 <= (block_id + 1) * 1024,
                        per == elements_per_thread,
                        per >= 0,
                ;
                assert(0 <= thread * per && thread * per + per == (thread + 1) * per)
                    by (nonlinear_arith)
                    requires
                        per >= 0,
                        thread >= 0,
                ;
                assert(thread * per == first * per + lane * per) by (nonlinear_arith)
                    requires
                        thread == first + lane,
                ;
                assert((lane + 1) * per == lane * per + per) by (nonlinear_arith);
            }
            let from: usize = thread * elements_per_thread;
            let agreed = thread_agrees(lhs, rhs, from, from + elements_per_thread, same);
            lanes.push(agreed);
            lane = lane + 1;
        }
        let value = warp_all(&lanes);
        proof {
            assert forall|g: spec_fn(T, T) -> bool| #[trigger] compares(*same, g) implies value
                == agree_on(g, lhs@, rhs@, first * per, first * per + 32 * per) by {
                lemma_agree_pieces(g, lhs@, rhs@, first * per, per, 32);
                if value {
                    assert forall|k: int| 0 <= k < 32 implies #[trigger] agree_on(
                        g,
                        lhs@,
                        rhs@,
                        first * per + k * per,
                        first * per + (k + 1) * per,
                    ) by {
                        assert(lanes@[k]);
                    }
                }
            }
        }
        shared.push(value);
        warp = warp + 1;
    }
    let result = warp_all(&shared);
    proof {
        assert forall|g: spec_fn(T, T) -> bool| #[trigger] compares(*same, g) implies result
            == agree_on(
            g,
            lhs@,
            rhs@,
            block_id * 1024 * elements_per_thread,
            (block_id + 1) * 1024 * elements_per_thread,
        ) by {
            let step = 32 * per;
            let from = base * per;
            lemma_agree_pieces(g, lhs@, rhs@, from, step, 32);
            assert((block_id + 1) * 1024 * per == from + 32 * step) by (nonlinear_arith)
                requires
                    base == block_id * 1024,
                    step == 32 * per,
                    from == base * per,
            ;
            assert forall|w: int| 0 <= w < 32 implies #[trigger] shared@[w] == agree_on(
                g,
                lhs@,
                rhs@,
                from + w * step,
                from + (w + 1) * step,
            ) by {
                assert((base + w * 32) * per == from + w * step && (base + w * 32) * per + 32 * per
                    == from + (w + 1) * step) by (nonlinear_arith)
                    requires
                        step == 32 * per,
                        from == base * per,
                ;
            }
            if result {
                assert forall|k: int| 0 <= k < 32 implies #[trigger] agree_on(
                    g,
                    lhs@,
                    rhs@,
                    from + k * step,
                    from + (k + 1) * step,
                ) by {
                    assert(shared@[k]);
                }
            }
        }
    }
    result
}

/// A block of a comparison: writes one where its elements agree and zero elsewhere.
pub fn compare_vectors_device<T: Copy, F: Fn(T, T) -> bool>(
    lhs: &Vec<T>,
    rhs: &Vec<T>,
    elements_per_thread: usize,
    result: &mut Vec<u32>,
    block_id: usize,
    same: &F,
)
    requires
        (block_id + 1) * 1024 <= usize::MAX,
        (block_id + 1) * 1024 * elements_per_thread <= usize::MAX,
        forall|a: T, b: T| #[trigger] call_requires(*same, (a, b)),
    ensures
        final(result)@.len() == old(result)@.len(),
        forall|i: int|
            0 <= i < old(result)@.len() && i != block_id ==> #[trigger] final(result)@[i] == old(
                result,
            )@[i],
        forall|g: spec_fn(T, T) -> bool| #[trigger]
            compares(*same, g) ==> final(result)@ == with_result(
                old(result)@,
                block_id as int,
                if agree_on(
                    g,
                    lhs@,
                    rhs@,
                    block_id * 1024 * elements_per_thread,
                    (block_id + 1) * 1024 * elements_per_thread,
                ) {
                    1u32
                } else {
                    0u32
                },
            ),
{
    let agreed = block_agrees(lhs, rhs, elements_per_thread, block_id, same);
    let word: u32 = if agreed {
        1
    } else {
        0
    };
    write_result(result, block_id, word);
}

/// Vectors agree exactly if they agree on every block.
pub proof fn law_blocks_compare_everything<T>(
    g: spec_fn(T, T) -> bool,
    lhs: Seq<T>,
    rhs: Seq<T>,
    elements_per_thread: int,
    blocks: int,
)
    requires
        lhs.len() == rhs.len(),
        0 <= elements_per_thread,
        0 <= blocks,
        lhs.len() <= blocks * (1024 * elements_per_thread),
    ensures
        (forall|b: int|
            0 <= b < blocks ==> #[trigger] agree_on(
                g,
                lhs,
                rhs,
                b * 1024 * elements_per_thread,
                (b + 1) * 1024 * elements_per_thread,
            )) <==> (forall|i: int| 0 <= i < lhs.len() ==> g(#[trigger] lhs[i], rhs[i])),
{
    let step = 1024 * elements_per_thread;
    lemma_agree_pieces(g, lhs, rhs, 0, step, blocks);
    assert forall|b: int| 0 <= b < blocks implies #[trigger] agree_on(
        g,
        lhs,
        rhs,
        b * 1024 * elements_per_thread,
        (b + 1) * 1024 * elements_per_thread,
    ) == agree_on(g, lhs, rhs, 0 + b * step, 0 + (b + 1) * step) by {
        assert(b * 1024 * elements_per_thread == b * step && (b + 1) * 1024 * elements_per_thread
            == (b + 1) * step) by (nonlinear_arith)
            requires
                step == 1024 * elements_per_thread,
        ;
    }
    if forall|b: int|
        0 <= b < blocks ==> #[trigger] agree_on(
            g,
            lhs,
            rhs,
            b * 1024 * elements_per_thread,
            (b + 1) * 1024 * elements_per_thread,
        ) {
        assert forall|k: int| 0 <= k < blocks implies #[trigger] agree_on(
            g,
            lhs,
            rhs,
            0 + k * step,
            0 + (k + 1) * step,
        ) by {
            assert(agree_on(
                g,
                lhs,
                rhs,
                k * 1024 * elements_per_thread,
                (k + 1) * 1024 * elements_per_thread,
            ));
        }
        assert(agree_on(g, lhs, rhs, 0, 0 + blocks * step));
    }
}

/// The one block that a comparison of two vectors launches, with a share of the elements for
/// every thread, tells whether they agree everywhere.
pub proof fn law_one_block_compares_everything<T>(
    g: spec_fn(T, T) -> bool,
    lhs: Seq<T>,
    rhs: Seq<T>,
)
    requires
        lhs.len() == rhs.len(),
    ensures
        agree_on(
            g,
            lhs,
            rhs,
            0 * 1024 * ceil_div(lhs.len() as int, 1024),
            (0 + 1) * 1024 * ceil_div(lhs.len() as int, 1024),
        ) <==> (forall|i: int| 0 <= i < lhs.len() ==> g(#[trigger] lhs[i], rhs[i])),
{
    let per = ceil_div(lhs.len() as int, 1024);
    lemma_ceil_div(lhs.len() as int, 1024);
    let whole = agree_on(g, lhs, rhs, 0 * 1024 * per, (0 + 1) * 1024 * per);
    assert(0 * 1024 * per == 0 && (0 + 1) * 1024 * per == 1024 * per) by (nonlinear_arith);
    if whole {
        assert(agree_on(g, lhs, rhs, 0, 1024 * per));
        assert forall|i: int| 0 <= i < lhs.len() implies g(#[trigger] lhs[i], rhs[i]) by {
            assert(i < 1024 * per);
        }
    }
}

} // verus!
