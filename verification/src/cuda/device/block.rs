//! What the threads of a launch make together: the meaning of their steps, and the matrix
//! products that come out.
//!
//! The threads of a block take their steps together. Copies to shared memory arrive at the
//! next wait; until then what they replace is undefined. A register is known by the products
//! that were added to it, in their order.

use vstd::prelude::*;

use super::gemm::{
    a_place, b_place, contiguous_shape, law_every_result_is_made_once,
    law_fragments_hold_each_element_once, law_loads_fill_the_stage,
    law_registers_hold_inner_products, loader, output_col, output_row, single_batch, staged_a,
    staged_b, tile_at, BatchShape, BlockTile, ProductShape, ThreadStep,
};
use crate::cuda::algebra::{column_of, row_of, Term};
use crate::cuda::arith::{ceil_div, lemma_ceil_div, lemma_row_col};
use crate::cuda::command::{
    DeviceSliceDescriptor, Kernel, LaunchConfig, MatrixBatchDescriptor,
};
use crate::cuda::model::Device;

verus! {

/// The operands of a product, from their first elements on.
#[verifier::reject_recursive_types(T)]
pub ghost struct Operands<T> {
    pub a: spec_fn(int) -> T,
    pub b: spec_fn(int) -> T,
    pub zero: T,
}

/// The elements that were multiplied with one another for a register; none where shared
/// memory was undefined.
pub type Products<T> = Seq<(Option<T>, Option<T>)>;

/// Shared memory and registers of a block: cells by stage and place, what is on its way to
/// them, and registers by thread, number and side.
#[verifier::reject_recursive_types(T)]
pub ghost struct BlockState<T> {
    pub a: spec_fn(int, int) -> Option<T>,
    pub b: spec_fn(int, int) -> Option<T>,
    pub arriving_a: spec_fn(int, int) -> Option<T>,
    pub arriving_b: spec_fn(int, int) -> Option<T>,
    pub registers: spec_fn(int, int, bool) -> Products<T>,
}

/// A thread's step.
pub open spec fn taken(programs: spec_fn(int) -> Seq<ThreadStep>, thread: int, i: int) -> Option<
    ThreadStep,
> {
    if 0 <= i < programs(thread).len() {
        Some(programs(thread)[i])
    } else {
        None
    }
}

/// Whether a thread's step copies to a cell.
pub open spec fn copies(
    programs: spec_fn(int) -> Seq<ThreadStep>,
    i: int,
    stage: int,
    place: int,
    thread: int,
) -> bool {
    &&& 0 <= thread < 128
    &&& taken(programs, thread, i) matches Some(ThreadStep::Load { stage: s, sources })
        && s == stage && sources.destination <= place < sources.destination + 4
}

/// Whether any thread's does.
pub open spec fn copied(
    programs: spec_fn(int) -> Seq<ThreadStep>,
    i: int,
    stage: int,
    place: int,
) -> bool {
    exists|thread: int| #[trigger] copies(programs, i, stage, place, thread)
}

/// Whether the block waits.
pub open spec fn waits(programs: spec_fn(int) -> Seq<ThreadStep>, i: int) -> bool {
    forall|thread: int|
        0 <= thread < 128 ==> #[trigger] taken(programs, thread, i) == Some(ThreadStep::Wait)
}

/// The products that a tensor instruction adds to a register: the elements come from the
/// registers of the lanes that hold them.
pub open spec fn slice_products<T>(
    state: BlockState<T>,
    stage: int,
    a_tile: int,
    b_tile: int,
    k_offset: int,
    lane: int,
    register: int,
    right: bool,
) -> Products<T> {
    let row = lane / 4 + 8 * (register / 2);
    let col = (lane % 4) * 2 + register % 2;
    Seq::new(
        8,
        |k: int|
            (
                (state.a)(
                    stage,
                    a_tile + a_place(k_offset, (row % 8) * 4 + k % 4, row / 8 + 2 * (k / 4)),
                ),
                (state.b)(stage, b_tile + b_place(k_offset, col * 4 + k % 4, k / 4, right)),
            ),
    )
}

impl<T> BlockState<T> {
    /// Before the first step.
    pub open spec fn initial() -> BlockState<T> {
        BlockState {
            a: |stage: int, place: int| None,
            b: |stage: int, place: int| None,
            arriving_a: |stage: int, place: int| None,
            arriving_b: |stage: int, place: int| None,
            registers: |thread: int, register: int, right: bool| Seq::empty(),
        }
    }

    /// One step of every thread.
    pub open spec fn step(
        self,
        operands: Operands<T>,
        programs: spec_fn(int) -> Seq<ThreadStep>,
        i: int,
    ) -> BlockState<T> {
        let source = |stage: int, place: int|
            taken(
                programs,
                choose|thread: int| #[trigger] copies(programs, i, stage, place, thread),
                i,
            )->0->sources;
        BlockState {
            a: |stage: int, place: int|
                if copied(programs, i, stage, place) {
                    None
                } else if waits(programs, i) && (self.arriving_a)(stage, place) is Some {
                    (self.arriving_a)(stage, place)
                } else {
                    (self.a)(stage, place)
                },
            b: |stage: int, place: int|
                if copied(programs, i, stage, place) {
                    None
                } else if waits(programs, i) && (self.arriving_b)(stage, place) is Some {
                    (self.arriving_b)(stage, place)
                } else {
                    (self.b)(stage, place)
                },
            arriving_a: |stage: int, place: int|
                if copied(programs, i, stage, place) {
                    let from = source(stage, place);
                    let j = place - from.destination;
                    Some(
                        if j < from.a_valid {
                            (operands.a)(from.a + j)
                        } else {
                            operands.zero
                        },
                    )
                } else if waits(programs, i) {
                    None
                } else {
                    (self.arriving_a)(stage, place)
                },
            arriving_b: |stage: int, place: int|
                if copied(programs, i, stage, place) {
                    let from = source(stage, place);
                    let j = place - from.destination;
                    Some(
                        if j < from.b_valid {
                            (operands.b)(from.b + j)
                        } else {
                            operands.zero
                        },
                    )
                } else if waits(programs, i) {
                    None
                } else {
                    (self.arriving_b)(stage, place)
                },
            registers: |thread: int, register: int, right: bool|
                match taken(programs, thread, i) {
                    Some(ThreadStep::Multiply { stage, a_tile, b_tile, k_offset }) => (
                    self.registers)(thread, register, right) + slice_products(
                        self,
                        stage as int,
                        a_tile as int,
                        b_tile as int,
                        k_offset as int,
                        thread % 32,
                        register,
                        right,
                    ),
                    _ => (self.registers)(thread, register, right),
                },
        }
    }
}

/// A block after its first steps.
pub open spec fn after<T>(
    operands: Operands<T>,
    programs: spec_fn(int) -> Seq<ThreadStep>,
    n: int,
) -> BlockState<T>
    decreases n,
{
    if n <= 0 {
        BlockState::initial()
    } else {
        after(operands, programs, n - 1).step(operands, programs, n - 1)
    }
}

/// Whether a thread of a block writes these products to a position.
pub open spec fn writes_products<T>(
    operands: Operands<T>,
    programs: spec_fn(int) -> Seq<ThreadStep>,
    thread: int,
    i: int,
    position: int,
    products: Products<T>,
) -> bool {
    &&& 0 <= thread < 128
    &&& taken(programs, thread, i) matches Some(ThreadStep::Write { position: p, register, right })
        && p == position && products == (after(operands, programs, i).registers)(
        thread,
        register as int,
        right,
    )
}

impl ProductShape {
    /// The programs of a block's threads.
    pub open spec fn programs(self, batches: BatchShape, tile: BlockTile) -> spec_fn(int) -> Seq<
        ThreadStep,
    > {
        |thread: int| self.program(batches, tile, thread)
    }

    /// The products of a row and a column: one for every element of the common dimension,
    /// and products of zeros up to a whole tile.
    pub open spec fn row_by_column<T>(self, operands: Operands<T>, row: int, col: int) -> Products<T> {
        Seq::new(
            (16 * self.k_tiles()) as nat,
            |k: int|
                if k < self.inner {
                    (
                        Some((operands.a)(row * self.a_row_stride + k)),
                        Some((operands.b)(k * self.b_row_stride + col)),
                    )
                } else {
                    (Some(operands.zero), Some(operands.zero))
                },
        )
    }

    /// A stage holds the tiles of a step along the common dimension.
    spec fn holds<T>(self, operands: Operands<T>, tile: BlockTile, state: BlockState<T>, n: int) -> bool {
        forall|subtile: int, row: int, col: int|
            #![trigger (state.a)(n % 2, subtile * 256 + tile_at(row, col))]
            #![trigger (state.b)(n % 2, subtile * 256 + tile_at(row, col))]
            0 <= subtile < 2 && 0 <= row < 16 && 0 <= col < 16 ==> (state.a)(
                n % 2,
                subtile * 256 + tile_at(row, col),
            ) == Some(self.a_tile(operands, tile, n, subtile, row, col)) && (state.b)(
                n % 2,
                subtile * 256 + tile_at(row, col),
            ) == Some(self.b_tile(operands, tile, n, subtile, row, col))
    }

    /// So do the copies on their way.
    spec fn arrives<T>(self, operands: Operands<T>, tile: BlockTile, state: BlockState<T>, n: int) -> bool {
        forall|subtile: int, row: int, col: int|
            #![trigger (state.arriving_a)(n % 2, subtile * 256 + tile_at(row, col))]
            #![trigger (state.arriving_b)(n % 2, subtile * 256 + tile_at(row, col))]
            0 <= subtile < 2 && 0 <= row < 16 && 0 <= col < 16 ==> (state.arriving_a)(
                n % 2,
                subtile * 256 + tile_at(row, col),
            ) == Some(self.a_tile(operands, tile, n, subtile, row, col)) && (state.arriving_b)(
                n % 2,
                subtile * 256 + tile_at(row, col),
            ) == Some(self.b_tile(operands, tile, n, subtile, row, col))
    }

    spec fn a_tile<T>(
        self,
        operands: Operands<T>,
        tile: BlockTile,
        n: int,
        subtile: int,
        row: int,
        col: int,
    ) -> T {
        staged_a(
            self,
            operands.a,
            operands.zero,
            tile.block_row as int,
            tile.block_col as int,
            n,
            subtile,
            row,
            col,
        )
    }

    spec fn b_tile<T>(
        self,
        operands: Operands<T>,
        tile: BlockTile,
        n: int,
        subtile: int,
        row: int,
        col: int,
    ) -> T {
        staged_b(
            self,
            operands.b,
            operands.zero,
            tile.block_row as int,
            tile.block_col as int,
            n,
            subtile,
            row,
            col,
        )
    }

    /// The product that is added `k`-th to a register.
    spec fn nth_product<T>(
        self,
        operands: Operands<T>,
        tile: BlockTile,
        thread: int,
        register: int,
        right: bool,
        k: int,
    ) -> (Option<T>, Option<T>) {
        let lane = thread % 32;
        let row = lane / 4 + 8 * (register / 2);
        let col = (lane % 4) * 2 + register % 2 + if right {
            8int
        } else {
            0
        };
        (
            Some(self.a_tile(operands, tile, k / 16, thread / 32 / 2, row, k % 16)),
            Some(self.b_tile(operands, tile, k / 16, thread / 32 % 2, k % 16, col)),
        )
    }

    /// Registers hold the first products.
    spec fn adds<T>(self, operands: Operands<T>, tile: BlockTile, state: BlockState<T>, n: int) -> bool {
        forall|thread: int, register: int, right: bool|
            0 <= thread < 128 && 0 <= register < 4 ==> #[trigger] (state.registers)(
                thread,
                register,
                right,
            ) == Seq::new(
                n as nat,
                |k: int| self.nth_product(operands, tile, thread, register, right, k),
            )
    }
}

/// The steps of a thread along the common dimension, one by one.
proof fn lemma_steps(shape: ProductShape, tile: BlockTile, thread: int, n: int, m: int, j: int)
    requires
        0 <= m < n <= shape.k_tiles(),
        0 <= j < shape.k_steps(tile, thread, m).len(),
    ensures
        shape.steps_upto(tile, thread, n).len() == if n < shape.k_tiles() {
            3 + 5 * n
        } else {
            5 * n
        },
        shape.steps_upto(tile, thread, n)[3 + 5 * m + j] == shape.k_steps(tile, thread, m)[j],
        shape.steps_upto(tile, thread, n)[0] == shape.load_step(tile, thread, 0),
        shape.steps_upto(tile, thread, n)[1] == ThreadStep::Commit,
        shape.steps_upto(tile, thread, n)[2] == ThreadStep::Wait,
    decreases n,
{
    let fewer = shape.steps_upto(tile, thread, n - 1);
    let last = shape.k_steps(tile, thread, n - 1);
    assert(shape.steps_upto(tile, thread, n) == fewer + last);
    if n - 1 > 0 {
        if m < n - 1 {
            lemma_steps(shape, tile, thread, n - 1, m, j);
        } else {
            lemma_steps(shape, tile, thread, n - 1, 0, 0);
        }
    } else {
        assert(fewer == shape.steps_upto(tile, thread, 0));
        assert(fewer.len() == 3);
    }
}

/// The same within the whole program of a thread.
#[verifier::spinoff_prover]
#[verifier::rlimit(40)]
proof fn lemma_thread_step(
    shape: ProductShape,
    batches: BatchShape,
    tile: BlockTile,
    thread: int,
    m: int,
    j: int,
)
    requires
        0 <= m < shape.k_tiles(),
        0 <= j < shape.k_steps(tile, thread, m).len(),
    ensures
        taken(shape.programs(batches, tile), thread, 3 + 5 * m + j) == Some(
            shape.k_steps(tile, thread, m)[j],
        ),
{
    lemma_steps(shape, tile, thread, shape.k_tiles(), m, j);
}

/// How the program of a thread starts.
#[verifier::spinoff_prover]
#[verifier::rlimit(40)]
proof fn lemma_thread_start(
    shape: ProductShape,
    batches: BatchShape,
    tile: BlockTile,
    thread: int,
)
    requires
        0 < shape.k_tiles(),
    ensures
        taken(shape.programs(batches, tile), thread, 0) == Some(shape.load_step(tile, thread, 0)),
        taken(shape.programs(batches, tile), thread, 1) == Some(ThreadStep::Commit),
        taken(shape.programs(batches, tile), thread, 2) == Some(ThreadStep::Wait),
{
    lemma_steps(shape, tile, thread, shape.k_tiles(), 0, 0);
}

/// How all programs start.
#[verifier::spinoff_prover]
#[verifier::rlimit(40)]
proof fn lemma_starts(shape: ProductShape, batches: BatchShape, tile: BlockTile)
    requires
        0 < shape.k_tiles(),
    ensures
        forall|thread: int|
            #![trigger taken(shape.programs(batches, tile), thread, 0)]
            taken(shape.programs(batches, tile), thread, 0) == Some(
                shape.load_step(tile, thread, 0),
            ),
        forall|thread: int|
            #![trigger taken(shape.programs(batches, tile), thread, 1)]
            taken(shape.programs(batches, tile), thread, 1) == Some(ThreadStep::Commit),
        forall|thread: int|
            #![trigger taken(shape.programs(batches, tile), thread, 2)]
            taken(shape.programs(batches, tile), thread, 2) == Some(ThreadStep::Wait),
{
    let programs = shape.programs(batches, tile);
    assert forall|thread: int|
        #![trigger taken(programs, thread, 0)]
        taken(programs, thread, 0) == Some(shape.load_step(tile, thread, 0)) by {
        lemma_thread_start(shape, batches, tile, thread);
    }
    assert forall|thread: int|
        #![trigger taken(programs, thread, 1)]
        taken(programs, thread, 1) == Some(ThreadStep::Commit) by {
        lemma_thread_start(shape, batches, tile, thread);
    }
    assert forall|thread: int|
        #![trigger taken(programs, thread, 2)]
        taken(programs, thread, 2) == Some(ThreadStep::Wait) by {
        lemma_thread_start(shape, batches, tile, thread);
    }
}

/// The steps of all programs along the common dimension.
#[verifier::spinoff_prover]
#[verifier::rlimit(40)]
proof fn lemma_program(shape: ProductShape, batches: BatchShape, tile: BlockTile, m: int)
    requires
        0 <= m < shape.k_tiles(),
    ensures
        forall|thread: int, j: int|
            0 <= j < shape.k_steps(tile, thread, m).len() ==> taken(
                shape.programs(batches, tile),
                thread,
                3 + 5 * m + j,
            ) == Some(#[trigger] shape.k_steps(tile, thread, m)[j]),
{
    let programs = shape.programs(batches, tile);
    assert forall|thread: int, j: int|
        0 <= j < shape.k_steps(tile, thread, m).len() implies taken(
        programs,
        thread,
        3 + 5 * m + j,
    ) == Some(#[trigger] shape.k_steps(tile, thread, m)[j]) by {
        lemma_thread_step(shape, batches, tile, thread, m, j);
    }
}

/// A step in which every thread copies its part brings the tiles on their way, and leaves the
/// other stage.
#[verifier::spinoff_prover]
#[verifier::rlimit(60)]
proof fn lemma_load<T>(
    shape: ProductShape,
    operands: Operands<T>,
    tile: BlockTile,
    programs: spec_fn(int) -> Seq<ThreadStep>,
    state: BlockState<T>,
    i: int,
    n: int,
)
    requires
        n >= 0,
        forall|thread: int|
            #![trigger taken(programs, thread, i)]
            0 <= thread < 128 ==> taken(programs, thread, i) == Some(
                shape.load_step(tile, thread, n),
            ),
    ensures
        shape.arrives(operands, tile, state.step(operands, programs, i), n),
        forall|place: int|
            #![trigger (state.step(operands, programs, i).a)((n + 1) % 2, place)]
            (state.step(operands, programs, i).a)((n + 1) % 2, place) == (state.a)(
                (n + 1) % 2,
                place,
            ),
        forall|place: int|
            #![trigger (state.step(operands, programs, i).b)((n + 1) % 2, place)]
            (state.step(operands, programs, i).b)((n + 1) % 2, place) == (state.b)(
                (n + 1) % 2,
                place,
            ),
        forall|thread: int, register: int, right: bool|
            0 <= thread < 128 ==> #[trigger] (state.step(operands, programs, i).registers)(
                thread,
                register,
                right,
            ) == (state.registers)(thread, register, right),
{
    let next = state.step(operands, programs, i);
    assert(taken(programs, 0, i) != Some(ThreadStep::Wait));
    assert(!waits(programs, i));
    assert forall|place: int| !#[trigger] copied(programs, i, (n + 1) % 2, place) by {
        assert forall|thread: int| !#[trigger] copies(programs, i, (n + 1) % 2, place, thread) by {
            if 0 <= thread < 128 {
                assert(taken(programs, thread, i) == Some(shape.load_step(tile, thread, n)));
            }
        }
    }
    assert forall|subtile: int, row: int, col: int|
        0 <= subtile < 2 && 0 <= row < 16 && 0 <= col < 16 implies (#[trigger] (next.arriving_a)(
        n % 2,
        subtile * 256 + tile_at(row, col),
    ) == Some(shape.a_tile(operands, tile, n, subtile, row, col)) && (next.arriving_b)(
        n % 2,
        subtile * 256 + tile_at(row, col),
    ) == Some(shape.b_tile(operands, tile, n, subtile, row, col))) by {
        let place = subtile * 256 + tile_at(row, col);
        let t = loader(subtile, row, col);
        let br = tile.block_row as int;
        let bc = tile.block_col as int;
        law_loads_fill_the_stage(shape, br, bc, n, subtile, row, col, t);
        assert(taken(programs, t, i) == Some(shape.load_step(tile, t, n)));
        assert(copies(programs, i, n % 2, place, t));
        let c = choose|thread: int| #[trigger] copies(programs, i, n % 2, place, thread);
        assert(copies(programs, i, n % 2, place, c));
        assert(taken(programs, c, i) == Some(shape.load_step(tile, c, n)));
        law_loads_fill_the_stage(shape, br, bc, n, subtile, row, col, c);
        assert(c == t);
        assert(copied(programs, i, n % 2, place));
        assert(place - shape.sources(br, bc, n, t).destination == col % 4);
    }
    assert(shape.arrives(operands, tile, next, n)) by {
        assert forall|subtile: int, row: int, col: int|
            #![trigger (next.arriving_b)(n % 2, subtile * 256 + tile_at(row, col))]
            0 <= subtile < 2 && 0 <= row < 16 && 0 <= col < 16 implies (next.arriving_b)(
            n % 2,
            subtile * 256 + tile_at(row, col),
        ) == Some(shape.b_tile(operands, tile, n, subtile, row, col)) by {
            assert((next.arriving_a)(n % 2, subtile * 256 + tile_at(row, col)) is Some);
        }
    }
}

/// A step without copies and waits leaves shared memory as it is.
proof fn lemma_quiet<T>(
    operands: Operands<T>,
    programs: spec_fn(int) -> Seq<ThreadStep>,
    state: BlockState<T>,
    i: int,
)
    requires
        forall|thread: int|
            #![trigger taken(programs, thread, i)]
            0 <= thread < 128 ==> !(taken(programs, thread, i) matches Some(step) && (step is Load
                || step is Wait)),
    ensures
        forall|stage: int, place: int|
            #![trigger (state.step(operands, programs, i).a)(stage, place)]
            (state.step(operands, programs, i).a)(stage, place) == (state.a)(stage, place),
        forall|stage: int, place: int|
            #![trigger (state.step(operands, programs, i).b)(stage, place)]
            (state.step(operands, programs, i).b)(stage, place) == (state.b)(stage, place),
        forall|stage: int, place: int|
            #![trigger (state.step(operands, programs, i).arriving_a)(stage, place)]
            (state.step(operands, programs, i).arriving_a)(stage, place) == (state.arriving_a)(
                stage,
                place,
            ),
        forall|stage: int, place: int|
            #![trigger (state.step(operands, programs, i).arriving_b)(stage, place)]
            (state.step(operands, programs, i).arriving_b)(stage, place) == (state.arriving_b)(
                stage,
                place,
            ),
{
    assert(!waits(programs, i)) by {
        let first = taken(programs, 0, i);
    }
    assert forall|stage: int, place: int| !#[trigger] copied(programs, i, stage, place) by {
        assert forall|thread: int| !#[trigger] copies(programs, i, stage, place, thread) by {
            let step = taken(programs, thread, i);
        }
    }
}

/// A wait brings what is on its way to its stage.
proof fn lemma_wait<T>(
    shape: ProductShape,
    operands: Operands<T>,
    tile: BlockTile,
    programs: spec_fn(int) -> Seq<ThreadStep>,
    state: BlockState<T>,
    i: int,
    n: int,
)
    requires
        waits(programs, i),
        shape.arrives(operands, tile, state, n),
    ensures
        shape.holds(operands, tile, state.step(operands, programs, i), n),
        forall|thread: int, register: int, right: bool|
            0 <= thread < 128 ==> #[trigger] (state.step(operands, programs, i).registers)(
                thread,
                register,
                right,
            ) == (state.registers)(thread, register, right),
{
    let next = state.step(operands, programs, i);
    assert forall|stage: int, place: int| !#[trigger] copied(programs, i, stage, place) by {
        assert forall|thread: int| !#[trigger] copies(programs, i, stage, place, thread) by {
            let step = taken(programs, thread, i);
        }
    }
    assert forall|subtile: int, row: int, col: int|
        #![trigger (next.a)(n % 2, subtile * 256 + tile_at(row, col))]
        #![trigger (next.b)(n % 2, subtile * 256 + tile_at(row, col))]
        0 <= subtile < 2 && 0 <= row < 16 && 0 <= col < 16 implies (next.a)(
        n % 2,
        subtile * 256 + tile_at(row, col),
    ) == Some(shape.a_tile(operands, tile, n, subtile, row, col)) && (next.b)(
        n % 2,
        subtile * 256 + tile_at(row, col),
    ) == Some(shape.b_tile(operands, tile, n, subtile, row, col)) by {
        let place = subtile * 256 + tile_at(row, col);
        assert((state.arriving_a)(n % 2, place) is Some);
    }
}

/// A step in which every thread multiplies a slice adds eight products.
#[verifier::spinoff_prover]
#[verifier::rlimit(60)]
proof fn lemma_multiply<T>(
    shape: ProductShape,
    operands: Operands<T>,
    tile: BlockTile,
    programs: spec_fn(int) -> Seq<ThreadStep>,
    state: BlockState<T>,
    i: int,
    n: int,
    half: int,
)
    requires
        n >= 0,
        0 <= half < 2,
        shape.holds(operands, tile, state, n),
        shape.adds(operands, tile, state, 16 * n + 8 * half),
        forall|thread: int|
            #![trigger taken(programs, thread, i)]
            0 <= thread < 128 ==> taken(programs, thread, i) == Some(
                ThreadStep::Multiply {
                    stage: (n % 2) as usize,
                    a_tile: ((thread / 32 / 2) * 256) as usize,
                    b_tile: ((thread / 32 % 2) * 256) as usize,
                    k_offset: (8 * half) as usize,
                },
            ),
    ensures
        shape.holds(operands, tile, state.step(operands, programs, i), n),
        shape.adds(
            operands,
            tile,
            state.step(operands, programs, i),
            16 * n + 8 * half + 8,
        ),
{
    let next = state.step(operands, programs, i);
    lemma_quiet(operands, programs, state, i);
    let m = 16 * n + 8 * half;
    assert forall|thread: int, register: int, right: bool|
        0 <= thread < 128 && 0 <= register < 4 implies #[trigger] (next.registers)(
        thread,
        register,
        right,
    ) == Seq::new(
        (m + 8) as nat,
        |k: int| shape.nth_product(operands, tile, thread, register, right, k),
    ) by {
        assert(taken(programs, thread, i) is Some);
        let lane = thread % 32;
        let warp = thread / 32;
        let row = lane / 4 + 8 * (register / 2);
        let col = (lane % 4) * 2 + register % 2;
        let wide = col + if right {
            8int
        } else {
            0
        };
        let before = (state.registers)(thread, register, right);
        let more = slice_products(
            state,
            n % 2,
            (warp / 2) * 256,
            (warp % 2) * 256,
            8 * half,
            lane,
            register,
            right,
        );
        assert((next.registers)(thread, register, right) == before + more);
        assert forall|k: int| 0 <= k < 8 implies #[trigger] more[k] == shape.nth_product(
            operands,
            tile,
            thread,
            register,
            right,
            m + k,
        ) by {
            let kk = 8 * half + k;
            law_fragments_hold_each_element_once(row, k, 0, 0);
            law_fragments_hold_each_element_once(col, k, 0, 0);
            assert(a_place(8 * half, (row % 8) * 4 + k % 4, row / 8 + 2 * (k / 4)) == tile_at(
                row,
                kk,
            ));
            assert((row / 8 + 2 * (k / 4)) / 2 == k / 4);
            assert(b_place(8 * half, col * 4 + k % 4, k / 4, right) == tile_at(kk, wide));
            assert(m + k == n * 16 + kk);
            lemma_row_col(n, kk, 16);
            assert((state.a)(n % 2, (warp / 2) * 256 + tile_at(row, kk)) is Some);
            assert((state.b)(n % 2, (warp % 2) * 256 + tile_at(kk, wide)) is Some);
        }
        assert((next.registers)(thread, register, right) =~= Seq::new(
            (m + 8) as nat,
            |k: int| shape.nth_product(operands, tile, thread, register, right, k),
        )) by {
            assert(before.len() == m);
            assert forall|k: int| m <= k < m + 8 implies #[trigger] (before + more)[k]
                == shape.nth_product(operands, tile, thread, register, right, k) by {
                assert(more[k - m] == (before + more)[k]);
            }
        }
    }
    assert forall|subtile: int, row: int, col: int|
        #![trigger (next.a)(n % 2, subtile * 256 + tile_at(row, col))]
        #![trigger (next.b)(n % 2, subtile * 256 + tile_at(row, col))]
        0 <= subtile < 2 && 0 <= row < 16 && 0 <= col < 16 implies (next.a)(
        n % 2,
        subtile * 256 + tile_at(row, col),
    ) == Some(shape.a_tile(operands, tile, n, subtile, row, col)) && (next.b)(
        n % 2,
        subtile * 256 + tile_at(row, col),
    ) == Some(shape.b_tile(operands, tile, n, subtile, row, col)) by {
        assert((state.a)(n % 2, subtile * 256 + tile_at(row, col)) is Some);
    }
}

/// How many steps come before a step along the common dimension.
spec fn steps_before(shape: ProductShape, n: int) -> int {
    if n < shape.k_tiles() {
        3 + 5 * n
    } else {
        5 * n
    }
}

/// The steps of a tile that has a next one: a copy of the next, and the wait for it.
proof fn lemma_next_steps(shape: ProductShape, batches: BatchShape, tile: BlockTile, p: int)
    requires
        0 <= p,
        p + 1 < shape.k_tiles(),
    ensures
        forall|thread: int|
            #![trigger taken(shape.programs(batches, tile), thread, 3 + 5 * p)]
            taken(shape.programs(batches, tile), thread, 3 + 5 * p) == Some(
                shape.load_step(tile, thread, p + 1),
            ),
        forall|thread: int|
            #![trigger taken(shape.programs(batches, tile), thread, 3 + 5 * p + 1)]
            taken(shape.programs(batches, tile), thread, 3 + 5 * p + 1) == Some(
                ThreadStep::Commit,
            ),
        waits(shape.programs(batches, tile), 3 + 5 * p + 4),
{
    let programs = shape.programs(batches, tile);
    let m = 3 + 5 * p;
    lemma_program(shape, batches, tile, p);
    assert forall|thread: int|
        #![trigger taken(programs, thread, m)]
        taken(programs, thread, m) == Some(shape.load_step(tile, thread, p + 1)) by {
        assert(shape.k_steps(tile, thread, p)[0] == shape.load_step(tile, thread, p + 1));
        assert(m == 3 + 5 * p + 0);
    }
    assert forall|thread: int|
        #![trigger taken(programs, thread, m + 1)]
        taken(programs, thread, m + 1) == Some(ThreadStep::Commit) by {
        assert(shape.k_steps(tile, thread, p)[1] == ThreadStep::Commit);
    }
    assert forall|thread: int|
        #![trigger taken(programs, thread, m + 4)]
        taken(programs, thread, m + 4) == Some(ThreadStep::Wait) by {
        assert(shape.k_steps(tile, thread, p)[4] == ThreadStep::Wait);
    }
}

/// Before anything is multiplied no register holds a product.
#[verifier::spinoff_prover]
#[verifier::rlimit(60)]
proof fn lemma_no_products<T>(
    shape: ProductShape,
    batches: BatchShape,
    operands: Operands<T>,
    tile: BlockTile,
)
    requires
        0 < shape.k_tiles(),
    ensures
        shape.adds(operands, tile, after(operands, shape.programs(batches, tile), 3), 0),
{
    let programs = shape.programs(batches, tile);
    let s0 = after(operands, programs, 0);
    let s1 = after(operands, programs, 1);
    let s2 = after(operands, programs, 2);
    let s3 = after(operands, programs, 3);
    assert(s1 == s0.step(operands, programs, 0));
    assert(s2 == s1.step(operands, programs, 1));
    assert(s3 == s2.step(operands, programs, 2));
    assert forall|thread: int, register: int, right: bool|
        0 <= thread < 128 && 0 <= register < 4 implies #[trigger] (s3.registers)(
        thread,
        register,
        right,
    ) == Seq::new(
        0,
        |k: int| shape.nth_product(operands, tile, thread, register, right, k),
    ) by {
        lemma_thread_start(shape, batches, tile, thread);
        assert((s1.registers)(thread, register, right) == (s0.registers)(
            thread,
            register,
            right,
        ));
        assert((s2.registers)(thread, register, right) == (s1.registers)(
            thread,
            register,
            right,
        ));
        assert((s3.registers)(thread, register, right) =~= Seq::new(
            0,
            |k: int| shape.nth_product(operands, tile, thread, register, right, k),
        ));
    }
}

/// The first tile is there before anything is multiplied.
#[verifier::spinoff_prover]
#[verifier::rlimit(60)]
proof fn lemma_first_tile<T>(
    shape: ProductShape,
    batches: BatchShape,
    operands: Operands<T>,
    tile: BlockTile,
)
    requires
        0 < shape.k_tiles(),
    ensures
        shape.holds(operands, tile, after(operands, shape.programs(batches, tile), 3), 0),
{
    let programs = shape.programs(batches, tile);
    lemma_starts(shape, batches, tile);
    let s0 = after(operands, programs, 0);
    let s1 = after(operands, programs, 1);
    let s2 = after(operands, programs, 2);
    let s3 = after(operands, programs, 3);
    assert(s1 == s0.step(operands, programs, 0));
    assert(s2 == s1.step(operands, programs, 1));
    assert(s3 == s2.step(operands, programs, 2));
    lemma_load(shape, operands, tile, programs, s0, 0, 0);
    lemma_quiet(operands, programs, s1, 1);
    assert(shape.arrives(operands, tile, s2, 0));
    lemma_wait(shape, operands, tile, programs, s2, 2, 0);
}

/// A block's registers fill up tile by tile.
#[verifier::spinoff_prover]
#[verifier::rlimit(100)]
proof fn lemma_tiles<T>(
    shape: ProductShape,
    batches: BatchShape,
    operands: Operands<T>,
    tile: BlockTile,
    n: int,
)
    requires
        0 <= n <= shape.k_tiles(),
        0 < shape.k_tiles(),
    ensures
        n < shape.k_tiles() ==> shape.holds(
            operands,
            tile,
            after(operands, shape.programs(batches, tile), steps_before(shape, n)),
            n,
        ),
        shape.adds(
            operands,
            tile,
            after(operands, shape.programs(batches, tile), steps_before(shape, n)),
            16 * n,
        ),
    decreases n,
{
    let programs = shape.programs(batches, tile);
    if n == 0 {
        lemma_first_tile(shape, batches, operands, tile);
        lemma_no_products(shape, batches, operands, tile);
    } else {
        let p = n - 1;
        lemma_tiles(shape, batches, operands, tile, p);
        let m = 3 + 5 * p;
        let s0 = after(operands, programs, m);
        let s1 = after(operands, programs, m + 1);
        let s2 = after(operands, programs, m + 2);
        assert(s1 == s0.step(operands, programs, m));
        assert(s2 == s1.step(operands, programs, m + 1));
        if n < shape.k_tiles() {
            let s3 = after(operands, programs, m + 3);
            let s4 = after(operands, programs, m + 4);
            let s5 = after(operands, programs, m + 5);
            assert(s3 == s2.step(operands, programs, m + 2));
            assert(s4 == s3.step(operands, programs, m + 3));
            assert(s5 == s4.step(operands, programs, m + 4));
            lemma_next_steps(shape, batches, tile, p);
            lemma_load(shape, operands, tile, programs, s0, m, n);
            assert((n + 1) % 2 == p % 2);
            assert(shape.holds(operands, tile, s1, p)) by {
                lemma_same_stage(shape, operands, tile, s0, s1, p);
            }
            assert(shape.adds(operands, tile, s1, 16 * p)) by {
                lemma_same_registers(shape, operands, tile, s0, s1, 16 * p);
            }
            lemma_quiet(operands, programs, s1, m + 1);
            lemma_same_stage(shape, operands, tile, s1, s2, p);
            assert(shape.arrives(operands, tile, s2, n)) by {
                lemma_same_arrivals(shape, operands, tile, s1, s2, n);
            }
            assert(shape.adds(operands, tile, s2, 16 * p)) by {
                lemma_same_registers(shape, operands, tile, s1, s2, 16 * p);
            }
            lemma_products(shape, operands, tile, programs, s2, s3, s4, m + 2, p, 2, batches);
            assert(shape.arrives(operands, tile, s3, n)) by {
                lemma_quiet(operands, programs, s2, m + 2);
                lemma_same_arrivals(shape, operands, tile, s2, s3, n);
            }
            assert(shape.arrives(operands, tile, s4, n)) by {
                lemma_quiet(operands, programs, s3, m + 3);
                lemma_same_arrivals(shape, operands, tile, s3, s4, n);
            }
            lemma_wait(shape, operands, tile, programs, s4, m + 4, n);
            lemma_same_registers(shape, operands, tile, s4, s5, 16 * n);
            assert(m + 5 == steps_before(shape, n));
        } else {
            lemma_products(shape, operands, tile, programs, s0, s1, s2, m, p, 0, batches);
            assert(m + 2 == steps_before(shape, n));
        }
    }
}

/// The steps that multiply the two slices of a tile.
proof fn lemma_slices(
    shape: ProductShape,
    batches: BatchShape,
    tile: BlockTile,
    i: int,
    p: int,
    j: int,
)
    requires
        0 <= p < shape.k_tiles(),
        j == if p + 1 < shape.k_tiles() {
            2int
        } else {
            0
        },
        i == 3 + 5 * p + j,
    ensures
        forall|thread: int|
            #![trigger taken(shape.programs(batches, tile), thread, i)]
            0 <= thread < 128 ==> taken(shape.programs(batches, tile), thread, i) == Some(
                ThreadStep::Multiply {
                    stage: (p % 2) as usize,
                    a_tile: ((thread / 32 / 2) * 256) as usize,
                    b_tile: ((thread / 32 % 2) * 256) as usize,
                    k_offset: (8 * 0) as usize,
                },
            ),
        forall|thread: int|
            #![trigger taken(shape.programs(batches, tile), thread, i + 1)]
            0 <= thread < 128 ==> taken(shape.programs(batches, tile), thread, i + 1) == Some(
                ThreadStep::Multiply {
                    stage: (p % 2) as usize,
                    a_tile: ((thread / 32 / 2) * 256) as usize,
                    b_tile: ((thread / 32 % 2) * 256) as usize,
                    k_offset: (8 * 1) as usize,
                },
            ),
{
    let programs = shape.programs(batches, tile);
    lemma_program(shape, batches, tile, p);
    assert forall|thread: int|
        #![trigger taken(programs, thread, i)]
        0 <= thread < 128 implies taken(programs, thread, i) == Some(
        ThreadStep::Multiply {
            stage: (p % 2) as usize,
            a_tile: ((thread / 32 / 2) * 256) as usize,
            b_tile: ((thread / 32 % 2) * 256) as usize,
            k_offset: (8 * 0) as usize,
        },
    ) by {
        let step = shape.k_steps(tile, thread, p)[j];
    }
    assert forall|thread: int|
        #![trigger taken(programs, thread, i + 1)]
        0 <= thread < 128 implies taken(programs, thread, i + 1) == Some(
        ThreadStep::Multiply {
            stage: (p % 2) as usize,
            a_tile: ((thread / 32 / 2) * 256) as usize,
            b_tile: ((thread / 32 % 2) * 256) as usize,
            k_offset: (8 * 1) as usize,
        },
    ) by {
        let step = shape.k_steps(tile, thread, p)[j + 1];
        assert(i + 1 == 3 + 5 * p + (j + 1));
    }
}

/// The two slices of a tile.
#[verifier::spinoff_prover]
#[verifier::rlimit(60)]
proof fn lemma_products<T>(
    shape: ProductShape,
    operands: Operands<T>,
    tile: BlockTile,
    programs: spec_fn(int) -> Seq<ThreadStep>,
    s0: BlockState<T>,
    s1: BlockState<T>,
    s2: BlockState<T>,
    i: int,
    p: int,
    j: int,
    batches: BatchShape,
)
    requires
        programs == shape.programs(batches, tile),
        0 <= p < shape.k_tiles(),
        j == if p + 1 < shape.k_tiles() {
            2int
        } else {
            0
        },
        i == 3 + 5 * p + j,
        s1 == s0.step(operands, programs, i),
        s2 == s1.step(operands, programs, i + 1),
        shape.holds(operands, tile, s0, p),
        shape.adds(operands, tile, s0, 16 * p),
    ensures
        shape.adds(operands, tile, s2, 16 * (p + 1)),
        forall|thread: int|
            #![trigger taken(programs, thread, i)]
            0 <= thread < 128 ==> (taken(programs, thread, i) matches Some(step)
                && step is Multiply),
        forall|thread: int|
            #![trigger taken(programs, thread, i + 1)]
            0 <= thread < 128 ==> (taken(programs, thread, i + 1) matches Some(step)
                && step is Multiply),
{
    lemma_slices(shape, batches, tile, i, p, j);
    lemma_multiply(shape, operands, tile, programs, s0, i, p, 0);
    lemma_multiply(shape, operands, tile, programs, s1, i + 1, p, 1);
}

/// Cells that stay the same hold the same.
proof fn lemma_same_stage<T>(
    shape: ProductShape,
    operands: Operands<T>,
    tile: BlockTile,
    s0: BlockState<T>,
    s1: BlockState<T>,
    n: int,
)
    requires
        shape.holds(operands, tile, s0, n),
        forall|place: int| #[trigger] (s1.a)(n % 2, place) == (s0.a)(n % 2, place),
        forall|place: int| #[trigger] (s1.b)(n % 2, place) == (s0.b)(n % 2, place),
    ensures
        shape.holds(operands, tile, s1, n),
{
    assert forall|subtile: int, row: int, col: int|
        #![trigger (s1.a)(n % 2, subtile * 256 + tile_at(row, col))]
        #![trigger (s1.b)(n % 2, subtile * 256 + tile_at(row, col))]
        0 <= subtile < 2 && 0 <= row < 16 && 0 <= col < 16 implies (s1.a)(
        n % 2,
        subtile * 256 + tile_at(row, col),
    ) == Some(shape.a_tile(operands, tile, n, subtile, row, col)) && (s1.b)(
        n % 2,
        subtile * 256 + tile_at(row, col),
    ) == Some(shape.b_tile(operands, tile, n, subtile, row, col)) by {
        let place = subtile * 256 + tile_at(row, col);
        assert((s0.a)(n % 2, place) is Some);
        assert((s1.a)(n % 2, place) == (s0.a)(n % 2, place));
        assert((s1.b)(n % 2, place) == (s0.b)(n % 2, place));
    }
}

/// The same of what is on its way.
proof fn lemma_same_arrivals<T>(
    shape: ProductShape,
    operands: Operands<T>,
    tile: BlockTile,
    s0: BlockState<T>,
    s1: BlockState<T>,
    n: int,
)
    requires
        shape.arrives(operands, tile, s0, n),
        forall|place: int| #[trigger]
            (s1.arriving_a)(n % 2, place) == (s0.arriving_a)(n % 2, place),
        forall|place: int| #[trigger]
            (s1.arriving_b)(n % 2, place) == (s0.arriving_b)(n % 2, place),
    ensures
        shape.arrives(operands, tile, s1, n),
{
    assert forall|subtile: int, row: int, col: int|
        #![trigger (s1.arriving_a)(n % 2, subtile * 256 + tile_at(row, col))]
        #![trigger (s1.arriving_b)(n % 2, subtile * 256 + tile_at(row, col))]
        0 <= subtile < 2 && 0 <= row < 16 && 0 <= col < 16 implies (s1.arriving_a)(
        n % 2,
        subtile * 256 + tile_at(row, col),
    ) == Some(shape.a_tile(operands, tile, n, subtile, row, col)) && (s1.arriving_b)(
        n % 2,
        subtile * 256 + tile_at(row, col),
    ) == Some(shape.b_tile(operands, tile, n, subtile, row, col)) by {
        let place = subtile * 256 + tile_at(row, col);
        assert((s0.arriving_a)(n % 2, place) is Some);
        assert((s1.arriving_a)(n % 2, place) == (s0.arriving_a)(n % 2, place));
        assert((s1.arriving_b)(n % 2, place) == (s0.arriving_b)(n % 2, place));
    }
}

/// The same of registers.
proof fn lemma_same_registers<T>(
    shape: ProductShape,
    operands: Operands<T>,
    tile: BlockTile,
    s0: BlockState<T>,
    s1: BlockState<T>,
    n: int,
)
    requires
        shape.adds(operands, tile, s0, n),
        forall|thread: int, register: int, right: bool|
            0 <= thread < 128 ==> #[trigger] (s1.registers)(thread, register, right) == (
            s0.registers)(thread, register, right),
    ensures
        shape.adds(operands, tile, s1, n),
{
}

/// A thread's writes, one by one.
proof fn lemma_writes(
    shape: ProductShape,
    batches: BatchShape,
    tile: BlockTile,
    thread: int,
    n: int,
    i: int,
) -> (r: (int, bool))
    requires
        0 <= i < shape.writes_upto(batches, tile, thread, n).len(),
    ensures
        0 <= r.0 < n,
        shape.write_step(batches, tile, thread, r.0, r.1) == seq![
            shape.writes_upto(batches, tile, thread, n)[i],
        ],
    decreases n,
{
    let fewer = shape.writes_upto(batches, tile, thread, n - 1);
    let left = shape.write_step(batches, tile, thread, n - 1, false);
    let right = shape.write_step(batches, tile, thread, n - 1, true);
    assert(shape.writes_upto(batches, tile, thread, n) == fewer + left + right);
    if i < fewer.len() {
        lemma_writes(shape, batches, tile, thread, n - 1, i)
    } else if i < fewer.len() + left.len() {
        assert(left =~= seq![shape.writes_upto(batches, tile, thread, n)[i]]);
        (n - 1, false)
    } else {
        assert(right =~= seq![shape.writes_upto(batches, tile, thread, n)[i]]);
        (n - 1, true)
    }
}

/// A write that is due comes.
proof fn lemma_write_comes(
    shape: ProductShape,
    batches: BatchShape,
    tile: BlockTile,
    thread: int,
    n: int,
    register: int,
    right: bool,
) -> (i: int)
    requires
        0 <= register < n,
        shape.write_step(batches, tile, thread, register, right).len() > 0,
    ensures
        0 <= i < shape.writes_upto(batches, tile, thread, n).len(),
        shape.writes_upto(batches, tile, thread, n)[i] == shape.write_step(
            batches,
            tile,
            thread,
            register,
            right,
        )[0],
    decreases n,
{
    let fewer = shape.writes_upto(batches, tile, thread, n - 1);
    let left = shape.write_step(batches, tile, thread, n - 1, false);
    let other = shape.write_step(batches, tile, thread, n - 1, true);
    assert(shape.writes_upto(batches, tile, thread, n) == fewer + left + other);
    if register < n - 1 {
        lemma_write_comes(shape, batches, tile, thread, n - 1, register, right)
    } else if right {
        (fewer.len() + left.len()) as int
    } else {
        fewer.len() as int
    }
}

/// Once all tiles are multiplied, registers stay.
proof fn lemma_registers_stay<T>(
    shape: ProductShape,
    batches: BatchShape,
    operands: Operands<T>,
    tile: BlockTile,
    m: int,
)
    requires
        0 < shape.k_tiles(),
        5 * shape.k_tiles() <= m,
    ensures
        shape.adds(
            operands,
            tile,
            after(operands, shape.programs(batches, tile), m),
            16 * shape.k_tiles(),
        ),
    decreases m,
{
    let n = shape.k_tiles();
    let programs = shape.programs(batches, tile);
    if m == 5 * n {
        lemma_tiles(shape, batches, operands, tile, n);
    } else {
        lemma_registers_stay(shape, batches, operands, tile, m - 1);
        let s0 = after(operands, programs, m - 1);
        let s1 = after(operands, programs, m);
        assert(s1 == s0.step(operands, programs, m - 1));
        assert forall|thread: int, register: int, right: bool|
            0 <= thread < 128 implies #[trigger] (s1.registers)(thread, register, right) == (
        s0.registers)(thread, register, right) by {
            if taken(programs, thread, m - 1) is Some {
                lemma_steps(shape, tile, thread, n, 0, 0);
                let found = lemma_writes(shape, batches, tile, thread, 4, m - 1 - 5 * n);
                let one = shape.write_step(batches, tile, thread, found.0, found.1);
                assert(one[0] is Write);
            }
        }
        lemma_same_registers(shape, operands, tile, s0, s1, 16 * n);
    }
}

/// No step along the common dimension writes.
proof fn lemma_no_early_writes(shape: ProductShape, tile: BlockTile, thread: int, n: int, i: int)
    requires
        0 <= i < shape.steps_upto(tile, thread, n).len(),
    ensures
        !(shape.steps_upto(tile, thread, n)[i] is Write),
    decreases n,
{
    if n > 0 {
        let fewer = shape.steps_upto(tile, thread, n - 1);
        assert(shape.steps_upto(tile, thread, n) == fewer + shape.k_steps(tile, thread, n - 1));
        if i < fewer.len() {
            lemma_no_early_writes(shape, tile, thread, n - 1, i);
        }
    }
}

/// The operands of one product of a batch.
pub open spec fn operands_of<T>(
    batches: BatchShape,
    a: spec_fn(int) -> T,
    b: spec_fn(int) -> T,
    zero: T,
    batch: int,
) -> Operands<T> {
    Operands {
        a: |x: int| a(batches.a_offset + batch * batches.a_batch_stride + x),
        b: |x: int| b(batches.b_offset + batch * batches.b_batch_stride + x),
        zero,
    }
}

/// The part of a block, where it has one.
pub open spec fn part_of(shape: ProductShape, batches: BatchShape, block: int, tile: BlockTile) -> bool {
    &&& tile.batch < batches.batch_count
    &&& tile.block_row < shape.block_rows()
    &&& tile.block_col < shape.block_cols()
    &&& block == tile.batch * (shape.block_rows() * shape.block_cols()) + tile.block_row
        * shape.block_cols() + tile.block_col
}

/// Whether the first blocks write these products to a position of the result.
pub open spec fn launch_writes<T>(
    shape: ProductShape,
    batches: BatchShape,
    a: spec_fn(int) -> T,
    b: spec_fn(int) -> T,
    zero: T,
    blocks: int,
    position: int,
    products: Products<T>,
) -> bool {
    exists|block: int, tile: BlockTile, thread: int, i: int|
        0 <= block < blocks && #[trigger] part_of(shape, batches, block, tile)
            && #[trigger] writes_products(
            operands_of(batches, a, b, zero, tile.batch as int),
            shape.programs(batches, tile),
            thread,
            i,
            position,
            products,
        )
}

/// Whether an element belongs to the result.
pub open spec fn in_result(shape: ProductShape, batches: BatchShape, batch: int, row: int, col: int) -> bool {
    0 <= batch < batches.batch_count && 0 <= row < shape.rows && 0 <= col < shape.cols
}

/// Whether no two elements of the result share a position.
pub open spec fn apart(shape: ProductShape, batches: BatchShape) -> bool {
    forall|n: int, i: int, j: int, m: int, k: int, l: int|
        #![trigger batches.position(n, i, j), batches.position(m, k, l)]
        in_result(shape, batches, n, i, j) && in_result(shape, batches, m, k, l)
            && batches.position(n, i, j) == batches.position(m, k, l) ==> n == m && i == k && j
            == l
}

/// Positions of the result are representable.
proof fn lemma_position_fits(shape: ProductShape, batches: BatchShape, batch: int, row: int, col: int)
    requires
        batches.wf(shape),
        in_result(shape, batches, batch, row, col),
    ensures
        0 <= batches.position(batch, row, col) <= usize::MAX,
{
    assert(0 <= batch * batches.result_batch_stride <= (batches.batch_count - 1)
        * batches.result_batch_stride) by (nonlinear_arith)
        requires
            0 <= batch <= batches.batch_count - 1,
            batches.result_batch_stride >= 0,
    ;
    assert(0 <= row * batches.result_row_stride <= (shape.rows - 1) * batches.result_row_stride)
        by (nonlinear_arith)
        requires
            0 <= row <= shape.rows - 1,
            batches.result_row_stride >= 0,
    ;
}

/// The products of a register are those of its row and its column.
#[verifier::spinoff_prover]
#[verifier::rlimit(60)]
proof fn lemma_register_products<T>(
    shape: ProductShape,
    operands: Operands<T>,
    tile: BlockTile,
    thread: int,
    register: int,
    right: bool,
    row: int,
    col: int,
)
    requires
        shape.wf(),
        tile.block_row < shape.block_rows(),
        tile.block_col < shape.block_cols(),
        0 <= thread < 128,
        0 <= register < 4,
        row == output_row(tile.block_row as int, thread / 32, thread % 32, register),
        col == output_col(tile.block_col as int, thread / 32, thread % 32, register, right),
        row < shape.rows,
        col < shape.cols,
    ensures
        Seq::new(
            (16 * shape.k_tiles()) as nat,
            |k: int| shape.nth_product(operands, tile, thread, register, right, k),
        ) == shape.row_by_column(operands, row, col),
{
    let n = shape.k_tiles();
    let warp = thread / 32;
    let lane = thread % 32;
    let br = tile.block_row as int;
    let bc = tile.block_col as int;
    let products = Seq::new(
        (16 * n) as nat,
        |k: int| shape.nth_product(operands, tile, thread, register, right, k),
    );
    let wanted = shape.row_by_column(operands, row, col);
    let r = lane / 4 + 8 * (register / 2);
    let c = (lane % 4) * 2 + register % 2 + if right {
        8int
    } else {
        0
    };
    lemma_row_col(br * 2 + warp / 2, r, 16);
    lemma_row_col(bc * 2 + warp % 2, c, 16);
    assert(row % 16 == r && col % 16 == c);
    assert forall|k: int| 0 <= k < 16 * n implies #[trigger] products[k] == wanted[k] by {
        law_registers_hold_inner_products(
            shape,
            operands.a,
            operands.b,
            operands.zero,
            br,
            bc,
            warp,
            lane,
            register,
            right,
            k,
        );
    }
    assert(products =~= wanted);
}

/// Which register a write takes, and where it goes.
#[verifier::spinoff_prover]
#[verifier::rlimit(60)]
proof fn lemma_write_found(
    shape: ProductShape,
    batches: BatchShape,
    tile: BlockTile,
    thread: int,
    i: int,
) -> (r: (int, bool))
    requires
        shape.wf(),
        batches.wf(shape),
        tile.batch < batches.batch_count,
        0 <= thread < 128,
        taken(shape.programs(batches, tile), thread, i) matches Some(step) && step is Write,
    ensures
        5 * shape.k_tiles() <= i,
        0 <= r.0 < 4,
        ({
            let row = output_row(tile.block_row as int, thread / 32, thread % 32, r.0);
            let col = output_col(tile.block_col as int, thread / 32, thread % 32, r.0, r.1);
            &&& in_result(shape, batches, tile.batch as int, row, col)
            &&& taken(shape.programs(batches, tile), thread, i) == Some(
                ThreadStep::Write {
                    position: batches.position(tile.batch as int, row, col) as usize,
                    register: r.0 as usize,
                    right: r.1,
                },
            )
            &&& batches.position(tile.batch as int, row, col) <= usize::MAX
            &&& 0 <= batches.position(tile.batch as int, row, col)
        }),
{
    let n = shape.k_tiles();
    lemma_ceil_div(shape.inner as int, 16);
    let programs = shape.programs(batches, tile);
    lemma_steps(shape, tile, thread, n, 0, 0);
    if i < 5 * n {
        lemma_no_early_writes(shape, tile, thread, n, i);
    }
    let found = lemma_writes(shape, batches, tile, thread, 4, i - 5 * n);
    let one = shape.write_step(batches, tile, thread, found.0, found.1);
    assert(one[0] == programs(thread)[i]);
    let row = output_row(tile.block_row as int, thread / 32, thread % 32, found.0);
    let col = output_col(tile.block_col as int, thread / 32, thread % 32, found.0, found.1);
    assert(one.len() == 1);
    assert(row < shape.rows && col < shape.cols);
    assert(0 <= row && 0 <= col);
    lemma_position_fits(shape, batches, tile.batch as int, row, col);
    found
}

/// What a thread writes, and where.
#[verifier::spinoff_prover]
#[verifier::rlimit(60)]
proof fn lemma_written<T>(
    shape: ProductShape,
    batches: BatchShape,
    operands: Operands<T>,
    tile: BlockTile,
    thread: int,
    i: int,
    position: int,
    products: Products<T>,
) -> (r: (int, int))
    requires
        shape.wf(),
        batches.wf(shape),
        tile.batch < batches.batch_count,
        tile.block_row < shape.block_rows(),
        tile.block_col < shape.block_cols(),
        writes_products(
            operands,
            shape.programs(batches, tile),
            thread,
            i,
            position,
            products,
        ),
    ensures
        in_result(shape, batches, tile.batch as int, r.0, r.1),
        position == batches.position(tile.batch as int, r.0, r.1),
        products == shape.row_by_column(operands, r.0, r.1),
{
    lemma_ceil_div(shape.inner as int, 16);
    let found = lemma_write_found(shape, batches, tile, thread, i);
    let row = output_row(tile.block_row as int, thread / 32, thread % 32, found.0);
    let col = output_col(tile.block_col as int, thread / 32, thread % 32, found.0, found.1);
    lemma_registers_stay(shape, batches, operands, tile, i);
    let state = after(operands, shape.programs(batches, tile), i);
    assert(products == (state.registers)(thread, found.0, found.1));
    lemma_register_products(shape, operands, tile, thread, found.0, found.1, row, col);
    (row, col)
}

/// A launch with a block for every part of the result writes to the position of every
/// element the products of its row and its column, and no others.
#[verifier::spinoff_prover]
#[verifier::rlimit(60)]
pub proof fn law_a_launch_makes_every_product<T>(
    shape: ProductShape,
    batches: BatchShape,
    a: spec_fn(int) -> T,
    b: spec_fn(int) -> T,
    zero: T,
    blocks: int,
    batch: int,
    row: int,
    col: int,
    products: Products<T>,
)
    requires
        shape.wf(),
        batches.wf(shape),
        apart(shape, batches),
        batches.batch_count * (ceil_div(shape.rows as int, 32) * ceil_div(shape.cols as int, 32))
            <= blocks,
        in_result(shape, batches, batch, row, col),
    ensures
        launch_writes(
            shape,
            batches,
            a,
            b,
            zero,
            blocks,
            batches.position(batch, row, col),
            products,
        ) <==> products == shape.row_by_column(
            operands_of(batches, a, b, zero, batch),
            row,
            col,
        ),
{
    let position = batches.position(batch, row, col);
    let wanted = shape.row_by_column(operands_of(batches, a, b, zero, batch), row, col);
    if launch_writes(shape, batches, a, b, zero, blocks, position, products) {
        let (block, tile, thread, i) = choose|block: int, tile: BlockTile, thread: int, i: int|
            0 <= block < blocks && #[trigger] part_of(shape, batches, block, tile)
                && #[trigger] writes_products(
                operands_of(batches, a, b, zero, tile.batch as int),
                shape.programs(batches, tile),
                thread,
                i,
                position,
                products,
            );
        let operands = operands_of(batches, a, b, zero, tile.batch as int);
        let at = lemma_written(shape, batches, operands, tile, thread, i, position, products);
        assert(batches.position(tile.batch as int, at.0, at.1) == batches.position(
            batch,
            row,
            col,
        ));
    }
    if products == wanted {
        let rows = shape.block_rows();
        let cols = shape.block_cols();
        let warp = ((row / 16) % 2) * 2 + (col / 16) % 2;
        let lane = (row % 8) * 4 + (col % 8) / 2;
        let register = ((row / 8) % 2) * 2 + col % 2;
        let right = (col / 8) % 2 == 1;
        law_every_result_is_made_once(
            shape,
            row,
            col,
            row / 32,
            col / 32,
            warp,
            lane,
            register,
            right,
        );
        let tile = BlockTile {
            batch: batch as usize,
            block_row: (row / 32) as usize,
            block_col: (col / 32) as usize,
        };
        let thread = warp * 32 + lane;
        lemma_row_col(warp, lane, 32);
        assert(0 <= thread < 128);
        lemma_block_number(shape, batches, batch, row / 32, col / 32);
        let block = batch * (rows * cols) + row / 32 * cols + col / 32;
        let operands = operands_of(batches, a, b, zero, batch);
        lemma_position_fits(shape, batches, batch, row, col);
        assert(shape.write_step(batches, tile, thread, register, right).len() == 1);
        let j = lemma_write_comes(shape, batches, tile, thread, 4, register, right);
        let n = shape.k_tiles();
        lemma_ceil_div(shape.inner as int, 16);
        lemma_steps(shape, tile, thread, n, 0, 0);
        let i = 5 * n + j;
        let programs = shape.programs(batches, tile);
        let made = (after(operands, programs, i).registers)(thread, register, right);
        assert(writes_products(operands, programs, thread, i, position, made));
        let at = lemma_written(shape, batches, operands, tile, thread, i, position, made);
        assert(batches.position(tile.batch as int, at.0, at.1) == batches.position(
            batch,
            row,
            col,
        ));
        assert(made == wanted);
        assert(part_of(shape, batches, block, tile));
        assert(launch_writes(shape, batches, a, b, zero, blocks, position, products));
    }
}

/// Blocks are numbered batch by batch.
proof fn lemma_block_number(
    shape: ProductShape,
    batches: BatchShape,
    batch: int,
    block_row: int,
    block_col: int,
)
    requires
        0 <= batch < batches.batch_count,
        0 <= block_row < shape.block_rows(),
        0 <= block_col < shape.block_cols(),
        shape.wf(),
    ensures
        0 <= batch * (shape.block_rows() * shape.block_cols()) + block_row * shape.block_cols()
            + block_col < batches.batch_count * (ceil_div(shape.rows as int, 32) * ceil_div(
            shape.cols as int,
            32,
        )),
{
    let rows = shape.block_rows();
    let cols = shape.block_cols();
    lemma_ceil_div(shape.rows as int, 16);
    lemma_ceil_div(shape.cols as int, 16);
    lemma_ceil_div(shape.rows as int, 32);
    lemma_ceil_div(shape.cols as int, 32);
    lemma_ceil_div(ceil_div(shape.rows as int, 16), 2);
    lemma_ceil_div(ceil_div(shape.cols as int, 16), 2);
    assert(rows == ceil_div(shape.rows as int, 32));
    assert(cols == ceil_div(shape.cols as int, 32));
    assert(0 <= block_row * cols + block_col < rows * cols) by (nonlinear_arith)
        requires
            0 <= block_row < rows,
            0 <= block_col < cols,
    ;
    assert(0 <= batch * (rows * cols) && batch * (rows * cols) + rows * cols
        <= batches.batch_count * (rows * cols)) by (nonlinear_arith)
        requires
            0 <= batch,
            batch + 1 <= batches.batch_count,
            0 < rows * cols,
    ;
}

/// It writes nowhere else.
pub proof fn law_a_launch_writes_nothing_else<T>(
    shape: ProductShape,
    batches: BatchShape,
    a: spec_fn(int) -> T,
    b: spec_fn(int) -> T,
    zero: T,
    blocks: int,
    position: int,
    products: Products<T>,
)
    requires
        shape.wf(),
        batches.wf(shape),
        launch_writes(shape, batches, a, b, zero, blocks, position, products),
    ensures
        exists|batch: int, row: int, col: int|
            in_result(shape, batches, batch, row, col) && position == #[trigger] batches.position(
                batch,
                row,
                col,
            ),
{
    let (block, tile, thread, i) = choose|block: int, tile: BlockTile, thread: int, i: int|
        0 <= block < blocks && #[trigger] part_of(shape, batches, block, tile)
            && #[trigger] writes_products(
            operands_of(batches, a, b, zero, tile.batch as int),
            shape.programs(batches, tile),
            thread,
            i,
            position,
            products,
        );
    let operands = operands_of(batches, a, b, zero, tile.batch as int);
    let at = lemma_written(shape, batches, operands, tile, thread, i, position, products);
    assert(position == batches.position(tile.batch as int, at.0, at.1));
}

/// The products that an inner product stands for: those of its factors, and products of zeros
/// up to a whole tile.
pub open spec fn factors(term: Term, zero: Term) -> Products<Term> {
    match term {
        Term::Dot(left, right) => Seq::new(
            (16 * ceil_div(left.len() as int, 16)) as nat,
            |k: int|
                if k < left.len() {
                    (Some(left[k]), Some(right[k]))
                } else {
                    (Some(zero), Some(zero))
                },
        ),
        _ => Seq::empty(),
    }
}

/// The sizes of a product of batches.
pub open spec fn shape_of(lhs: MatrixBatchDescriptor, rhs: MatrixBatchDescriptor) -> ProductShape {
    ProductShape {
        inner: lhs.cols,
        rows: lhs.rows,
        cols: rhs.cols,
        a_row_stride: lhs.row_stride,
        b_row_stride: rhs.row_stride,
    }
}

/// Where the matrices of a product of batches start.
pub open spec fn batches_of(
    lhs: MatrixBatchDescriptor,
    rhs: MatrixBatchDescriptor,
    result: MatrixBatchDescriptor,
) -> BatchShape {
    BatchShape {
        batch_count: lhs.batches,
        a_offset: lhs.offset,
        a_batch_stride: lhs.batch_stride,
        b_offset: rhs.offset,
        b_batch_stride: rhs.batch_stride,
        result_offset: result.offset,
        result_row_stride: result.row_stride,
        result_batch_stride: result.batch_stride,
    }
}

/// What a device makes of a product of batches is what the threads of the launch write.
pub proof fn law_batched_products_are_made_by_their_launch(
    device: Device,
    lhs: MatrixBatchDescriptor,
    rhs: MatrixBatchDescriptor,
    result: MatrixBatchDescriptor,
    config: LaunchConfig,
    zero: Term,
    batch: int,
    row: int,
    col: int,
    products: Products<Term>,
)
    requires
        shape_of(lhs, rhs).wf(),
        batches_of(lhs, rhs, result).wf(shape_of(lhs, rhs)),
        lhs.batches == result.batches,
        lhs.rows == result.rows,
        rhs.cols == result.cols,
        result.disjoint(),
        config.block_x == 128,
        result.batches * (ceil_div(result.rows as int, 32) * ceil_div(result.cols as int, 32))
            <= config.grid_x,
        result.contains(batch, row, col),
        result.at(batch, row, col) < device.mem[result.buffer].len(),
    ensures
        launch_writes(
            shape_of(lhs, rhs),
            batches_of(lhs, rhs, result),
            |x: int| device.mem[lhs.buffer][x],
            |x: int| device.mem[rhs.buffer][x],
            zero,
            config.grid_x as int,
            result.at(batch, row, col),
            products,
        ) <==> products == factors(
            device.launch(Kernel::MultiplyBatched { lhs, rhs, result }, config).mem[result.buffer][result.at(
                batch,
                row,
                col,
            )],
            zero,
        ),
{
    let shape = shape_of(lhs, rhs);
    let batches = batches_of(lhs, rhs, result);
    let a = |x: int| device.mem[lhs.buffer][x];
    let b = |x: int| device.mem[rhs.buffer][x];
    assert(apart(shape, batches)) by {
        assert forall|n: int, i: int, j: int, m: int, k: int, l: int|
            #![trigger batches.position(n, i, j), batches.position(m, k, l)]
            in_result(shape, batches, n, i, j) && in_result(shape, batches, m, k, l)
                && batches.position(n, i, j) == batches.position(m, k, l) implies n == m && i == k
            && j == l by {
            assert(result.at(n, i, j) == batches.position(n, i, j));
            assert(result.at(m, k, l) == batches.position(m, k, l));
        }
    }
    let grid = config.grid_x as int;
    law_a_launch_makes_every_product(shape, batches, a, b, zero, grid, batch, row, col, products);
    let at = result.at(batch, row, col);
    assert(at == batches.position(batch, row, col));
    lemma_position_fits(shape, batches, batch, row, col);
    let (b2, r2, c2) = choose|b: int, r: int, c: int| #[trigger]
        result.at(b, r, c) == at && result.contains(b, r, c);
    assert(result.at(b2, r2, c2) == at && result.contains(b2, r2, c2));
    assert(b2 == batch && r2 == row && c2 == col);
    let dot = device.batch_dot(lhs, rhs, batch, row, col);
    let after = device.launch(Kernel::MultiplyBatched { lhs, rhs, result }, config);
    assert(after.mem[result.buffer][at] == dot);
    let wanted = shape.row_by_column(operands_of(batches, a, b, zero, batch), row, col);
    lemma_ceil_div(shape.inner as int, 16);
    assert forall|k: int| 0 <= k < wanted.len() implies #[trigger] wanted[k] == factors(dot, zero)[k] by {
        if k < lhs.cols {
            assert(lhs.at(batch, row, k) == lhs.offset + batch * lhs.batch_stride + (row
                * lhs.row_stride + k));
            assert(rhs.at(batch, k, col) == rhs.offset + batch * rhs.batch_stride + (k
                * rhs.row_stride + col));
        }
    }
    assert(wanted =~= factors(dot, zero));
}

/// The same of one product of matrices without gaps.
pub proof fn law_products_are_made_by_their_launch(
    device: Device,
    lhs: DeviceSliceDescriptor,
    rhs: DeviceSliceDescriptor,
    result: DeviceSliceDescriptor,
    inner: usize,
    rows: usize,
    cols: usize,
    config: LaunchConfig,
    zero: Term,
    row: int,
    col: int,
    products: Products<Term>,
)
    requires
        contiguous_shape(inner, rows, cols).wf(),
        single_batch(lhs.offset, rhs.offset, result.offset, cols).wf(
            contiguous_shape(inner, rows, cols),
        ),
        lhs.len == rows * inner,
        rhs.len == inner * cols,
        result.len == rows * cols,
        lhs.offset + lhs.len <= device.mem[lhs.buffer].len(),
        rhs.offset + rhs.len <= device.mem[rhs.buffer].len(),
        result.offset + result.len <= device.mem[result.buffer].len(),
        config.block_x == 128,
        ceil_div(rows as int, 32) * ceil_div(cols as int, 32) <= config.grid_x,
        0 <= row < rows,
        0 <= col < cols,
    ensures
        launch_writes(
            contiguous_shape(inner, rows, cols),
            single_batch(lhs.offset, rhs.offset, result.offset, cols),
            |x: int| device.mem[lhs.buffer][x],
            |x: int| device.mem[rhs.buffer][x],
            zero,
            config.grid_x as int,
            result.offset + row * cols + col,
            products,
        ) <==> products == factors(
            device.launch(
                Kernel::Multiply { lhs, rhs, result, inner, rows, cols },
                config,
            ).mem[result.buffer][result.offset + row * cols + col],
            zero,
        ),
{
    let shape = contiguous_shape(inner, rows, cols);
    let batches = single_batch(lhs.offset, rhs.offset, result.offset, cols);
    let a = |x: int| device.mem[lhs.buffer][x];
    let b = |x: int| device.mem[rhs.buffer][x];
    assert forall|n: int, i: int, j: int, m: int, k: int, l: int|
        #![trigger batches.position(n, i, j), batches.position(m, k, l)]
        in_result(shape, batches, n, i, j) && in_result(shape, batches, m, k, l)
            && batches.position(n, i, j) == batches.position(m, k, l) implies n == m && i == k && j
        == l by {
        assert(n == 0 && m == 0);
        lemma_row_col(i, j, cols as int);
        lemma_row_col(k, l, cols as int);
    }
    let grid = config.grid_x as int;
    assert(1 * (ceil_div(rows as int, 32) * ceil_div(cols as int, 32)) <= grid);
    law_a_launch_makes_every_product(shape, batches, a, b, zero, grid, 0, row, col, products);
    let place = row * cols + col;
    lemma_row_col(row, col, cols as int);
    assert(0 <= place < rows * cols) by (nonlinear_arith)
        requires
            place == row * cols + col,
            0 <= row < rows,
            0 <= col < cols,
    ;
    assert(batches.position(0, row, col) == result.offset + place);
    let at = result.offset + place;
    let left = row_of(device.read(lhs), inner as nat, row);
    let right = column_of(device.read(rhs), inner as nat, cols as nat, col);
    let after = device.launch(Kernel::Multiply { lhs, rhs, result, inner, rows, cols }, config);
    assert(after.mem[result.buffer][at] == Term::Dot(left, right));
    let wanted = shape.row_by_column(operands_of(batches, a, b, zero, 0), row, col);
    lemma_ceil_div(inner as int, 16);
    let made = factors(Term::Dot(left, right), zero);
    assert forall|k: int| 0 <= k < wanted.len() implies #[trigger] wanted[k] == made[k] by {
        if k < inner {
            assert(0 <= row * inner + k < rows * inner) by (nonlinear_arith)
                requires
                    0 <= row < rows,
                    0 <= k < inner,
            ;
            assert(0 <= k * cols + col < inner * cols) by (nonlinear_arith)
                requires
                    0 <= k < inner,
                    0 <= col < cols,
            ;
            assert(left[k] == device.mem[lhs.buffer][lhs.offset + (row * inner + k)]);
            assert(right[k] == device.mem[rhs.buffer][rhs.offset + (k * cols + col)]);
        }
    }
    assert(wanted =~= made);
}

} // verus!
