//! The tiled matrix product: what a thread copies to shared memory, which
//! fragments it reads from there, and which elements it writes.
//!
//! A block of four warps makes a square of two by two tiles. Tiles are sixteen
//! elements wide; the common dimension is walked tile by tile, and every tile in
//! two slices of eight.

use vstd::prelude::*;

use super::stage::DoubleBuffer;
use crate::cuda::arith::{ceil_div, div_ceil, lemma_ceil_div, lemma_position, lemma_row_col};

verus! {

pub const TILE_SIZE: usize = 16;

pub const K_STEP: usize = 8;

pub const BLOCK_TILE_AXIS: usize = 2;

/// Elements of one stage: two tiles.
pub const STAGE_SIZE: usize = 512;

/// Threads of a block: four warps.
pub const MULTIPLY_BLOCK: usize = 128;

/// Where an element of a tile is kept in shared memory: three bits of its row
/// are added to three bits of the offset so that the reads of a warp meet
/// different banks. Groups of four stay together.
pub open spec fn swizzle(offset: usize) -> usize {
    offset ^ ((offset & 0x70) >> 2usize)
}

/// The place of an element of a tile.
pub open spec fn tile_at(row: int, col: int) -> int {
    swizzle((row * 16 + col) as usize) as int
}

pub fn swizzled_index(row: usize, col: usize) -> (r: usize)
    requires
        row < 16,
        col < 16,
    ensures
        r == tile_at(row as int, col as int),
        r < 256,
{
    let offset: usize = row * TILE_SIZE + col;
    assert(offset < 256 ==> (offset ^ ((offset & 0x70) >> 2usize)) < 256) by (bit_vector);
    offset ^ ((offset & 0x70) >> 2usize)
}

/// No two elements of a tile share a place, and all places are in the tile.
pub proof fn law_swizzle_is_a_permutation(r1: int, c1: int, r2: int, c2: int)
    requires
        0 <= r1 < 16,
        0 <= c1 < 16,
        0 <= r2 < 16,
        0 <= c2 < 16,
    ensures
        0 <= tile_at(r1, c1) < 256,
        tile_at(r1, c1) == tile_at(r2, c2) ==> r1 == r2 && c1 == c2,
{
    let a = (r1 * 16 + c1) as usize;
    let b = (r2 * 16 + c2) as usize;
    assert(a < 256 ==> (a ^ ((a & 0x70) >> 2usize)) < 256) by (bit_vector);
    assert(a < 256 && b < 256 && (a ^ ((a & 0x70) >> 2usize)) == (b ^ ((b & 0x70) >> 2usize)) ==> a
        == b) by (bit_vector);
    lemma_row_col(r1, c1, 16);
    lemma_row_col(r2, c2, 16);
}

/// Four elements that start at a multiple of four stay next to one another.
pub proof fn law_swizzle_keeps_groups(row: int, col: int, j: int)
    requires
        0 <= row < 16,
        0 <= col < 16,
        col % 4 == 0,
        0 <= j < 4,
    ensures
        tile_at(row, col + j) == tile_at(row, col) + j,
        tile_at(row, col) % 4 == 0,
{
    let a = (row * 16 + col) as usize;
    let n = j as usize;
    assert(a < 256 && a % 4 == 0 && n < 4 ==> ((a + n) as usize ^ (((a + n) as usize & 0x70)
        >> 2usize)) == (a ^ ((a & 0x70) >> 2usize)) + n && (a ^ ((a & 0x70) >> 2usize)) % 4 == 0)
        by (bit_vector);
    assert((row * 16 + col + j) as usize == a + n);
}

/// What a thread copies for one step along the common dimension: four elements
/// of each operand from an offset, as far as they are there, to a place in the
/// stage.
#[derive(Clone, Copy, Debug, PartialEq, Eq, Structural)]
pub struct TileSources {
    pub a: usize,
    pub b: usize,
    pub destination: usize,
    pub a_valid: usize,
    pub b_valid: usize,
}

/// Which tile of a stage a thread copies into.
pub open spec fn load_subtile(thread: int) -> int {
    thread / 64
}

/// The row of the tile that a thread copies into.
pub open spec fn load_row(thread: int) -> int {
    (thread % 64) / 4
}

/// The first of the four columns that a thread copies into.
pub open spec fn load_col(thread: int) -> int {
    ((thread % 64) % 4) * 4
}

/// How many of four elements from a column on are there.
pub open spec fn valid_of(present: bool, width: int, col: int) -> int {
    if present && col < width {
        if width - col < 4 {
            width - col
        } else {
            4
        }
    } else {
        0
    }
}

/// The row of the first operand that a thread reads.
pub open spec fn a_row_of(block_row: int, thread: int) -> int {
    (block_row * 2 + load_subtile(thread)) * 16 + load_row(thread)
}

/// The first column of the second operand that a thread reads.
pub open spec fn b_col_of(block_col: int, thread: int) -> int {
    (block_col * 2 + load_subtile(thread)) * 16 + load_col(thread)
}

/// The sizes of a product and the strides of its operands.
#[derive(Clone, Copy, Debug, PartialEq, Eq, Structural)]
pub struct ProductShape {
    pub inner: usize,
    pub rows: usize,
    pub cols: usize,
    pub a_row_stride: usize,
    pub b_row_stride: usize,
}

impl ProductShape {
    /// Sizes that are representable, and so are all offsets inside them.
    pub open spec fn wf(self) -> bool {
        &&& self.rows > 0 && self.cols > 0 && self.inner > 0
        &&& self.rows + 64 <= usize::MAX
        &&& self.cols + 64 <= usize::MAX
        &&& self.inner + 64 <= usize::MAX
        &&& (self.rows - 1) * self.a_row_stride + self.inner <= usize::MAX
        &&& (self.inner - 1) * self.b_row_stride + self.cols <= usize::MAX
    }

    /// Blocks along the rows of the result.
    pub open spec fn block_rows(self) -> int {
        ceil_div(ceil_div(self.rows as int, 16), 2)
    }

    /// Blocks along the columns of the result.
    pub open spec fn block_cols(self) -> int {
        ceil_div(ceil_div(self.cols as int, 16), 2)
    }

    /// Steps along the common dimension.
    pub open spec fn k_tiles(self) -> int {
        ceil_div(self.inner as int, 16)
    }

    /// What a thread copies.
    pub open spec fn sources(self, block_row: int, block_col: int, k_tile: int, thread: int) -> TileSources {
        let a_row = a_row_of(block_row, thread);
        let a_col = k_tile * 16 + load_col(thread);
        let b_row = k_tile * 16 + load_row(thread);
        let b_col = b_col_of(block_col, thread);
        let a_valid = valid_of(a_row < self.rows, self.inner as int, a_col);
        let b_valid = valid_of(b_row < self.inner, self.cols as int, b_col);
        TileSources {
            a: (if a_valid == 0 {
                0
            } else {
                a_row * self.a_row_stride + a_col
            }) as usize,
            b: (if b_valid == 0 {
                0
            } else {
                b_row * self.b_row_stride + b_col
            }) as usize,
            destination: (load_subtile(thread) * 256 + tile_at(
                load_row(thread),
                load_col(thread),
            )) as usize,
            a_valid: a_valid as usize,
            b_valid: b_valid as usize,
        }
    }
}

/// Blocks of a dimension and what they reach.
proof fn lemma_blocks(size: int)
    requires
        size > 0,
    ensures
        0 < ceil_div(size, 16) <= size,
        ceil_div(size, 16) * 16 < size + 16,
        0 < ceil_div(ceil_div(size, 16), 2) <= size,
        ceil_div(ceil_div(size, 16), 2) * 32 < size + 48,
        ceil_div(ceil_div(size, 16), 2) == ceil_div(size, 32),
{
    lemma_ceil_div(size, 16);
    let t = ceil_div(size, 16);
    lemma_ceil_div(t, 2);
    lemma_ceil_div(size, 32);
}

/// An offset inside a matrix is representable.
proof fn lemma_offset(row: int, col: int, rows: int, stride: int, width: int)
    requires
        0 <= row < rows,
        0 <= col < width,
        stride >= 0,
        (rows - 1) * stride + width <= usize::MAX,
    ensures
        0 <= row * stride,
        row * stride + col < (rows - 1) * stride + width,
{
    assert(0 <= row * stride <= (rows - 1) * stride) by (nonlinear_arith)
        requires
            0 <= row <= rows - 1,
            stride >= 0,
    ;
}

#[verifier::spinoff_prover]
#[verifier::rlimit(40)]
pub fn tile_sources(
    shape: ProductShape,
    block_row: usize,
    block_col: usize,
    k_tile: usize,
    thread_id: usize,
) -> (r: TileSources)
    requires
        shape.wf(),
        block_row < shape.block_rows(),
        block_col < shape.block_cols(),
        k_tile < shape.k_tiles(),
        thread_id < 128,
    ensures
        r == shape.sources(
            block_row as int,
            block_col as int,
            k_tile as int,
            thread_id as int,
        ),
        r.a_valid <= 4 && r.b_valid <= 4,
        r.a_valid > 0 ==> r.a + r.a_valid <= (shape.rows - 1) * shape.a_row_stride + shape.inner,
        r.b_valid > 0 ==> r.b + r.b_valid <= (shape.inner - 1) * shape.b_row_stride + shape.cols,
        r.destination + 4 <= STAGE_SIZE,
{
    proof {
        lemma_blocks(shape.rows as int);
        lemma_blocks(shape.cols as int);
        lemma_blocks(shape.inner as int);
    }
    let subtile: usize = thread_id / 64;
    let chunk: usize = thread_id % 64;
    let local_row: usize = chunk / 4;
    let local_col: usize = (chunk % 4) * 4;
    let a_row: usize = (block_row * BLOCK_TILE_AXIS + subtile) * TILE_SIZE + local_row;
    let a_col: usize = k_tile * TILE_SIZE + local_col;
    let b_row: usize = k_tile * TILE_SIZE + local_row;
    let b_col: usize = (block_col * BLOCK_TILE_AXIS + subtile) * TILE_SIZE + local_col;
    let a_valid: usize = if a_row < shape.rows && a_col < shape.inner {
        if shape.inner - a_col < 4 {
            shape.inner - a_col
        } else {
            4
        }
    } else {
        0
    };
    let b_valid: usize = if b_row < shape.inner && b_col < shape.cols {
        if shape.cols - b_col < 4 {
            shape.cols - b_col
        } else {
            4
        }
    } else {
        0
    };
    proof {
        if a_valid > 0 {
            lemma_offset(
                a_row as int,
                a_col + a_valid - 1,
                shape.rows as int,
                shape.a_row_stride as int,
                shape.inner as int,
            );
        }
        if b_valid > 0 {
            lemma_offset(
                b_row as int,
                b_col + b_valid - 1,
                shape.inner as int,
                shape.b_row_stride as int,
                shape.cols as int,
            );
        }
        law_swizzle_keeps_groups(local_row as int, local_col as int, 3);
        law_swizzle_is_a_permutation(
            local_row as int,
            local_col + 3,
            local_row as int,
            local_col + 3,
        );
    }
    let a: usize = if a_valid == 0 {
        0
    } else {
        a_row * shape.a_row_stride + a_col
    };
    let b: usize = if b_valid == 0 {
        0
    } else {
        b_row * shape.b_row_stride + b_col
    };
    TileSources {
        a,
        b,
        destination: subtile * TILE_SIZE * TILE_SIZE + swizzled_index(local_row, local_col),
        a_valid,
        b_valid,
    }
}

/// The thread that copies an element of a stage.
pub open spec fn loader(subtile: int, row: int, col: int) -> int {
    subtile * 64 + row * 4 + col / 4
}

/// Every element of a stage is copied by exactly one thread of the block, and
/// lands where the tile keeps it.
pub proof fn law_loads_fill_the_stage(
    shape: ProductShape,
    block_row: int,
    block_col: int,
    k_tile: int,
    subtile: int,
    row: int,
    col: int,
    thread: int,
)
    requires
        0 <= subtile < 2,
        0 <= row < 16,
        0 <= col < 16,
        0 <= thread < 128,
    ensures
        0 <= loader(subtile, row, col) < 128,
        load_subtile(loader(subtile, row, col)) == subtile,
        load_row(loader(subtile, row, col)) == row,
        load_col(loader(subtile, row, col)) + col % 4 == col,
        shape.sources(block_row, block_col, k_tile, loader(subtile, row, col)).destination + col % 4
            == subtile * 256 + tile_at(row, col),
        shape.sources(block_row, block_col, k_tile, thread).destination <= subtile * 256 + tile_at(
            row,
            col,
        ) < shape.sources(block_row, block_col, k_tile, thread).destination + 4 ==> thread == loader(
            subtile,
            row,
            col,
        ),
{
    let t = loader(subtile, row, col);
    let chunk = row * 4 + col / 4;
    lemma_row_col(subtile, chunk, 64);
    lemma_row_col(row, col / 4, 4);
    assert(t % 64 == chunk);
    let base = load_col(t);
    assert(base == (col / 4) * 4 && base + col % 4 == col && base % 4 == 0);
    law_swizzle_keeps_groups(row, base, col % 4);
    law_swizzle_is_a_permutation(row, base, row, col);
    let s = load_subtile(thread);
    let r = load_row(thread);
    let c = load_col(thread);
    assert(0 <= s < 2 && 0 <= r < 16 && 0 <= c < 16 && c % 4 == 0);
    law_swizzle_is_a_permutation(r, c, row, col);
    law_swizzle_keeps_groups(r, c, 0);
    let at = subtile * 256 + tile_at(row, col);
    let d = s * 256 + tile_at(r, c);
    law_swizzle_is_a_permutation(row, col, row, col);
    if d <= at < d + 4 {
        let j = at - d;
        law_swizzle_keeps_groups(r, c, j);
        law_swizzle_is_a_permutation(r, c + j, row, col);
        assert(s == subtile);
        assert(tile_at(r, c + j) == tile_at(row, col));
        assert(r == row && c + j == col);
        assert(c == base);
        assert((thread % 64) % 4 == col / 4);
        assert(thread == t);
    }
}

/// What a stage holds of the first operand after a step's copies: elements that
/// are not there are zero.
pub open spec fn staged_a<T>(
    shape: ProductShape,
    a: spec_fn(int) -> T,
    zero: T,
    block_row: int,
    block_col: int,
    k_tile: int,
    subtile: int,
    row: int,
    col: int,
) -> T {
    let sources = shape.sources(block_row, block_col, k_tile, loader(subtile, row, col));
    if col % 4 < sources.a_valid {
        a(sources.a + col % 4)
    } else {
        zero
    }
}

/// The same of the second operand.
pub open spec fn staged_b<T>(
    shape: ProductShape,
    b: spec_fn(int) -> T,
    zero: T,
    block_row: int,
    block_col: int,
    k_tile: int,
    subtile: int,
    row: int,
    col: int,
) -> T {
    let sources = shape.sources(block_row, block_col, k_tile, loader(subtile, row, col));
    if col % 4 < sources.b_valid {
        b(sources.b + col % 4)
    } else {
        zero
    }
}

/// A stage holds the tiles of the operands, padded with zeros.
pub proof fn law_stages_hold_the_tiles<T>(
    shape: ProductShape,
    a: spec_fn(int) -> T,
    b: spec_fn(int) -> T,
    zero: T,
    block_row: int,
    block_col: int,
    k_tile: int,
    subtile: int,
    row: int,
    col: int,
)
    requires
        shape.wf(),
        0 <= block_row < shape.block_rows(),
        0 <= block_col < shape.block_cols(),
        0 <= k_tile < shape.k_tiles(),
        0 <= subtile < 2,
        0 <= row < 16,
        0 <= col < 16,
    ensures
        staged_a(shape, a, zero, block_row, block_col, k_tile, subtile, row, col) == ({
            let r = (block_row * 2 + subtile) * 16 + row;
            let k = k_tile * 16 + col;
            if r < shape.rows && k < shape.inner {
                a(r * shape.a_row_stride + k)
            } else {
                zero
            }
        }),
        staged_b(shape, b, zero, block_row, block_col, k_tile, subtile, row, col) == ({
            let k = k_tile * 16 + row;
            let c = (block_col * 2 + subtile) * 16 + col;
            if k < shape.inner && c < shape.cols {
                b(k * shape.b_row_stride + c)
            } else {
                zero
            }
        }),
{
    lemma_blocks(shape.rows as int);
    lemma_blocks(shape.cols as int);
    lemma_blocks(shape.inner as int);
    let t = loader(subtile, row, col);
    law_loads_fill_the_stage(shape, block_row, block_col, k_tile, subtile, row, col, t);
    let j = col % 4;
    let a_row = a_row_of(block_row, t);
    let a_col = k_tile * 16 + load_col(t);
    let b_row = k_tile * 16 + load_row(t);
    let b_col = b_col_of(block_col, t);
    let a_valid = valid_of(a_row < shape.rows, shape.inner as int, a_col);
    let b_valid = valid_of(b_row < shape.inner, shape.cols as int, b_col);
    if a_valid > 0 {
        lemma_offset(
            a_row,
            a_col,
            shape.rows as int,
            shape.a_row_stride as int,
            shape.inner as int,
        );
    }
    if b_valid > 0 {
        lemma_offset(
            b_row,
            b_col,
            shape.inner as int,
            shape.b_row_stride as int,
            shape.cols as int,
        );
    }
}

/// The places in the tiles that a lane reads for one slice of eight, in the
/// order of the registers of the tensor instruction.
#[derive(Clone, Copy, Debug)]
pub struct Tf32Fragments {
    pub a: [usize; 4],
    pub b_left: [usize; 2],
    pub b_right: [usize; 2],
}

/// The row of an element that a lane holds of the first operand.
pub open spec fn fragment_row(lane: int, register: int) -> int {
    lane / 4 + 8 * (register % 2)
}

/// The position along the common dimension of an element that a lane holds.
pub open spec fn fragment_k(lane: int, half: int) -> int {
    lane % 4 + 4 * half
}

/// The place in its tile of an element of the first operand that a lane holds.
pub open spec fn a_place(k_offset: int, lane: int, register: int) -> int {
    tile_at(fragment_row(lane, register), k_offset + fragment_k(lane, register / 2))
}

/// The place in its tile of an element of the second operand that a lane holds.
pub open spec fn b_place(k_offset: int, lane: int, register: int, right: bool) -> int {
    tile_at(
        k_offset + fragment_k(lane, register),
        lane / 4 + if right {
            8int
        } else {
            0
        },
    )
}

/// The places of one slice of two tiles that a lane reads.
pub fn prefetch_tf32_fragments(k_offset: usize, lane: usize) -> (r: Tf32Fragments)
    requires
        k_offset <= 8,
        lane < 32,
    ensures
        forall|i: int|
            0 <= i < 4 ==> #[trigger] r.a@[i] == a_place(k_offset as int, lane as int, i),
        forall|i: int|
            0 <= i < 2 ==> #[trigger] r.b_left@[i] == b_place(
                k_offset as int,
                lane as int,
                i,
                false,
            ),
        forall|i: int|
            0 <= i < 2 ==> #[trigger] r.b_right@[i] == b_place(
                k_offset as int,
                lane as int,
                i,
                true,
            ),
{
    let group: usize = lane / 4;
    let thread: usize = lane % 4;
    let a = [
        swizzled_index(group, k_offset + thread),
        swizzled_index(group + 8, k_offset + thread),
        swizzled_index(group, k_offset + thread + 4),
        swizzled_index(group + 8, k_offset + thread + 4),
    ];
    let b_left = [
        swizzled_index(k_offset + thread, group),
        swizzled_index(k_offset + thread + 4, group),
    ];
    let b_right = [
        swizzled_index(k_offset + thread, group + 8),
        swizzled_index(k_offset + thread + 4, group + 8),
    ];
    Tf32Fragments { a, b_left, b_right }
}

/// Every element of a slice is held by exactly one register of one lane: of the
/// first operand element (`row`, `k`), of the second (`k`, `row`).
pub proof fn law_fragments_hold_each_element_once(row: int, k: int, lane: int, register: int)
    requires
        0 <= row < 16,
        0 <= k < 8,
        0 <= lane < 32,
        0 <= register < 4,
    ensures
        fragment_row((row % 8) * 4 + k % 4, row / 8 + 2 * (k / 4)) == row,
        fragment_k((row % 8) * 4 + k % 4, k / 4) == k,
        fragment_row(lane, register) == row && fragment_k(lane, register / 2) == k ==> lane == (row
            % 8) * 4 + k % 4 && register == row / 8 + 2 * (k / 4),
        row < 8 ==> ((row * 4 + k % 4) / 4 == row && fragment_k(row * 4 + k % 4, k / 4) == k),
{
}

/// A block's part of the result.
#[derive(Clone, Copy, Debug, PartialEq, Eq, Structural)]
pub struct BlockTile {
    pub batch: usize,
    pub block_row: usize,
    pub block_col: usize,
}

/// Which part of which product a block makes; none if there are more blocks than
/// parts.
pub fn block_tile(shape: ProductShape, batch_count: usize, global_block_id: usize) -> (r: Option<
    BlockTile,
>)
    requires
        shape.wf(),
        shape.block_rows() * shape.block_cols() <= usize::MAX,
    ensures
        r is Some <==> global_block_id < batch_count * (shape.block_rows() * shape.block_cols()),
        r matches Some(tile) ==> {
            &&& tile.batch < batch_count
            &&& tile.block_row < shape.block_rows()
            &&& tile.block_col < shape.block_cols()
            &&& global_block_id == tile.batch * (shape.block_rows() * shape.block_cols())
                + tile.block_row * shape.block_cols() + tile.block_col
        },
{
    proof {
        lemma_blocks(shape.rows as int);
        lemma_blocks(shape.cols as int);
    }
    let tile_rows: usize = div_ceil(shape.rows, TILE_SIZE);
    let tile_cols: usize = div_ceil(shape.cols, TILE_SIZE);
    let block_tile_cols: usize = div_ceil(tile_cols, BLOCK_TILE_AXIS);
    let block_tile_rows: usize = div_ceil(tile_rows, BLOCK_TILE_AXIS);
    let ghost rows = block_tile_rows as int;
    let ghost cols = block_tile_cols as int;
    proof {
        assert(rows * cols > 0) by (nonlinear_arith)
            requires
                rows > 0,
                cols > 0,
        ;
    }
    let blocks_per_batch: usize = block_tile_rows * block_tile_cols;
    let batch: usize = global_block_id / blocks_per_batch;
    let ghost n = blocks_per_batch as int;
    proof {
        vstd::arithmetic::div_mod::lemma_fundamental_div_mod(global_block_id as int, n);
        assert(n * batch == batch * n) by (nonlinear_arith);
        if batch >= batch_count {
            assert(batch * n >= batch_count * n) by (nonlinear_arith)
                requires
                    batch >= batch_count,
                    n > 0,
            ;
        } else {
            assert((batch + 1) * n <= batch_count * n) by (nonlinear_arith)
                requires
                    batch + 1 <= batch_count,
                    n > 0,
            ;
            assert((batch + 1) * n == batch * n + n) by (nonlinear_arith);
        }
    }
    if batch >= batch_count {
        return None;
    }
    let block_id: usize = global_block_id % blocks_per_batch;
    proof {
        lemma_position(block_id as int, rows, cols);
    }
    Some(
        BlockTile {
            batch,
            block_row: block_id / block_tile_cols,
            block_col: block_id % block_tile_cols,
        },
    )
}

/// The row of the result that a register belongs to.
pub open spec fn output_row(block_row: int, warp: int, lane: int, register: int) -> int {
    (block_row * 2 + warp / 2) * 16 + lane / 4 + 8 * (register / 2)
}

/// The column of the result that a register belongs to.
pub open spec fn output_col(block_col: int, warp: int, lane: int, register: int, right: bool) -> int {
    (block_col * 2 + warp % 2) * 16 + (lane % 4) * 2 + register % 2 + if right {
        8int
    } else {
        0
    }
}

/// The block row, warp, lane and register that make an element of the result:
/// there is exactly one of each.
pub proof fn law_every_result_is_made_once(
    shape: ProductShape,
    row: int,
    col: int,
    block_row: int,
    block_col: int,
    warp: int,
    lane: int,
    register: int,
    right: bool,
)
    requires
        shape.wf(),
        0 <= row < shape.rows,
        0 <= col < shape.cols,
        0 <= block_row,
        0 <= block_col,
        0 <= warp < 4,
        0 <= lane < 32,
        0 <= register < 4,
    ensures
        0 <= row / 32 < shape.block_rows(),
        0 <= col / 32 < shape.block_cols(),
        output_row(
            row / 32,
            ((row / 16) % 2) * 2 + (col / 16) % 2,
            (row % 8) * 4 + (col % 8) / 2,
            ((row / 8) % 2) * 2 + col % 2,
        ) == row,
        output_col(
            col / 32,
            ((row / 16) % 2) * 2 + (col / 16) % 2,
            (row % 8) * 4 + (col % 8) / 2,
            ((row / 8) % 2) * 2 + col % 2,
            (col / 8) % 2 == 1,
        ) == col,
        output_row(block_row, warp, lane, register) == row && output_col(
            block_col,
            warp,
            lane,
            register,
            right,
        ) == col ==> block_row == row / 32 && block_col == col / 32 && warp == ((row / 16) % 2) * 2
            + (col / 16) % 2 && lane == (row % 8) * 4 + (col % 8) / 2 && register == ((row / 8) % 2)
            * 2 + col % 2 && right == ((col / 8) % 2 == 1),
{
    lemma_blocks(shape.rows as int);
    lemma_blocks(shape.cols as int);
    lemma_ceil_div(shape.rows as int, 32);
    lemma_ceil_div(shape.cols as int, 32);
    let w = ((row / 16) % 2) * 2 + (col / 16) % 2;
    let l = (row % 8) * 4 + (col % 8) / 2;
    let g = ((row / 8) % 2) * 2 + col % 2;
    assert(w / 2 == (row / 16) % 2 && w % 2 == (col / 16) % 2);
    assert(l / 4 == row % 8 && l % 4 == (col % 8) / 2);
    assert(g / 2 == (row / 8) % 2 && g % 2 == col % 2);
    lemma_row_digits(row, row / 32, (row / 16) % 2, row % 8, (row / 8) % 2);
    lemma_col_digits(col, col / 32, (col / 16) % 2, (col % 8) / 2, col % 2, (col / 8) % 2);
    lemma_row_digits(row, block_row, warp / 2, lane / 4, register / 2);
    lemma_col_digits(
        col,
        block_col,
        warp % 2,
        lane % 4,
        register % 2,
        if right {
            1
        } else {
            0
        },
    );
}

/// A row of the result is made up of its block, its warp, its half and its
/// group.
proof fn lemma_row_digits(row: int, block: int, warp: int, group: int, half: int)
    requires
        0 <= row,
        0 <= warp < 2,
        0 <= group < 8,
        0 <= half < 2,
    ensures
        row == (row / 32 * 2 + (row / 16) % 2) * 16 + row % 8 + 8 * ((row / 8) % 2),
        row == (block * 2 + warp) * 16 + group + 8 * half ==> block == row / 32 && warp == (row / 16)
            % 2 && group == row % 8 && half == (row / 8) % 2,
{
    let x = row / 8;
    let z = x / 2;
    assert(z == row / 16);
    assert(z / 2 == row / 32);
    assert(row == x * 8 + row % 8);
    assert(x == z * 2 + x % 2);
    assert(z == (z / 2) * 2 + z % 2);
    if row == (block * 2 + warp) * 16 + group + 8 * half {
        let h = block * 2 + warp;
        assert(row == (h * 2 + half) * 8 + group);
        lemma_row_col(h * 2 + half, group, 8);
        lemma_row_col(h, half, 2);
        lemma_row_col(block, warp, 2);
    }
}

/// A column of the result is made up of its block, its warp, its side, its pair
/// and its parity.
proof fn lemma_col_digits(col: int, block: int, warp: int, pair: int, parity: int, side: int)
    requires
        0 <= col,
        0 <= warp < 2,
        0 <= pair < 4,
        0 <= parity < 2,
        0 <= side < 2,
    ensures
        col == (col / 32 * 2 + (col / 16) % 2) * 16 + ((col % 8) / 2) * 2 + col % 2 + 8 * ((col / 8)
            % 2),
        col == (block * 2 + warp) * 16 + pair * 2 + parity + 8 * side ==> block == col / 32 && warp
            == (col / 16) % 2 && pair == (col % 8) / 2 && parity == col % 2 && side == (col / 8)
            % 2,
{
    let y = col % 8;
    assert(y == (y / 2) * 2 + y % 2 && y % 2 == col % 2);
    let group = pair * 2 + parity;
    assert(0 <= group < 8 && group / 2 == pair && group % 2 == parity);
    lemma_row_digits(col, block, warp, group, side);
}

/// Where the matrices of a batch start.
#[derive(Clone, Copy, Debug, PartialEq, Eq, Structural)]
pub struct BatchShape {
    pub batch_count: usize,
    pub a_offset: usize,
    pub a_batch_stride: usize,
    pub b_offset: usize,
    pub b_batch_stride: usize,
    pub result_offset: usize,
    pub result_row_stride: usize,
    pub result_batch_stride: usize,
}

impl BatchShape {
    /// Every offset that a batch needs is representable.
    pub open spec fn wf(self, shape: ProductShape) -> bool {
        &&& self.batch_count > 0
        &&& self.a_offset + (self.batch_count - 1) * self.a_batch_stride <= usize::MAX
        &&& self.b_offset + (self.batch_count - 1) * self.b_batch_stride <= usize::MAX
        &&& self.result_offset + (self.batch_count - 1) * self.result_batch_stride + (shape.rows - 1)
            * self.result_row_stride + shape.cols <= usize::MAX
    }

    /// The position of an element of the result.
    pub open spec fn position(self, batch: int, row: int, col: int) -> int {
        self.result_offset + batch * self.result_batch_stride + row * self.result_row_stride + col
    }
}

/// One action of a thread.
#[derive(Clone, Copy, Debug, PartialEq, Eq, Structural)]
pub enum ThreadStep {
    /// Starts copying four elements of each operand to a stage.
    Load { stage: usize, sources: TileSources },
    /// Groups the copies that were started.
    Commit,
    /// Waits for the copies of the whole block.
    Wait,
    /// Adds the product of one slice of two tiles of a stage to the registers.
    Multiply { stage: usize, a_tile: usize, b_tile: usize, k_offset: usize },
    /// Writes a register to the result.
    Write { position: usize, register: usize, right: bool },
}

/// What a thread does, with the starts of the operands that it reads.
pub struct ThreadProgram {
    pub tile: BlockTile,
    pub a_base: usize,
    pub b_base: usize,
    pub steps: Vec<ThreadStep>,
}

impl ProductShape {
    /// The step that fetches a tile of each operand.
    pub open spec fn load_step(self, tile: BlockTile, thread: int, k_tile: int) -> ThreadStep {
        ThreadStep::Load {
            stage: (k_tile % 2) as usize,
            sources: self.sources(
                tile.block_row as int,
                tile.block_col as int,
                k_tile,
                thread,
            ),
        }
    }

    /// One step along the common dimension: the next tiles are fetched while
    /// the current ones are multiplied.
    pub open spec fn k_steps(self, tile: BlockTile, thread: int, k_tile: int) -> Seq<ThreadStep> {
        let stage = (k_tile % 2) as usize;
        let warp = thread / 32;
        let a_tile = ((warp / 2) * 256) as usize;
        let b_tile = ((warp % 2) * 256) as usize;
        let products = seq![
            ThreadStep::Multiply { stage, a_tile, b_tile, k_offset: 0 },
            ThreadStep::Multiply { stage, a_tile, b_tile, k_offset: 8 },
        ];
        if k_tile + 1 < self.k_tiles() {
            seq![self.load_step(tile, thread, k_tile + 1), ThreadStep::Commit] + products
                + seq![ThreadStep::Wait]
        } else {
            products
        }
    }

    /// The first steps along the common dimension.
    pub open spec fn steps_upto(self, tile: BlockTile, thread: int, n: int) -> Seq<ThreadStep>
        decreases n,
    {
        if n <= 0 {
            seq![self.load_step(tile, thread, 0), ThreadStep::Commit, ThreadStep::Wait]
        } else {
            self.steps_upto(tile, thread, n - 1) + self.k_steps(tile, thread, n - 1)
        }
    }

    /// What a thread writes of one register on one side.
    pub open spec fn write_step(
        self,
        batches: BatchShape,
        tile: BlockTile,
        thread: int,
        register: int,
        right: bool,
    ) -> Seq<ThreadStep> {
        let row = output_row(tile.block_row as int, thread / 32, thread % 32, register);
        let col = output_col(tile.block_col as int, thread / 32, thread % 32, register, right);
        if row < self.rows && col < self.cols {
            seq![
                ThreadStep::Write {
                    position: batches.position(tile.batch as int, row, col) as usize,
                    register: register as usize,
                    right,
                },
            ]
        } else {
            Seq::empty()
        }
    }

    /// What a thread writes of its first registers.
    pub open spec fn writes_upto(
        self,
        batches: BatchShape,
        tile: BlockTile,
        thread: int,
        n: int,
    ) -> Seq<ThreadStep>
        decreases n,
    {
        if n <= 0 {
            Seq::empty()
        } else {
            self.writes_upto(batches, tile, thread, n - 1) + self.write_step(
                batches,
                tile,
                thread,
                n - 1,
                false,
            ) + self.write_step(batches, tile, thread, n - 1, true)
        }
    }

    /// Everything that a thread does.
    pub open spec fn program(self, batches: BatchShape, tile: BlockTile, thread: int) -> Seq<ThreadStep> {
        self.steps_upto(tile, thread, self.k_tiles()) + self.writes_upto(batches, tile, thread, 4)
    }
}

/// A product of a batch is in range.
proof fn lemma_batch_offset(batch: int, count: int, stride: int)
    requires
        0 <= batch < count,
        stride >= 0,
    ensures
        0 <= batch * stride <= (count - 1) * stride,
{
    assert(0 <= batch * stride <= (count - 1) * stride) by (nonlinear_arith)
        requires
            0 <= batch <= count - 1,
            stride >= 0,
    ;
}

/// The writes of one register.
fn write_register(
    shape: ProductShape,
    batches: BatchShape,
    tile: BlockTile,
    thread_id: usize,
    register: usize,
    steps: &mut Vec<ThreadStep>,
)
    requires
        shape.wf(),
        batches.wf(shape),
        tile.batch < batches.batch_count,
        tile.block_row < shape.block_rows(),
        tile.block_col < shape.block_cols(),
        thread_id < 128,
        register < 4,
    ensures
        final(steps)@ == old(steps)@ + shape.write_step(
            batches,
            tile,
            thread_id as int,
            register as int,
            false,
        ) + shape.write_step(batches, tile, thread_id as int, register as int, true),
{
    let ghost start = steps@;
    proof {
        lemma_blocks(shape.rows as int);
        lemma_blocks(shape.cols as int);
    }
    let local_warp: usize = thread_id / 32;
    let lane: usize = thread_id % 32;
    let group: usize = lane / 4;
    let pair: usize = lane % 4;
    let tile_row: usize = tile.block_row * BLOCK_TILE_AXIS + local_warp / BLOCK_TILE_AXIS;
    let tile_col: usize = tile.block_col * BLOCK_TILE_AXIS + local_warp % BLOCK_TILE_AXIS;
    let row: usize = tile_row * TILE_SIZE + group + if register >= 2 {
        8usize
    } else {
        0usize
    };
    let col: usize = tile_col * TILE_SIZE + pair * 2 + register % 2;
    let ghost warp = thread_id as int / 32;
    proof {
        assert(row == output_row(tile.block_row as int, warp, lane as int, register as int));
        assert(col == output_col(tile.block_col as int, warp, lane as int, register as int, false));
        assert(col + 8 == output_col(
            tile.block_col as int,
            warp,
            lane as int,
            register as int,
            true,
        ));
        if row < shape.rows {
            lemma_batch_offset(
                tile.batch as int,
                batches.batch_count as int,
                batches.result_batch_stride as int,
            );
            lemma_batch_offset(
                row as int,
                shape.rows as int,
                batches.result_row_stride as int,
            );
        }
    }
    if row < shape.rows && col < shape.cols {
        let position: usize = batches.result_offset + tile.batch * batches.result_batch_stride + row
            * batches.result_row_stride + col;
        steps.push(ThreadStep::Write { position, register, right: false });
    }
    proof {
        assert(steps@ =~= start + shape.write_step(
            batches,
            tile,
            thread_id as int,
            register as int,
            false,
        ));
    }
    let ghost left = steps@;
    if row < shape.rows && col + 8 < shape.cols {
        let position: usize = batches.result_offset + tile.batch * batches.result_batch_stride + row
            * batches.result_row_stride + col + 8;
        steps.push(ThreadStep::Write { position, register, right: true });
    }
    proof {
        assert(steps@ =~= left + shape.write_step(
            batches,
            tile,
            thread_id as int,
            register as int,
            true,
        ));
    }
}

/// What a thread of a block does; nothing if the block has no part in the
/// result.
pub fn matrix_multiply_batched_strided_device(
    shape: ProductShape,
    batches: BatchShape,
    global_block_id: usize,
    thread_id: usize,
) -> (r: Option<ThreadProgram>)
    requires
        shape.wf(),
        batches.wf(shape),
        shape.block_rows() * shape.block_cols() <= usize::MAX,
        thread_id < 128,
    ensures
        r is Some <==> global_block_id < batches.batch_count * (shape.block_rows()
            * shape.block_cols()),
        r matches Some(program) ==> {
            &&& program.tile.batch < batches.batch_count
            &&& program.tile.block_row < shape.block_rows()
            &&& program.tile.block_col < shape.block_cols()
            &&& global_block_id == program.tile.batch * (shape.block_rows() * shape.block_cols())
                + program.tile.block_row * shape.block_cols() + program.tile.block_col
            &&& program.a_base == batches.a_offset + program.tile.batch * batches.a_batch_stride
            &&& program.b_base == batches.b_offset + program.tile.batch * batches.b_batch_stride
            &&& program.steps@ == shape.program(batches, program.tile, thread_id as int)
        },
{
    let tile = match block_tile(shape, batches.batch_count, global_block_id) {
        Some(tile) => tile,
        None => {
            return None;
        },
    };
    proof {
        lemma_blocks(shape.inner as int);
        lemma_batch_offset(
            tile.batch as int,
            batches.batch_count as int,
            batches.a_batch_stride as int,
        );
        lemma_batch_offset(
            tile.batch as int,
            batches.batch_count as int,
            batches.b_batch_stride as int,
        );
    }
    let ghost thread = thread_id as int;
    let local_warp: usize = thread_id / 32;
    let a_tile: usize = (local_warp / BLOCK_TILE_AXIS) * TILE_SIZE * TILE_SIZE;
    let b_tile: usize = (local_warp % BLOCK_TILE_AXIS) * TILE_SIZE * TILE_SIZE;
    let a_base: usize = batches.a_offset + tile.batch * batches.a_batch_stride;
    let b_base: usize = batches.b_offset + tile.batch * batches.b_batch_stride;
    let k_tiles: usize = div_ceil(shape.inner, TILE_SIZE);
    let mut buffer = DoubleBuffer::initialize();
    let mut steps: Vec<ThreadStep> = Vec::new();
    let initial = tile_sources(shape, tile.block_row, tile.block_col, 0, thread_id);
    steps.push(ThreadStep::Load { stage: buffer.current(), sources: initial });
    steps.push(ThreadStep::Commit);
    steps.push(ThreadStep::Wait);
    assert(steps@ =~= shape.steps_upto(tile, thread, 0));
    let mut k_tile: usize = 0;
    while k_tile < k_tiles
        invariant
            shape.wf(),
            tile.block_row < shape.block_rows(),
            tile.block_col < shape.block_cols(),
            thread_id < 128,
            thread == thread_id,
            local_warp == thread_id / 32,
            a_tile == (thread / 32 / 2) * 256,
            b_tile == (thread / 32 % 2) * 256,
            k_tiles == shape.k_tiles(),
            k_tile <= k_tiles,
            buffer.wf(),
            k_tile < k_tiles ==> buffer.current == k_tile % 2,
            steps@ == shape.steps_upto(tile, thread, k_tile as int),
        decreases k_tiles - k_tile,
    {
        let ghost sofar = steps@;
        let has_next = k_tile + 1 < k_tiles;
        if has_next {
            let next = tile_sources(shape, tile.block_row, tile.block_col, k_tile + 1, thread_id);
            steps.push(ThreadStep::Load { stage: buffer.writable(), sources: next });
            steps.push(ThreadStep::Commit);
        }
        let stage: usize = buffer.current();
        steps.push(ThreadStep::Multiply { stage, a_tile, b_tile, k_offset: 0 });
        steps.push(ThreadStep::Multiply { stage, a_tile, b_tile, k_offset: K_STEP });
        if has_next {
            steps.push(ThreadStep::Wait);
            buffer.advance();
        }
        assert(steps@ =~= sofar + shape.k_steps(tile, thread, k_tile as int));
        k_tile = k_tile + 1;
    }
    let ghost before_writes = steps@;
    let mut register: usize = 0;
    assert(steps@ =~= before_writes + shape.writes_upto(batches, tile, thread, 0));
    while register < 4
        invariant
            shape.wf(),
            batches.wf(shape),
            tile.batch < batches.batch_count,
            tile.block_row < shape.block_rows(),
            tile.block_col < shape.block_cols(),
            thread_id < 128,
            thread == thread_id,
            register <= 4,
            steps@ == before_writes + shape.writes_upto(batches, tile, thread, register as int),
        decreases 4 - register,
    {
        write_register(shape, batches, tile, thread_id, register, &mut steps);
        assert(steps@ =~= before_writes + shape.writes_upto(batches, tile, thread, register + 1));
        register = register + 1;
    }
    Some(ThreadProgram { tile, a_base, b_base, steps })
}

/// The product of two matrices that follow their shapes without gaps.
pub fn matrix_multiply_device(
    inner: usize,
    rows: usize,
    cols: usize,
    global_block_id: usize,
    thread_id: usize,
) -> (r: Option<ThreadProgram>)
    requires
        contiguous_shape(inner, rows, cols).wf(),
        contiguous_batch(cols).wf(contiguous_shape(inner, rows, cols)),
        contiguous_shape(inner, rows, cols).block_rows() * contiguous_shape(
            inner,
            rows,
            cols,
        ).block_cols() <= usize::MAX,
        thread_id < 128,
    ensures
        r is Some <==> global_block_id < contiguous_shape(inner, rows, cols).block_rows()
            * contiguous_shape(inner, rows, cols).block_cols(),
        r matches Some(program) ==> {
            &&& program.tile.batch == 0
            &&& global_block_id == program.tile.block_row * contiguous_shape(
                inner,
                rows,
                cols,
            ).block_cols() + program.tile.block_col
            &&& program.a_base == 0
            &&& program.b_base == 0
            &&& program.steps@ == contiguous_shape(inner, rows, cols).program(
                contiguous_batch(cols),
                program.tile,
                thread_id as int,
            )
        },
{
    matrix_multiply_strided_device(
        ProductShape { inner, rows, cols, a_row_stride: inner, b_row_stride: cols },
        0,
        0,
        0,
        cols,
        global_block_id,
        thread_id,
    )
}

/// One product of matrices that lie anywhere in their buffers.
pub fn matrix_multiply_strided_device(
    shape: ProductShape,
    a_offset: usize,
    b_offset: usize,
    result_offset: usize,
    result_row_stride: usize,
    global_block_id: usize,
    thread_id: usize,
) -> (r: Option<ThreadProgram>)
    requires
        shape.wf(),
        single_batch(a_offset, b_offset, result_offset, result_row_stride).wf(shape),
        shape.block_rows() * shape.block_cols() <= usize::MAX,
        thread_id < 128,
    ensures
        r is Some <==> global_block_id < shape.block_rows() * shape.block_cols(),
        r matches Some(program) ==> {
            &&& program.tile.batch == 0
            &&& program.tile.block_row < shape.block_rows()
            &&& program.tile.block_col < shape.block_cols()
            &&& global_block_id == program.tile.block_row * shape.block_cols()
                + program.tile.block_col
            &&& program.a_base == a_offset
            &&& program.b_base == b_offset
            &&& program.steps@ == shape.program(
                single_batch(a_offset, b_offset, result_offset, result_row_stride),
                program.tile,
                thread_id as int,
            )
        },
{
    matrix_multiply_batched_strided_device(
        shape,
        BatchShape {
            batch_count: 1,
            a_offset,
            a_batch_stride: 0,
            b_offset,
            b_batch_stride: 0,
            result_offset,
            result_row_stride,
            result_batch_stride: 0,
        },
        global_block_id,
        thread_id,
    )
}

/// A single product.
pub open spec fn single_batch(
    a_offset: usize,
    b_offset: usize,
    result_offset: usize,
    result_row_stride: usize,
) -> BatchShape {
    BatchShape {
        batch_count: 1,
        a_offset,
        a_batch_stride: 0,
        b_offset,
        b_batch_stride: 0,
        result_offset,
        result_row_stride,
        result_batch_stride: 0,
    }
}

/// Operands that follow their shapes without gaps.
pub open spec fn contiguous_shape(inner: usize, rows: usize, cols: usize) -> ProductShape {
    ProductShape { inner, rows, cols, a_row_stride: inner, b_row_stride: cols }
}

/// A single product at the beginning of its buffers.
pub open spec fn contiguous_batch(cols: usize) -> BatchShape {
    single_batch(0, 0, 0, cols)
}

/// A stage is multiplied from only after the block has waited for the copies
/// that filled it, and while it is, copies go to the other stage.
pub proof fn law_stages_are_filled_before_they_are_read(
    shape: ProductShape,
    tile: BlockTile,
    thread: int,
    k_tile: int,
)
    requires
        0 < k_tile < shape.k_tiles(),
    ensures
        shape.k_steps(tile, thread, k_tile - 1)[0] == shape.load_step(tile, thread, k_tile),
        shape.k_steps(tile, thread, k_tile - 1).last() is Wait,
        shape.k_steps(tile, thread, k_tile - 1)[0]->Load_stage == (k_tile % 2) as usize,
        forall|i: int|
            0 <= i < shape.k_steps(tile, thread, k_tile).len() ==> {
                &&& #[trigger] shape.k_steps(tile, thread, k_tile)[i] is Multiply
                    ==> shape.k_steps(tile, thread, k_tile)[i]->Multiply_stage == (k_tile % 2) as usize
                &&& shape.k_steps(tile, thread, k_tile)[i] is Load ==> shape.k_steps(
                    tile,
                    thread,
                    k_tile,
                )[i]->Load_stage != (k_tile % 2) as usize
            },
{
    assert((k_tile + 1) % 2 != k_tile % 2);
}

/// Every element of the result is the inner product of its row and its column:
/// the `k`-th product that is added to the register which makes it takes
/// element `k` of that row and of that column, and products past the common
/// dimension are of zeros.
#[verifier::spinoff_prover]
#[verifier::rlimit(60)]
pub proof fn law_registers_hold_inner_products<T>(
    shape: ProductShape,
    a: spec_fn(int) -> T,
    b: spec_fn(int) -> T,
    zero: T,
    block_row: int,
    block_col: int,
    warp: int,
    lane: int,
    register: int,
    right: bool,
    k: int,
)
    requires
        shape.wf(),
        0 <= block_row < shape.block_rows(),
        0 <= block_col < shape.block_cols(),
        0 <= warp < 4,
        0 <= lane < 32,
        0 <= register < 4,
        0 <= k < 16 * shape.k_tiles(),
        output_row(block_row, warp, lane, register) < shape.rows,
        output_col(block_col, warp, lane, register, right) < shape.cols,
    ensures
        staged_a(
            shape,
            a,
            zero,
            block_row,
            block_col,
            k / 16,
            warp / 2,
            output_row(block_row, warp, lane, register) % 16,
            k % 16,
        ) == if k < shape.inner {
            a(output_row(block_row, warp, lane, register) * shape.a_row_stride + k)
        } else {
            zero
        },
        staged_b(
            shape,
            b,
            zero,
            block_row,
            block_col,
            k / 16,
            warp % 2,
            k % 16,
            output_col(block_col, warp, lane, register, right) % 16,
        ) == if k < shape.inner {
            b(k * shape.b_row_stride + output_col(block_col, warp, lane, register, right))
        } else {
            zero
        },
{
    let row = output_row(block_row, warp, lane, register);
    let col = output_col(block_col, warp, lane, register, right);
    let r = lane / 4 + 8 * (register / 2);
    let c = (lane % 4) * 2 + register % 2 + if right {
        8int
    } else {
        0
    };
    assert(0 <= r < 16 && 0 <= c < 16);
    lemma_row_col(block_row * 2 + warp / 2, r, 16);
    lemma_row_col(block_col * 2 + warp % 2, c, 16);
    assert(row == (block_row * 2 + warp / 2) * 16 + r && row % 16 == r);
    assert(col == (block_col * 2 + warp % 2) * 16 + c && col % 16 == c);
    assert(0 <= k / 16 < shape.k_tiles() && k == (k / 16) * 16 + k % 16);
    law_stages_hold_the_tiles(
        shape,
        a,
        b,
        zero,
        block_row,
        block_col,
        k / 16,
        warp / 2,
        r,
        k % 16,
    );
    law_stages_hold_the_tiles(
        shape,
        a,
        b,
        zero,
        block_row,
        block_col,
        k / 16,
        warp % 2,
        k % 16,
        c,
    );
}

} // verus!
