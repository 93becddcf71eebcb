//! Where a thread stands in a launch.

use vstd::prelude::*;

use crate::cuda::arith::lemma_row_col;

verus! {

/// Threads of a warp.
pub const WARP_SIZE: usize = 32;

/// Three sizes or three coordinates; `x` moves fastest.
#[derive(Clone, Copy, Debug, PartialEq, Eq, Structural)]
pub struct Dim3 {
    pub x: u32,
    pub y: u32,
    pub z: u32,
}

/// A thread in a launch: the shape of grid and block, and the coordinates of
/// the block in the grid and of the thread in the block.
#[derive(Clone, Copy, Debug, PartialEq, Eq, Structural)]
pub struct ThreadPlace {
    pub grid: Dim3,
    pub block: Dim3,
    pub block_at: Dim3,
    pub thread_at: Dim3,
}

impl Dim3 {
    /// How many cells there are.
    pub open spec fn volume(self) -> int {
        self.x * self.y * self.z
    }

    /// Whether coordinates lie inside these sizes.
    pub open spec fn contains(self, at: Dim3) -> bool {
        at.x < self.x && at.y < self.y && at.z < self.z
    }

    /// The linear index of coordinates inside these sizes.
    pub open spec fn linear(self, at: Dim3) -> int {
        at.x + self.x * (at.y + self.y * at.z)
    }
}

/// Coordinates inside sizes have a linear index below the volume, and no two
/// have the same.
pub proof fn law_linear_is_a_numbering(size: Dim3, a: Dim3, b: Dim3)
    requires
        size.contains(a),
        size.contains(b),
    ensures
        0 <= size.linear(a) < size.volume(),
        size.linear(a) == size.linear(b) ==> a == b,
{
    let sx = size.x as int;
    let sy = size.y as int;
    let sz = size.z as int;
    let ra = a.y + sy * a.z;
    let rb = b.y + sy * b.z;
    assert(0 <= ra < sy * sz) by (nonlinear_arith)
        requires
            ra == a.y + sy * a.z,
            0 <= a.y < sy,
            0 <= a.z < sz,
    ;
    assert(0 <= a.x + sx * ra < sx * sy * sz) by (nonlinear_arith)
        requires
            0 <= a.x < sx,
            0 <= ra < sy * sz,
    ;
    if size.linear(a) == size.linear(b) {
        assert(sx * ra == ra * sx && sx * rb == rb * sx) by (nonlinear_arith);
        lemma_row_col(ra, a.x as int, sx);
        lemma_row_col(rb, b.x as int, sx);
        assert(sy * a.z == a.z * sy && sy * b.z == b.z * sy) by (nonlinear_arith);
        lemma_row_col(a.z as int, a.y as int, sy);
        lemma_row_col(b.z as int, b.y as int, sy);
    }
}

/// The linear index of coordinates.
fn linear_index(size: Dim3, at: Dim3) -> (r: usize)
    requires
        size.contains(at),
        size.volume() <= usize::MAX,
    ensures
        r == size.linear(at),
{
    proof {
        let sx = size.x as int;
        let sy = size.y as int;
        let sz = size.z as int;
        law_linear_is_a_numbering(size, at, at);
        let inner = sy * at.z;
        let row = at.y + inner;
        assert(0 <= inner <= row) by (nonlinear_arith)
            requires
                inner == sy * at.z,
                row == at.y + inner,
                0 <= sy,
        ;
        assert(row <= sx * row) by (nonlinear_arith)
            requires
                sx >= 1,
                row >= 0,
        ;
    }
    at.x as usize + size.x as usize * (at.y as usize + size.y as usize * at.z as usize)
}

/// How many cells sizes have.
fn volume_of(size: Dim3) -> (r: usize)
    requires
        size.volume() <= usize::MAX,
        size.z > 0,
    ensures
        r == size.volume(),
{
    proof {
        let plane = size.x * size.y;
        assert(0 <= plane <= plane * size.z) by (nonlinear_arith)
            requires
                size.z >= 1,
                plane == size.x * size.y,
        ;
    }
    size.x as usize * size.y as usize * size.z as usize
}

impl ThreadPlace {
    /// The coordinates lie inside grid and block, and every index of the launch
    /// is representable.
    pub open spec fn wf(self) -> bool {
        &&& self.grid.contains(self.block_at)
        &&& self.block.contains(self.thread_at)
        &&& self.grid.volume() * self.block.volume() <= usize::MAX
    }

    /// The same launch.
    pub open spec fn shares_launch(self, other: ThreadPlace) -> bool {
        self.grid == other.grid && self.block == other.block
    }

    /// The linear index of the thread in its block.
    pub open spec fn thread_id(self) -> int {
        self.block.linear(self.thread_at)
    }

    /// The linear index of the block in the grid.
    pub open spec fn block_id(self) -> int {
        self.grid.linear(self.block_at)
    }

    /// The warps that a block needs; the last may be partial.
    pub open spec fn warps_per_block(self) -> int {
        (self.block.volume() + 31) / 32
    }

    /// The linear index of the thread in the launch.
    pub open spec fn global_thread_id(self) -> int {
        self.block_id() * self.block.volume() + self.thread_id()
    }

    /// The linear index of the warp in the launch.
    pub open spec fn global_warp_id(self) -> int {
        self.block_id() * self.warps_per_block() + self.thread_id() / 32
    }

    /// Grid and block volumes of a launch, and the indices in it, are
    /// representable.
    proof fn lemma_bounds(self)
        requires
            self.wf(),
        ensures
            1 <= self.grid.volume() <= usize::MAX,
            1 <= self.block.volume() <= usize::MAX,
            0 <= self.thread_id() < self.block.volume(),
            0 <= self.block_id() < self.grid.volume(),
            0 <= self.block_id() * self.block.volume(),
            self.global_thread_id() < self.grid.volume() * self.block.volume(),
            1 <= self.warps_per_block() <= self.block.volume(),
            0 <= self.block_id() * self.warps_per_block(),
            self.global_warp_id() < self.grid.volume() * self.block.volume(),
            self.thread_id() / 32 < self.warps_per_block(),
            self.block.x * self.grid.x <= usize::MAX,
            self.block_at.x * self.block.x + self.thread_at.x <= usize::MAX,
            self.block_at.y * self.block.y + self.thread_at.y <= usize::MAX,
    {
        law_linear_is_a_numbering(self.grid, self.block_at, self.block_at);
        law_linear_is_a_numbering(self.block, self.thread_at, self.thread_at);
        let g = self.grid.volume();
        let b = self.block.volume();
        let bid = self.block_id();
        let tid = self.thread_id();
        let w = self.warps_per_block();
        assert(g <= g * b && b <= g * b) by (nonlinear_arith)
            requires
                g >= 1,
                b >= 1,
        ;
        assert(0 <= bid * b && bid * b + tid < g * b) by (nonlinear_arith)
            requires
                0 <= bid < g,
                0 <= tid < b,
        ;
        assert(0 <= bid * w && bid * w + w <= g * w && g * w <= g * b) by (nonlinear_arith)
            requires
                0 <= bid < g,
                0 <= w <= b,
        ;
        let gx = self.grid.x as int;
        let bx = self.block.x as int;
        let gy = self.grid.y as int;
        let by = self.block.y as int;
        assert(gx <= g && gy <= g) by (nonlinear_arith)
            requires
                g == gx * gy * self.grid.z,
                gx >= 1,
                gy >= 1,
                self.grid.z >= 1,
        ;
        assert(bx <= b && by <= b) by (nonlinear_arith)
            requires
                b == bx * by * self.block.z,
                bx >= 1,
                by >= 1,
                self.block.z >= 1,
        ;
        assert(bx * gx <= g * b && by * gy <= g * b) by (nonlinear_arith)
            requires
                1 <= gx <= g,
                1 <= bx <= b,
                1 <= gy <= g,
                1 <= by <= b,
        ;
        assert(self.block_at.x * bx + self.thread_at.x < bx * gx) by (nonlinear_arith)
            requires
                0 <= self.block_at.x < gx,
                0 <= self.thread_at.x < bx,
        ;
        assert(self.block_at.y * by + self.thread_at.y < by * gy) by (nonlinear_arith)
            requires
                0 <= self.block_at.y < gy,
                0 <= self.thread_at.y < by,
        ;
    }
}

/// No two threads of a launch have the same global index, and all indices are
/// below the number of threads.
pub proof fn law_global_thread_ids_are_unique(a: ThreadPlace, b: ThreadPlace)
    requires
        a.wf(),
        b.wf(),
        a.shares_launch(b),
    ensures
        0 <= a.global_thread_id() < a.grid.volume() * a.block.volume(),
        a.global_thread_id() == b.global_thread_id() ==> a == b,
{
    a.lemma_bounds();
    b.lemma_bounds();
    if a.global_thread_id() == b.global_thread_id() {
        let n = a.block.volume();
        lemma_row_col(a.block_id(), a.thread_id(), n);
        lemma_row_col(b.block_id(), b.thread_id(), n);
        law_linear_is_a_numbering(a.grid, a.block_at, b.block_at);
        law_linear_is_a_numbering(a.block, a.thread_at, b.thread_at);
    }
}

/// Two threads share a global warp index exactly if they are in one block and
/// in one group of 32 consecutive threads there: a partial warp at the end of a
/// block is never merged with the next block.
pub proof fn law_global_warps_stay_in_their_block(a: ThreadPlace, b: ThreadPlace)
    requires
        a.wf(),
        b.wf(),
        a.shares_launch(b),
    ensures
        a.global_warp_id() == b.global_warp_id() <==> a.block_at == b.block_at && a.thread_id() / 32
            == b.thread_id() / 32,
{
    a.lemma_bounds();
    b.lemma_bounds();
    if a.global_warp_id() == b.global_warp_id() {
        let n = a.warps_per_block();
        lemma_row_col(a.block_id(), a.thread_id() / 32, n);
        lemma_row_col(b.block_id(), b.thread_id() / 32, n);
        law_linear_is_a_numbering(a.grid, a.block_at, b.block_at);
    }
}

/// The warp's linear index within its block. Thread coordinates are first
/// linearized across all three block dimensions.
pub fn get_warp_id(place: ThreadPlace) -> (r: usize)
    requires
        place.wf(),
    ensures
        r == place.thread_id() / 32,
{
    proof {
        place.lemma_bounds();
    }
    linear_index(place.block, place.thread_at) / WARP_SIZE
}

/// The thread's position in its warp.
pub fn get_lane_id(place: ThreadPlace) -> (r: usize)
    requires
        place.wf(),
    ensures
        r == place.thread_id() % 32,
{
    proof {
        place.lemma_bounds();
    }
    linear_index(place.block, place.thread_at) % WARP_SIZE
}

/// The thread's linear index within its block for a 1D, 2D, or 3D block.
pub fn get_thread_id(place: ThreadPlace) -> (r: usize)
    requires
        place.wf(),
    ensures
        r == place.thread_id(),
{
    proof {
        place.lemma_bounds();
    }
    linear_index(place.block, place.thread_at)
}

/// The block's linear index within a 1D, 2D, or 3D grid.
pub fn get_block_id(place: ThreadPlace) -> (r: usize)
    requires
        place.wf(),
    ensures
        r == place.block_id(),
{
    proof {
        place.lemma_bounds();
    }
    linear_index(place.grid, place.block_at)
}

/// A unique linear thread index across the complete launch.
pub fn get_global_thread_id(place: ThreadPlace) -> (r: usize)
    requires
        place.wf(),
    ensures
        r == place.global_thread_id(),
{
    proof {
        place.lemma_bounds();
    }
    let thread_id: usize = linear_index(place.block, place.thread_at);
    let block_id: usize = linear_index(place.grid, place.block_at);
    let threads_per_block: usize = volume_of(place.block);
    block_id * threads_per_block + thread_id
}

/// A unique warp index across the complete launch. Partial tail warps remain
/// local to their block and are never merged with the following block.
pub fn get_global_warp_id(place: ThreadPlace) -> (r: usize)
    requires
        place.wf(),
        place.block.volume() + 31 <= usize::MAX,
    ensures
        r == place.global_warp_id(),
{
    proof {
        place.lemma_bounds();
    }
    let thread_id: usize = linear_index(place.block, place.thread_at);
    let block_id: usize = linear_index(place.grid, place.block_at);
    let threads_per_block: usize = volume_of(place.block);
    let warps_per_block: usize = (threads_per_block + 31) / WARP_SIZE;
    block_id * warps_per_block + thread_id / WARP_SIZE
}

pub fn get_thread_id_1d(place: ThreadPlace) -> (r: usize)
    ensures
        r == place.thread_at.x,
{
    place.thread_at.x as usize
}

pub fn get_block_id_1d(place: ThreadPlace) -> (r: usize)
    ensures
        r == place.block_at.x,
{
    place.block_at.x as usize
}

pub fn get_block_size_1d(place: ThreadPlace) -> (r: usize)
    ensures
        r == place.block.x,
{
    place.block.x as usize
}

pub fn get_grid_size_1d(place: ThreadPlace) -> (r: usize)
    ensures
        r == place.grid.x,
{
    place.grid.x as usize
}

/// The thread's index along a line of blocks.
pub fn get_global_id_1d(place: ThreadPlace) -> (r: usize)
    requires
        place.wf(),
    ensures
        r == place.block_at.x * place.block.x + place.thread_at.x,
{
    proof {
        place.lemma_bounds();
        assert(place.block_at.x * place.block.x >= 0) by (nonlinear_arith);
    }
    place.block_at.x as usize * place.block.x as usize + place.thread_at.x as usize
}

/// The threads of a line of blocks.
pub fn get_grid_stride_1d(place: ThreadPlace) -> (r: usize)
    requires
        place.wf(),
    ensures
        r == place.grid.x * place.block.x,
{
    proof {
        place.lemma_bounds();
        assert(place.grid.x * place.block.x == place.block.x * place.grid.x) by (nonlinear_arith);
    }
    place.grid.x as usize * place.block.x as usize
}

/// The row of a thread in a plane of blocks.
pub fn get_row_2d(place: ThreadPlace) -> (r: usize)
    requires
        place.wf(),
    ensures
        r == place.block_at.y * place.block.y + place.thread_at.y,
{
    proof {
        place.lemma_bounds();
        assert(place.block_at.y * place.block.y >= 0) by (nonlinear_arith);
    }
    place.block_at.y as usize * place.block.y as usize + place.thread_at.y as usize
}

/// The column of a thread in a plane of blocks.
pub fn get_col_2d(place: ThreadPlace) -> (r: usize)
    requires
        place.wf(),
    ensures
        r == place.block_at.x * place.block.x + place.thread_at.x,
{
    proof {
        place.lemma_bounds();
        assert(place.block_at.x * place.block.x >= 0) by (nonlinear_arith);
    }
    place.block_at.x as usize * place.block.x as usize + place.thread_at.x as usize
}

} // verus!
