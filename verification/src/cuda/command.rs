//! What the library asks a driver to do, in order.

use vstd::prelude::*;

use super::ops::{BinaryFn, InitFn, MapFn, RowFn};
use super::scalar::F32;

verus! {

/// A stream of device work. Zero is the runtime's primary stream.
#[derive(Clone, Copy, Debug, PartialEq, Eq, Structural)]
pub struct Stream {
    pub id: usize,
}

/// A contiguous range of a device buffer, in elements.
#[derive(Clone, Copy, Debug, PartialEq, Eq, Structural)]
pub struct DeviceSliceDescriptor {
    pub buffer: usize,
    pub offset: usize,
    pub len: usize,
}

/// Equally shaped matrices at regular distances inside one buffer.
#[derive(Clone, Copy, Debug, PartialEq, Eq, Structural)]
pub struct MatrixBatchDescriptor {
    pub buffer: usize,
    pub offset: usize,
    /// Elements from the offset to the end of the buffer.
    pub len: usize,
    pub rows: usize,
    pub cols: usize,
    pub row_stride: usize,
    pub batch_stride: usize,
    pub batches: usize,
}

impl MatrixBatchDescriptor {
    /// Position of an element inside the buffer.
    pub open spec fn at(self, batch: int, row: int, col: int) -> int {
        self.offset + batch * self.batch_stride + row * self.row_stride + col
    }

    /// Whether the indices name an element of the batch.
    pub open spec fn contains(self, batch: int, row: int, col: int) -> bool {
        0 <= batch < self.batches && 0 <= row < self.rows && 0 <= col < self.cols
    }

    /// No two elements share a position.
    pub open spec fn disjoint(self) -> bool {
        forall|b1: int, r1: int, c1: int, b2: int, r2: int, c2: int|
            #![trigger self.at(b1, r1, c1), self.at(b2, r2, c2)]
            self.contains(b1, r1, c1) && self.contains(b2, r2, c2) && self.at(b1, r1, c1)
                == self.at(b2, r2, c2) ==> b1 == b2 && r1 == r2 && c1 == c2
    }
}

/// Grid and block of a launch, with the dynamic shared memory it needs.
#[derive(Clone, Copy, Debug, PartialEq, Eq, Structural)]
pub struct LaunchConfig {
    pub grid_x: u32,
    pub grid_y: u32,
    pub block_x: u32,
    pub block_y: u32,
    pub shared_bytes: u32,
}

impl LaunchConfig {
    /// A one-dimensional launch.
    pub open spec fn line(grid: int, block: int, shared_bytes: int) -> LaunchConfig {
        LaunchConfig {
            grid_x: grid as u32,
            grid_y: 1,
            block_x: block as u32,
            block_y: 1,
            shared_bytes: shared_bytes as u32,
        }
    }

    /// A two-dimensional launch without dynamic shared memory.
    pub open spec fn plane(grid_x: int, grid_y: int, block_x: int, block_y: int) -> LaunchConfig {
        LaunchConfig {
            grid_x: grid_x as u32,
            grid_y: grid_y as u32,
            block_x: block_x as u32,
            block_y: block_y as u32,
            shared_bytes: 0,
        }
    }

    /// Builds a one-dimensional launch.
    pub fn new_1d(grid: u32, block: u32, shared_bytes: u32) -> (r: LaunchConfig)
        ensures
            r == LaunchConfig::line(grid as int, block as int, shared_bytes as int),
    {
        LaunchConfig { grid_x: grid, grid_y: 1, block_x: block, block_y: 1, shared_bytes }
    }

    /// Builds a two-dimensional launch.
    pub fn new_2d(grid_x: u32, grid_y: u32, block_x: u32, block_y: u32) -> (r: LaunchConfig)
        ensures
            r == LaunchConfig::plane(grid_x as int, grid_y as int, block_x as int, block_y as int),
    {
        LaunchConfig { grid_x, grid_y, block_x, block_y, shared_bytes: 0 }
    }
}

/// A kernel with its arguments.
#[allow(inconsistent_fields)]
#[derive(Debug, PartialEq, Eq)]
pub enum Kernel {
    SpanSet { target: DeviceSliceDescriptor, elements_per_thread: usize, f: InitFn },
    SliceForEach { target: DeviceSliceDescriptor, elements_per_thread: usize, f: MapFn },
    SliceBinary {
        lhs: DeviceSliceDescriptor,
        rhs: DeviceSliceDescriptor,
        output: DeviceSliceDescriptor,
        elements_per_thread: usize,
        f: BinaryFn,
    },
    SliceBinaryAssign {
        target: DeviceSliceDescriptor,
        rhs: DeviceSliceDescriptor,
        elements_per_thread: usize,
        f: BinaryFn,
    },
    BinaryAssignByRows {
        matrix: DeviceSliceDescriptor,
        row: DeviceSliceDescriptor,
        cols: usize,
        f: BinaryFn,
    },
    MapReduce {
        source: DeviceSliceDescriptor,
        result: DeviceSliceDescriptor,
        elements_per_thread: usize,
        map: MapFn,
        reduce: BinaryFn,
        identity: F32,
    },
    ZipMapReduce {
        lhs: DeviceSliceDescriptor,
        rhs: DeviceSliceDescriptor,
        result: DeviceSliceDescriptor,
        elements_per_thread: usize,
        map: BinaryFn,
        reduce: BinaryFn,
        identity: F32,
    },
    SumRows {
        matrix: DeviceSliceDescriptor,
        result: DeviceSliceDescriptor,
        cols: usize,
        elements_per_thread: usize,
    },
    RowAssign { matrix: DeviceSliceDescriptor, cols: usize, f: RowFn },
    RowGradient {
        input: DeviceSliceDescriptor,
        gradient: DeviceSliceDescriptor,
        result: DeviceSliceDescriptor,
        cols: usize,
        f: RowFn,
    },
    Multiply {
        lhs: DeviceSliceDescriptor,
        rhs: DeviceSliceDescriptor,
        result: DeviceSliceDescriptor,
        inner: usize,
        rows: usize,
        cols: usize,
    },
    MultiplyBatched {
        lhs: MatrixBatchDescriptor,
        rhs: MatrixBatchDescriptor,
        result: MatrixBatchDescriptor,
    },
    Transpose {
        input: DeviceSliceDescriptor,
        output: DeviceSliceDescriptor,
        rows: usize,
        cols: usize,
    },
    TransposeBatches {
        input: DeviceSliceDescriptor,
        output: DeviceSliceDescriptor,
        rows: usize,
        cols: usize,
        batches: usize,
    },
    CompareVectors {
        lhs: DeviceSliceDescriptor,
        rhs: DeviceSliceDescriptor,
        elements_per_thread: usize,
        result: DeviceSliceDescriptor,
    },
}

/// One step of device work.
#[derive(Debug, PartialEq, Eq)]
pub enum Command {
    /// Allocates an uninitialised buffer on the primary stream.
    Allocate { buffer: usize, len: usize },
    /// Frees a buffer that nothing uses any more.
    Free { buffer: usize },
    /// Fills a buffer with zeros.
    Zero { buffer: usize, stream: Stream },
    /// Replaces a buffer's contents by the given bit patterns.
    Upload { buffer: usize, values: Vec<F32>, stream: Stream },
    /// Copies between ranges of equal length.
    Copy { source: DeviceSliceDescriptor, target: DeviceSliceDescriptor, stream: Stream },
    /// Makes `stream` wait for all work queued on `on`.
    Wait { stream: Stream, on: Stream },
    /// Creates a stream that starts after the work queued on the primary one.
    Fork { stream: Stream },
    /// Blocks the host until a stream is idle.
    Synchronize { stream: Stream },
    /// Brings a buffer's contents to the host. Downloads are numbered from zero.
    Download { buffer: usize, stream: Stream },
    /// Runs a kernel.
    Launch { kernel: Kernel, config: LaunchConfig, stream: Stream },
}

} // verus!
