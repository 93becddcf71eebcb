//! Where parameters stand in a checkpoint, and the values themselves.

use vstd::prelude::*;

use crate::cuda::scalar::F32;

verus! {

/// Bytes of one parameter value.
pub const SCALAR_BYTES: u64 = 4;

/// A matrix in a checkpoint.
#[derive(Clone, Copy, Debug, PartialEq, Eq, Structural)]
pub struct MatrixMetadata {
    pub rows: usize,
    pub cols: usize,
    pub byte_start: u64,
    pub byte_end: u64,
}

/// A vector in a checkpoint.
#[derive(Clone, Copy, Debug, PartialEq, Eq, Structural)]
pub struct VectorMetadata {
    pub len: usize,
    pub byte_start: u64,
    pub byte_end: u64,
}

/// Hands out consecutive byte ranges.
pub struct MetadataCursor {
    pub position: u64,
}

impl Default for MetadataCursor {
    fn default() -> (r: MetadataCursor)
        ensures
            r.position == 0,
    {
        MetadataCursor { position: 0 }
    }
}

/// A byte range for this many values, starting here.
pub open spec fn range_holds(start: int, end: int, elements: int) -> bool {
    end == start + elements * SCALAR_BYTES
}

impl MetadataCursor {
    /// A cursor at the beginning.
    pub fn new() -> (r: MetadataCursor)
        ensures
            r.position == 0,
    {
        MetadataCursor::default()
    }

    /// Reserves the next range for a matrix.
    pub fn matrix(&mut self, rows: usize, cols: usize) -> (r: MatrixMetadata)
        requires
            rows * cols <= usize::MAX,
            old(self).position + rows * cols * SCALAR_BYTES <= u64::MAX,
        ensures
            r.rows == rows,
            r.cols == cols,
            r.byte_start == old(self).position,
            r.byte_end == final(self).position,
            range_holds(r.byte_start as int, r.byte_end as int, rows * cols),
    {
        let elements: usize = rows * cols;
        let (byte_start, byte_end): (u64, u64) = self.reserve(elements);
        MatrixMetadata { rows, cols, byte_start, byte_end }
    }

    /// Reserves the next range for a vector.
    pub fn vector(&mut self, len: usize) -> (r: VectorMetadata)
        requires
            old(self).position + len * SCALAR_BYTES <= u64::MAX,
        ensures
            r.len == len,
            r.byte_start == old(self).position,
            r.byte_end == final(self).position,
            range_holds(r.byte_start as int, r.byte_end as int, len as int),
    {
        let (byte_start, byte_end): (u64, u64) = self.reserve(len);
        VectorMetadata { len, byte_start, byte_end }
    }

    /// Bytes reserved so far.
    pub fn data_bytes(&self) -> (r: u64)
        ensures
            r == self.position,
    {
        self.position
    }

    /// Reserves the next range for this many values.
    fn reserve(&mut self, elements: usize) -> (r: (u64, u64))
        requires
            old(self).position + elements * SCALAR_BYTES <= u64::MAX,
        ensures
            r.0 == old(self).position,
            r.1 == final(self).position,
            range_holds(r.0 as int, r.1 as int, elements as int),
    {
        let byte_start: u64 = self.position;
        self.position = byte_start + elements as u64 * SCALAR_BYTES;
        (byte_start, self.position)
    }
}

/// The values of one parameter on the host.
#[derive(Debug, PartialEq, Eq)]
pub struct HostData {
    pub values: Vec<F32>,
}

impl HostData {
    pub fn new(values: Vec<F32>) -> (r: HostData)
        ensures
            r.values == values,
    {
        HostData { values }
    }

    pub fn values(&self) -> (r: &Vec<F32>)
        ensures
            *r == self.values,
    {
        &self.values
    }

    pub fn into_values(self) -> (r: Vec<F32>)
        ensures
            r == self.values,
    {
        self.values
    }
}

/// A parameter on its way to the host: the number of its download and how many
/// values that brings.
#[derive(Clone, Copy, Debug, PartialEq, Eq, Structural)]
pub struct HostRead {
    pub download: usize,
    pub len: usize,
}

/// Sequential parameter source used while restoring a node or a whole graph.
pub struct HostDataCursor {
    pub data: Vec<HostData>,
    pub consumed: usize,
}

impl HostDataCursor {
    /// The counts of what was taken and of what is left add up to a length.
    pub open spec fn wf(self) -> bool {
        self.consumed + self.data@.len() <= usize::MAX
    }

    pub fn new(data: Vec<HostData>) -> (r: HostDataCursor)
        ensures
            r.wf(),
            r.data == data,
            r.consumed == 0,
    {
        proof {
            assert(data.len() <= usize::MAX);
        }
        HostDataCursor { data, consumed: 0 }
    }

    /// Takes the next parameter.
    pub fn take(&mut self) -> (r: HostData)
        requires
            old(self).wf(),
            old(self).data@.len() > 0,
        ensures
            final(self).wf(),
            r == old(self).data@[0],
            final(self).data@ == old(self).data@.drop_first(),
            final(self).consumed == old(self).consumed + 1,
    {
        let ghost all = self.data@;
        let value = self.data.remove(0);
        self.consumed = self.consumed + 1;
        assert(self.data@ =~= all.drop_first());
        value
    }

    /// How many parameters were taken.
    pub fn consumed(&self) -> (r: usize)
        ensures
            r == self.consumed,
    {
        self.consumed
    }

    /// How many parameters are left.
    pub fn remaining(&self) -> (r: usize)
        ensures
            r == self.data@.len(),
    {
        self.data.len()
    }

    /// Ends the restoring; nothing may be left.
    pub fn finish(self)
        requires
            self.data@.len() == 0,
    {
    }
}

/// Taking parameters one by one gives them in order, and what was taken and
/// what is left make up the source.
pub proof fn law_values_come_in_order(data: Seq<HostData>, taken: int)
    requires
        0 <= taken < data.len(),
    ensures
        data.skip(taken)[0] == data[taken],
        data.skip(taken).drop_first() == data.skip(taken + 1),
        data.take(taken) + data.skip(taken) == data,
{
    assert(data.skip(taken).drop_first() =~= data.skip(taken + 1));
    assert(data.take(taken) + data.skip(taken) =~= data);
}

} // verus!
