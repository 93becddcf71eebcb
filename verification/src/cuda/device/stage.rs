//! Two stages of shared memory, one read while the other is filled.

use vstd::prelude::*;

verus! {

/// Which of two stages is read.
#[derive(Clone, Copy, Debug, PartialEq, Eq, Structural)]
pub struct DoubleBuffer {
    pub current: usize,
}

/// One asynchronous copy: `bytes` bytes at `offset`, of which the first
/// `readable` come from the source and the others are zero.
#[derive(Clone, Copy, Debug, PartialEq, Eq, Structural)]
pub struct CopyChunk {
    pub offset: usize,
    pub bytes: usize,
    pub readable: usize,
}

impl DoubleBuffer {
    pub open spec fn wf(self) -> bool {
        self.current < 2
    }

    /// The first stage is read first.
    pub fn initialize() -> (r: DoubleBuffer)
        ensures
            r.current == 0,
            r.wf(),
    {
        DoubleBuffer { current: 0 }
    }

    /// The stage that is read.
    pub fn current(&self) -> (r: usize)
        ensures
            r == self.current,
    {
        self.current
    }

    /// The other stage, which may be filled.
    pub fn writable(&self) -> (r: usize)
        requires
            self.wf(),
        ensures
            r == 1 - self.current,
            r != self.current,
    {
        1 - self.current
    }

    /// Makes the filled stage the one that is read.
    pub fn advance(&mut self)
        requires
            old(self).wf(),
        ensures
            final(self).wf(),
            final(self).current == 1 - old(self).current,
    {
        self.current = 1 - self.current;
    }
}

/// The size of the copy that comes next: as large as possible.
pub open spec fn chunk_bytes(remaining: int) -> int {
    if remaining >= 16 {
        16
    } else if remaining >= 8 {
        8
    } else {
        4
    }
}

/// How much of a range is inside the first `valid` bytes.
pub open spec fn readable_bytes(valid: int, offset: int, bytes: int) -> int {
    if valid <= offset {
        0
    } else if valid - offset < bytes {
        valid - offset
    } else {
        bytes
    }
}

/// Whether copies lie one after the other from the beginning to `end`, each as
/// large as possible and reading no further than `valid`.
pub open spec fn chunks_cover(chunks: Seq<CopyChunk>, total: int, valid: int, end: int) -> bool {
    &&& chunks.len() == 0 ==> end == 0
    &&& chunks.len() > 0 ==> chunks[0].offset == 0 && chunks.last().offset + chunks.last().bytes
        == end
    &&& forall|k: int|
        #![trigger chunks[k]]
        0 <= k < chunks.len() ==> chunks[k].bytes == chunk_bytes(total - chunks[k].offset)
            && chunks[k].readable == readable_bytes(
            valid,
            chunks[k].offset as int,
            chunks[k].bytes as int,
        )
    &&& forall|k: int|
        #![trigger chunks[k]]
        0 < k < chunks.len() ==> chunks[k].offset == chunks[k - 1].offset + chunks[k - 1].bytes
}

/// How `count` elements are copied of which only some are there: by copies of
/// sixteen, eight and four bytes that fill up with zeros.
pub fn copy_to(element_size: usize, valid_elements: usize, count: usize) -> (r: Vec<CopyChunk>)
    requires
        count * element_size <= usize::MAX,
        count * element_size >= 4,
        (count * element_size) % 4 == 0,
    ensures
        chunks_cover(
            r@,
            count * element_size,
            (if valid_elements < count {
                valid_elements
            } else {
                count
            }) * element_size,
            count * element_size,
        ),
{
    let total_bytes: usize = count * element_size;
    let valid_count: usize = if valid_elements < count {
        valid_elements
    } else {
        count
    };
    proof {
        assert(valid_count * element_size <= count * element_size) by (nonlinear_arith)
            requires
                valid_count <= count,
        ;
    }
    let valid_bytes: usize = valid_count * element_size;
    let mut chunks: Vec<CopyChunk> = Vec::new();
    let mut byte_offset: usize = 0;
    while byte_offset < total_bytes
        invariant
            byte_offset <= total_bytes,
            total_bytes % 4 == 0,
            byte_offset % 4 == 0,
            valid_bytes <= total_bytes,
            chunks_cover(
                chunks@,
                total_bytes as int,
                valid_bytes as int,
                byte_offset as int,
            ),
        decreases total_bytes - byte_offset,
    {
        let remaining: usize = total_bytes - byte_offset;
        let copy_bytes: usize = if remaining >= 16 {
            16
        } else if remaining >= 8 {
            8
        } else {
            4
        };
        let readable: usize = if valid_bytes <= byte_offset {
            0
        } else if valid_bytes - byte_offset < copy_bytes {
            valid_bytes - byte_offset
        } else {
            copy_bytes
        };
        let ghost sofar = chunks@;
        chunks.push(CopyChunk { offset: byte_offset, bytes: copy_bytes, readable });
        proof {
            let now = chunks@;
            assert forall|k: int| #![trigger now[k]] 0 <= k < now.len() implies now[k].bytes
                == chunk_bytes(total_bytes - now[k].offset) && now[k].readable == readable_bytes(
                valid_bytes as int,
                now[k].offset as int,
                now[k].bytes as int,
            ) by {
                if k < sofar.len() {
                    assert(now[k] == sofar[k]);
                }
            }
            assert forall|k: int| #![trigger now[k]] 0 < k < now.len() implies now[k].offset == now[k
                - 1].offset + now[k - 1].bytes by {
                assert(now[k - 1] == sofar[k - 1]);
                if k < sofar.len() {
                    assert(now[k] == sofar[k]);
                }
            }
        }
        byte_offset = byte_offset + copy_bytes;
    }
    chunks
}

/// Every byte is written by exactly one copy, and no copy reads beyond the valid
/// bytes.
pub proof fn law_copies_tile_the_bytes(
    chunks: Seq<CopyChunk>,
    total: int,
    valid: int,
    byte: int,
)
    requires
        chunks_cover(chunks, total, valid, total),
        0 <= byte < total,
        0 <= valid,
    ensures
        exists|k: int|
            0 <= k < chunks.len() && (#[trigger] chunks[k]).offset <= byte < chunks[k].offset
                + chunks[k].bytes,
        forall|j: int, k: int|
            #![trigger chunks[j], chunks[k]]
            0 <= j < chunks.len() && 0 <= k < chunks.len() && chunks[j].offset <= byte
                < chunks[j].offset + chunks[j].bytes && chunks[k].offset <= byte < chunks[k].offset
                + chunks[k].bytes ==> j == k,
        forall|k: int|
            0 <= k < chunks.len() ==> (#[trigger] chunks[k]).readable == 0 || chunks[k].offset
                + chunks[k].readable <= valid,
{
    assert(chunks.len() > 0);
    assert forall|j: int, k: int|
        #![trigger chunks[j], chunks[k]]
        0 <= j < k < chunks.len() implies chunks[j].offset + chunks[j].bytes <= chunks[k].offset by {
        lemma_chunks_ascend(chunks, total, valid, j, k);
    }
    lemma_chunk_at(chunks, total, valid, byte, chunks.len() - 1);
}

proof fn lemma_chunks_ascend(chunks: Seq<CopyChunk>, total: int, valid: int, j: int, k: int)
    requires
        chunks_cover(chunks, total, valid, total),
        0 <= j < k < chunks.len(),
    ensures
        chunks[j].offset + chunks[j].bytes <= chunks[k].offset,
    decreases k - j,
{
    if j + 1 < k {
        lemma_chunks_ascend(chunks, total, valid, j, k - 1);
        assert(chunks[k - 1].bytes == chunk_bytes(total - chunks[k - 1].offset));
    }
    assert(chunks[k].offset == chunks[k - 1].offset + chunks[k - 1].bytes);
}

/// A byte before the end of a copy is in that copy or in one before it.
proof fn lemma_chunk_at(chunks: Seq<CopyChunk>, total: int, valid: int, byte: int, last: int)
    requires
        chunks_cover(chunks, total, valid, total),
        0 <= last < chunks.len(),
        0 <= byte < chunks[last].offset + chunks[last].bytes,
    ensures
        exists|k: int|
            0 <= k < chunks.len() && (#[trigger] chunks[k]).offset <= byte < chunks[k].offset
                + chunks[k].bytes,
    decreases last,
{
    if byte < chunks[last].offset {
        assert(last > 0);
        assert(chunks[last].offset == chunks[last - 1].offset + chunks[last - 1].bytes);
        lemma_chunk_at(chunks, total, valid, byte, last - 1);
    }
}

} // verus!
