//! Borrowed ranges of device buffers and the work done on them.

use core::marker::PhantomData;
use vstd::prelude::*;

use super::algebra::{apply, initial, joined, Term};
use super::arith::{ceil_div, div_ceil, lemma_ceil_div};
use super::command::{Command, DeviceSliceDescriptor, Kernel, LaunchConfig, MatrixBatchDescriptor, Stream};
use super::elementwise::{elementwise_config, elementwise_share};
use super::launch::{parts_of, spliced};
use super::ops::{BinaryFn, InitFn, MapFn};
use super::runtime::{addressable, chosen, CudaRuntime, DeviceBuffer, DEFAULT_BLOCK_SIZE};
use super::scalar::{Scalar, F32, NEGATIVE_INFINITY_BITS};

verus! {

broadcast use crate::cuda::runtime::group_streams;

impl DeviceSliceDescriptor {
    /// Number of elements.
    pub fn len(&self) -> (r: usize)
        ensures
            r == self.len,
    {
        self.len
    }

    /// A part of this range.
    pub fn slice(&self, offset: usize, len: usize) -> (r: DeviceSliceDescriptor)
        requires
            offset + len <= self.len,
            self.offset + self.len <= usize::MAX,
        ensures
            r == (DeviceSliceDescriptor {
                buffer: self.buffer,
                offset: (self.offset + offset) as usize,
                len,
            }),
    {
        DeviceSliceDescriptor { buffer: self.buffer, offset: self.offset + offset, len }
    }
}

/// Whether a range lies inside a buffer.
pub fn check_range(buffer_len: usize, offset: usize, len: usize) -> (r: bool)
    ensures
        r == (offset + len <= buffer_len),
{
    offset <= buffer_len && len <= buffer_len - offset
}

/// The address of an element.
pub fn offset_ptr(base: u64, offset: usize, element_bytes: usize) -> (r: u64)
    requires
        offset * element_bytes <= usize::MAX,
        base + offset * element_bytes <= u64::MAX,
    ensures
        r == base + offset * element_bytes,
{
    base + (offset * element_bytes) as u64
}

/// Cuts a range into chunks; the last one may be shorter. Each is given by its
/// offset and length.
pub fn split_spans(base: usize, len: usize, chunk_size: usize) -> (r: Vec<(usize, usize)>)
    requires
        chunk_size > 0,
        base + len <= usize::MAX,
    ensures
        r@.len() == ceil_div(len as int, chunk_size as int),
        forall|i: int|
            0 <= i < r@.len() ==> (#[trigger] r@[i]).0 == base + i * chunk_size && r@[i].1 == if (i
                + 1) * chunk_size <= len {
                chunk_size as int
            } else {
                len - i * chunk_size
            } && 0 < r@[i].1 && r@[i].0 + r@[i].1 <= base + len,
{
    let count: usize = div_ceil(len, chunk_size);
    let mut spans: Vec<(usize, usize)> = Vec::new();
    let mut index: usize = 0;
    proof {
        lemma_ceil_div(len as int, chunk_size as int);
    }
    while index < count
        invariant
            index <= count,
            count == ceil_div(len as int, chunk_size as int),
            len > 0 ==> (count - 1) * chunk_size < len,
            len == 0 ==> count == 0,
            chunk_size > 0,
            base + len <= usize::MAX,
            spans@.len() == index,
            forall|i: int|
                0 <= i < index ==> (#[trigger] spans@[i]).0 == base + i * chunk_size && spans@[i].1
                    == if (i + 1) * chunk_size <= len {
                    chunk_size as int
                } else {
                    len - i * chunk_size
                } && 0 < spans@[i].1 && spans@[i].0 + spans@[i].1 <= base + len,
        decreases count - index,
    {
        proof {
            assert(index * chunk_size <= (count - 1) * chunk_size) by (nonlinear_arith)
                requires
                    index <= count - 1,
                    chunk_size > 0,
            ;
            assert((index + 1) * chunk_size == index * chunk_size + chunk_size) by (nonlinear_arith);
        }
        let offset: usize = index * chunk_size;
        let left: usize = len - offset;
        let size: usize = if chunk_size <= left {
            chunk_size
        } else {
            left
        };
        spans.push((base + offset, size));
        index = index + 1;
    }
    spans
}

/// The chunks of a range are consecutive and cover exactly it.
pub proof fn law_chunks_partition_a_span(base: int, len: int, chunk: int, i: int)
    requires
        chunk > 0,
        0 <= len,
        base <= i < base + len,
    ensures
        0 <= (i - base) / chunk < ceil_div(len, chunk),
        base + ((i - base) / chunk) * chunk <= i,
        i < base + ((i - base) / chunk) * chunk + if ((i - base) / chunk + 1) * chunk <= len {
            chunk
        } else {
            len - ((i - base) / chunk) * chunk
        },
        forall|k: int|
            #![trigger k * chunk]
            base + k * chunk <= i < base + k * chunk + chunk ==> k == (i - base) / chunk,
{
    let q = (i - base) / chunk;
    lemma_ceil_div(len, chunk);
    vstd::arithmetic::div_mod::lemma_fundamental_div_mod(i - base, chunk);
    assert(q * chunk == chunk * q) by (nonlinear_arith);
    assert((q + 1) * chunk == q * chunk + chunk) by (nonlinear_arith);
    assert(q >= 0) by (nonlinear_arith)
        requires
            chunk * q + (i - base) % chunk >= 0,
            (i - base) % chunk < chunk,
            chunk > 0,
    ;
    assert(q < ceil_div(len, chunk)) by (nonlinear_arith)
        requires
            q * chunk < len,
            ceil_div(len, chunk) * chunk >= len,
            chunk > 0,
    ;
    assert forall|k: int|
        #![trigger k * chunk]
        base + k * chunk <= i < base + k * chunk + chunk implies k == (i - base) / chunk by {
        let r = i - base - k * chunk;
        assert(i - base == chunk * k + r) by (nonlinear_arith)
            requires
                r == i - base - k * chunk,
        ;
        vstd::arithmetic::div_mod::lemma_fundamental_div_mod_converse(i - base, chunk, k, r);
    }
}

/// Where a batch of matrices ends inside its buffer.
pub open spec fn batch_end(
    offset: int,
    rows: int,
    cols: int,
    row_stride: int,
    batch_stride: int,
    batches: int,
) -> int {
    offset + (batches - 1) * batch_stride + (rows - 1) * row_stride + cols
}

/// A batch that is not empty ends right after its last element, and every other element stands
/// before that.
pub proof fn law_batches_end_after_their_last_element(
    d: MatrixBatchDescriptor,
    batch: int,
    row: int,
    col: int,
)
    requires
        d.contains(batch, row, col),
    ensures
        ({
            let end = batch_end(
                d.offset as int,
                d.rows as int,
                d.cols as int,
                d.row_stride as int,
                d.batch_stride as int,
                d.batches as int,
            );
            &&& d.offset <= d.at(batch, row, col) < end
            &&& d.at(d.batches - 1, d.rows - 1, d.cols - 1) == end - 1
        }),
{
    let (b, r) = (d.batch_stride as int, d.row_stride as int);
    assert(0 <= batch * b <= (d.batches - 1) * b) by (nonlinear_arith)
        requires
            0 <= batch <= d.batches - 1,
            b >= 0,
    ;
    assert(0 <= row * r <= (d.rows - 1) * r) by (nonlinear_arith)
        requires
            0 <= row <= d.rows - 1,
            r >= 0,
    ;
}

/// Whether a batch of matrices is not empty and lies inside its buffer.
pub fn check_matrix_batch_range(
    buffer_len: usize,
    offset: usize,
    rows: usize,
    cols: usize,
    row_stride: usize,
    batch_stride: usize,
    batches: usize,
) -> (r: bool)
    ensures
        r == (rows > 0 && cols > 0 && batches > 0 && batch_end(
            offset as int,
            rows as int,
            cols as int,
            row_stride as int,
            batch_stride as int,
            batches as int,
        ) <= buffer_len),
{
    if rows == 0 || cols == 0 || batches == 0 {
        return false;
    }
    proof {
        assert((batches - 1) * batch_stride >= 0) by (nonlinear_arith)
            requires
                batches >= 1,
        ;
        assert((rows - 1) * row_stride >= 0) by (nonlinear_arith)
            requires
                rows >= 1,
        ;
    }
    let batch_part: usize = match (batches - 1).checked_mul(batch_stride) {
        Some(v) => v,
        None => {
            return false;
        },
    };
    let row_part: usize = match (rows - 1).checked_mul(row_stride) {
        Some(v) => v,
        None => {
            return false;
        },
    };
    let first: usize = match offset.checked_add(batch_part) {
        Some(v) => v,
        None => {
            return false;
        },
    };
    let second: usize = match first.checked_add(row_part) {
        Some(v) => v,
        None => {
            return false;
        },
    };
    match second.checked_add(cols) {
        Some(end) => end <= buffer_len,
        None => false,
    }
}

/// A shared borrow of equally spaced matrices.
pub struct MatrixBatchSpan<'a> {
    pub descriptor: MatrixBatchDescriptor,
    pub borrow: PhantomData<&'a DeviceBuffer>,
}

/// An exclusive borrow of equally spaced matrices.
pub struct MatrixBatchSpanMut<'a> {
    pub descriptor: MatrixBatchDescriptor,
    pub borrow: PhantomData<&'a DeviceBuffer>,
}

impl<'a> MatrixBatchSpan<'a> {
    /// Borrows part of a buffer.
    pub fn from_buffer(
        buffer: &'a DeviceBuffer,
        offset: usize,
        rows: usize,
        cols: usize,
        row_stride: usize,
        batch_stride: usize,
        batches: usize,
    ) -> (r: Self)
        requires
            rows > 0 && cols > 0 && batches > 0,
            batch_end(
                offset as int,
                rows as int,
                cols as int,
                row_stride as int,
                batch_stride as int,
                batches as int,
            ) <= buffer.len,
        ensures
            r.descriptor == (MatrixBatchDescriptor {
                buffer: buffer.id,
                offset,
                len: (buffer.len - offset) as usize,
                rows,
                cols,
                row_stride,
                batch_stride,
                batches,
            }),
            offset <= buffer.len,
    {
        proof {
            assert((batches - 1) * batch_stride >= 0) by (nonlinear_arith)
                requires
                    batches >= 1,
            ;
            assert((rows - 1) * row_stride >= 0) by (nonlinear_arith)
                requires
                    rows >= 1,
            ;
        }
        MatrixBatchSpan {
            descriptor: MatrixBatchDescriptor {
                buffer: buffer.id,
                offset,
                len: buffer.len - offset,
                rows,
                cols,
                row_stride,
                batch_stride,
                batches,
            },
            borrow: PhantomData,
        }
    }

    /// What a kernel gets to see.
    pub fn descriptor(&self) -> (r: MatrixBatchDescriptor)
        ensures
            r == self.descriptor,
    {
        self.descriptor
    }
}

impl<'a> MatrixBatchSpanMut<'a> {
    /// Borrows part of a buffer exclusively.
    pub fn from_buffer(
        buffer: &'a mut DeviceBuffer,
        offset: usize,
        rows: usize,
        cols: usize,
        row_stride: usize,
        batch_stride: usize,
        batches: usize,
    ) -> (r: Self)
        requires
            rows > 0 && cols > 0 && batches > 0,
            batch_end(
                offset as int,
                rows as int,
                cols as int,
                row_stride as int,
                batch_stride as int,
                batches as int,
            ) <= old(buffer).len,
        ensures
            *final(buffer) == *old(buffer),
            r.descriptor == (MatrixBatchDescriptor {
                buffer: old(buffer).id,
                offset,
                len: (old(buffer).len - offset) as usize,
                rows,
                cols,
                row_stride,
                batch_stride,
                batches,
            }),
            offset <= old(buffer).len,
    {
        proof {
            assert((batches - 1) * batch_stride >= 0) by (nonlinear_arith)
                requires
                    batches >= 1,
            ;
            assert((rows - 1) * row_stride >= 0) by (nonlinear_arith)
                requires
                    rows >= 1,
            ;
        }
        MatrixBatchSpanMut {
            descriptor: MatrixBatchDescriptor {
                buffer: buffer.id,
                offset,
                len: buffer.len - offset,
                rows,
                cols,
                row_stride,
                batch_stride,
                batches,
            },
            borrow: PhantomData,
        }
    }

    /// What a kernel gets to see.
    pub fn descriptor(&self) -> (r: MatrixBatchDescriptor)
        ensures
            r == self.descriptor,
    {
        self.descriptor
    }
}

/// A non-owning shared borrow of a contiguous region of a buffer.
pub struct DeviceSpan<'a> {
    pub descriptor: DeviceSliceDescriptor,
    pub borrow: PhantomData<&'a DeviceBuffer>,
}

/// A non-owning, exclusively borrowed region of a buffer.
///
/// Dropping this value does not free device memory.
pub struct DeviceSpanMut<'a> {
    pub descriptor: DeviceSliceDescriptor,
    pub borrow: PhantomData<&'a DeviceBuffer>,
}

/// The descriptors of the chunks that [`split_spans`] makes of a range.
pub open spec fn chunk_of(d: DeviceSliceDescriptor, chunk: int, i: int) -> DeviceSliceDescriptor {
    DeviceSliceDescriptor {
        buffer: d.buffer,
        offset: (d.offset + i * chunk) as usize,
        len: (if (i + 1) * chunk <= d.len {
            chunk
        } else {
            d.len - i * chunk
        }) as usize,
    }
}

/// The chunks of a range follow one another from its start to its end. All are as long as
/// asked for, but for the last, which is never empty.
pub proof fn law_chunks_follow_one_another(d: DeviceSliceDescriptor, chunk: int, i: int)
    requires
        chunk > 0,
        d.offset + d.len <= usize::MAX,
        0 <= i < ceil_div(d.len as int, chunk),
    ensures
        chunk_of(d, chunk, i).buffer == d.buffer,
        chunk_of(d, chunk, 0).offset == d.offset,
        0 < chunk_of(d, chunk, i).len <= chunk,
        i + 1 < ceil_div(d.len as int, chunk) ==> {
            &&& chunk_of(d, chunk, i).len == chunk
            &&& chunk_of(d, chunk, i + 1).offset == chunk_of(d, chunk, i).offset + chunk_of(
                d,
                chunk,
                i,
            ).len
        },
        i + 1 == ceil_div(d.len as int, chunk) ==> chunk_of(d, chunk, i).offset + chunk_of(
            d,
            chunk,
            i,
        ).len == d.offset + d.len,
{
    let n = ceil_div(d.len as int, chunk);
    lemma_ceil_div(d.len as int, chunk);
    assert(0 <= i * chunk <= (n - 1) * chunk) by (nonlinear_arith)
        requires
            0 <= i <= n - 1,
            chunk > 0,
    ;
    assert((i + 1) * chunk == i * chunk + chunk) by (nonlinear_arith);
    assert(0 * chunk == 0) by (nonlinear_arith);
    if i + 1 < n {
        assert((i + 1) * chunk <= (n - 1) * chunk) by (nonlinear_arith)
            requires
                i + 1 <= n - 1,
                chunk > 0,
        ;
    }
}

/// Cuts a descriptor into chunks.
pub(crate) fn split_descriptor(d: DeviceSliceDescriptor, chunk_size: usize) -> (r: Vec<
    DeviceSliceDescriptor,
>)
    requires
        chunk_size > 0,
        d.offset + d.len <= usize::MAX,
    ensures
        r@ == Seq::new(
            ceil_div(d.len as int, chunk_size as int) as nat,
            |i: int| chunk_of(d, chunk_size as int, i),
        ),
        forall|i: int|
            0 <= i < r@.len() ==> (#[trigger] r@[i]).buffer == d.buffer && r@[i].offset + r@[i].len
                <= d.offset + d.len,
{
    let pairs = split_spans(d.offset, d.len, chunk_size);
    let mut chunks: Vec<DeviceSliceDescriptor> = Vec::new();
    let mut i: usize = 0;
    while i < pairs.len()
        invariant
            i <= pairs@.len(),
            chunks@.len() == i,
            d.offset + d.len <= usize::MAX,
            forall|k: int|
                0 <= k < pairs@.len() ==> (#[trigger] pairs@[k]).0 == d.offset + k * chunk_size
                    && pairs@[k].1 == if (k + 1) * chunk_size <= d.len {
                    chunk_size as int
                } else {
                    d.len - k * chunk_size
                } && 0 < pairs@[k].1 && pairs@[k].0 + pairs@[k].1 <= d.offset + d.len,
            forall|k: int|
                0 <= k < i ==> #[trigger] chunks@[k] == chunk_of(d, chunk_size as int, k)
                    && chunks@[k].offset + chunks@[k].len <= d.offset + d.len,
        decreases pairs@.len() - i,
    {
        let (offset, len): (usize, usize) = pairs[i];
        chunks.push(DeviceSliceDescriptor { buffer: d.buffer, offset, len });
        i = i + 1;
    }
    chunks
}

/// Copies a range into a new buffer.
pub(crate) fn copy_to_buffer(
    source: DeviceSliceDescriptor,
    runtime: &mut CudaRuntime,
    stream: Option<Stream>,
) -> (b: DeviceBuffer)
    requires
        old(runtime).wf(),
        old(runtime).spans(source),
    ensures
        final(runtime).grown(*old(runtime), b.id, stream),
        final(runtime).owns(b),
        b.len == source.len,
        final(runtime).mem(b.id) == old(runtime).device@.read(source),
{
    let ghost before = *runtime;
    proof {
        assert(addressable(before.buffers@[source.buffer as int] as int));
        assert(before.mem(source.buffer).len() == before.buffers@[source.buffer as int]);
    }
    let b = runtime.get_uninit_buffer(source.len);
    assert(runtime.grown(before, b.id, stream));
    let ghost made = *runtime;
    let s = runtime.execution_stream(stream);
    proof {
        assert(made.ran_on(before, s));
        made.lemma_issued_prefix(before, s);
        runtime.lemma_caught_up_since(made, before, s);
        assert(runtime.ran_on(before, s));
    }
    if source.len == 0 {
        proof {
            assert(runtime.mem(b.id).len() == 0);
            assert(runtime.mem(b.id) =~= before.device@.read(source));
        }
        return b;
    }
    let ghost middle = *runtime;
    let target = DeviceSliceDescriptor { buffer: b.id, offset: 0, len: source.len };
    runtime.issue(Command::Copy { source, target, stream: s });
    proof {
        assert(runtime.ran_on(before, s));
        assert(middle.mem(b.id).len() == b.len);
        assert(middle.mem(source.buffer) == before.mem(source.buffer));
        assert(runtime.mem(b.id) =~= before.device@.read(source));
    }
    b
}

/// Launches a reduction of a range into a new buffer of one element.
fn launch_map_reduce(
    source: DeviceSliceDescriptor,
    source_len: usize,
    runtime: &mut CudaRuntime,
    identity: F32,
    map: MapFn,
    reduce: BinaryFn,
    stream: Option<Stream>,
) -> (b: DeviceBuffer)
    requires
        old(runtime).wf(),
        old(runtime).spans(source),
        source_len == source.len,
    ensures
        final(runtime).grown(*old(runtime), b.id, stream),
        final(runtime).owns(b),
        b.len == 1,
        final(runtime).mem(b.id) == seq![
            Term::Reduce(map, reduce, identity, old(runtime).device@.read(source)),
        ],
{
    let ghost before = *runtime;
    let per_thread: usize = div_ceil(source_len, DEFAULT_BLOCK_SIZE);
    let config = LaunchConfig::new_1d(1, 1024, 128);
    let b = runtime.get_uninit_buffer(1);
    assert(runtime.grown(before, b.id, stream));
    let ghost middle = *runtime;
    let result = DeviceSliceDescriptor { buffer: b.id, offset: 0, len: 1 };
    runtime.enqueue(
        Kernel::MapReduce { source, result, elements_per_thread: per_thread, map, reduce, identity },
        config,
        stream,
    );
    proof {
        lemma_ceil_div(source_len as int, 1024);
        assert(config.block_x * per_thread >= source_len) by (nonlinear_arith)
            requires
                config.block_x == 1024,
                per_thread * 1024 >= source_len,
        ;
        assert(middle.mem(source.buffer) == before.mem(source.buffer));
        assert(middle.mem(b.id).len() == 1);
        assert(middle.device@.read(source) =~= before.device@.read(source));
        assert(runtime.mem(b.id) =~= seq![
            Term::Reduce(map, reduce, identity, before.device@.read(source)),
        ]);
    }
    b
}

/// Launches a reduction of paired ranges into a new buffer of one element.
fn launch_zip_map_reduce(
    lhs: DeviceSliceDescriptor,
    rhs: DeviceSliceDescriptor,
    runtime: &mut CudaRuntime,
    identity: F32,
    map: BinaryFn,
    reduce: BinaryFn,
    stream: Option<Stream>,
) -> (b: DeviceBuffer)
    requires
        old(runtime).wf(),
        old(runtime).spans(lhs),
        old(runtime).spans(rhs),
        lhs.len == rhs.len,
    ensures
        final(runtime).grown(*old(runtime), b.id, stream),
        final(runtime).owns(b),
        b.len == 1,
        final(runtime).mem(b.id) == seq![
            Term::ZipReduce(
                map,
                reduce,
                identity,
                old(runtime).device@.read(lhs),
                old(runtime).device@.read(rhs),
            ),
        ],
{
    let ghost before = *runtime;
    let per_thread: usize = div_ceil(lhs.len, DEFAULT_BLOCK_SIZE);
    let config = LaunchConfig::new_1d(1, 1024, 128);
    let b = runtime.get_uninit_buffer(1);
    assert(runtime.grown(before, b.id, stream));
    let ghost middle = *runtime;
    let result = DeviceSliceDescriptor { buffer: b.id, offset: 0, len: 1 };
    runtime.enqueue(
        Kernel::ZipMapReduce {
            lhs,
            rhs,
            result,
            elements_per_thread: per_thread,
            map,
            reduce,
            identity,
        },
        config,
        stream,
    );
    proof {
        lemma_ceil_div(lhs.len as int, 1024);
        assert(config.block_x * per_thread >= lhs.len) by (nonlinear_arith)
            requires
                config.block_x == 1024,
                per_thread * 1024 >= lhs.len,
        ;
        assert(middle.mem(lhs.buffer) == before.mem(lhs.buffer));
        assert(middle.mem(rhs.buffer) == before.mem(rhs.buffer));
        assert(middle.mem(b.id).len() == 1);
        assert(middle.device@.read(lhs) =~= before.device@.read(lhs));
        assert(middle.device@.read(rhs) =~= before.device@.read(rhs));
        assert(runtime.mem(b.id) =~= seq![
            Term::ZipReduce(
                map,
                reduce,
                identity,
                before.device@.read(lhs),
                before.device@.read(rhs),
            ),
        ]);
    }
    b
}

/// Reduces a range to one value on the host.
pub(crate) fn map_reduce_descriptor(
    source: DeviceSliceDescriptor,
    runtime: &mut CudaRuntime,
    identity: F32,
    map: MapFn,
    reduce: BinaryFn,
    stream: Option<Stream>,
) -> (r: Scalar)
    requires
        old(runtime).wf(),
        old(runtime).spans(source),
    ensures
        final(runtime).reduced(
            *old(runtime),
            r,
            identity,
            map,
            reduce,
            old(runtime).device@.read(source),
            stream,
        ),
{
    let ghost before = *runtime;
    proof {
        assert(before.mem(source.buffer).len() == before.buffers@[source.buffer as int]);
        assert(before.device@.read(source).len() == source.len);
    }
    if source.len == 0 {
        return Scalar::Literal(identity);
    }
    let input = launch_map_reduce(source, source.len, runtime, identity, map, reduce, stream);
    let ghost launched = *runtime;
    let index: usize = runtime.download(&input, stream);
    let ghost loaded = *runtime;
    let ghost id = input.id;
    runtime.recycle_buffer(input);
    proof {
        assert(runtime.ran_on(loaded, chosen(stream)));
        assert(runtime.live@ =~= before.live@);
        assert(runtime.device@.downloads =~= before.device@.downloads.push(launched.mem(id)));
    }
    Scalar::Downloaded(index)
}

/// Reduces paired ranges to one value on the host.
pub(crate) fn zip_map_reduce_descriptors(
    lhs: DeviceSliceDescriptor,
    rhs: DeviceSliceDescriptor,
    runtime: &mut CudaRuntime,
    identity: F32,
    map: BinaryFn,
    reduce: BinaryFn,
    stream: Option<Stream>,
) -> (r: Scalar)
    requires
        old(runtime).wf(),
        old(runtime).spans(lhs),
        old(runtime).spans(rhs),
        lhs.len == rhs.len,
    ensures
        final(runtime).zip_reduced(
            *old(runtime),
            r,
            identity,
            map,
            reduce,
            old(runtime).device@.read(lhs),
            old(runtime).device@.read(rhs),
            stream,
        ),
{
    let ghost before = *runtime;
    proof {
        assert(before.mem(lhs.buffer).len() == before.buffers@[lhs.buffer as int]);
        assert(before.device@.read(lhs).len() == lhs.len);
    }
    if lhs.len == 0 {
        return Scalar::Literal(identity);
    }
    let input = launch_zip_map_reduce(lhs, rhs, runtime, identity, map, reduce, stream);
    let ghost launched = *runtime;
    let index: usize = runtime.download(&input, stream);
    let ghost loaded = *runtime;
    let ghost id = input.id;
    runtime.recycle_buffer(input);
    proof {
        assert(runtime.ran_on(loaded, chosen(stream)));
        assert(runtime.live@ =~= before.live@);
        assert(runtime.device@.downloads =~= before.device@.downloads.push(launched.mem(id)));
    }
    Scalar::Downloaded(index)
}

impl<'a> DeviceSpan<'a> {
    /// Borrows part of a buffer.
    pub fn from_buffer(buffer: &'a DeviceBuffer, offset: usize, len: usize) -> (r: Self)
        requires
            offset + len <= buffer.len,
        ensures
            r.descriptor == (DeviceSliceDescriptor { buffer: buffer.id, offset, len }),
    {
        DeviceSpan {
            descriptor: DeviceSliceDescriptor { buffer: buffer.id, offset, len },
            borrow: PhantomData,
        }
    }

    /// Number of elements.
    pub fn len(&self) -> (r: usize)
        ensures
            r == self.descriptor.len,
    {
        self.descriptor.len
    }

    /// What a kernel gets to see.
    pub fn descriptor(&self) -> (r: DeviceSliceDescriptor)
        ensures
            r == self.descriptor,
    {
        self.descriptor
    }

    /// Another borrow of the same region.
    pub fn duplicate(&self) -> (r: Self)
        ensures
            r.descriptor == self.descriptor,
    {
        DeviceSpan { descriptor: self.descriptor, borrow: PhantomData }
    }

    /// Cuts this span into contiguous chunks; the last may be shorter.
    fn split(self, chunk_size: usize) -> (r: Vec<Self>)
        requires
            chunk_size > 0,
            self.descriptor.offset + self.descriptor.len <= usize::MAX,
        ensures
            r@.len() == ceil_div(self.descriptor.len as int, chunk_size as int),
            forall|i: int|
                0 <= i < r@.len() ==> (#[trigger] r@[i]).descriptor == chunk_of(
                    self.descriptor,
                    chunk_size as int,
                    i,
                ) && r@[i].descriptor.offset + r@[i].descriptor.len <= self.descriptor.offset
                    + self.descriptor.len,
    {
        let parts = split_descriptor(self.descriptor, chunk_size);
        let mut spans: Vec<Self> = Vec::new();
        let mut i: usize = 0;
        while i < parts.len()
            invariant
                i <= parts@.len(),
                spans@.len() == i,
                forall|k: int| 0 <= k < i ==> (#[trigger] spans@[k]).descriptor == parts@[k],
            decreases parts@.len() - i,
        {
            spans.push(DeviceSpan { descriptor: parts[i], borrow: PhantomData });
            i = i + 1;
        }
        proof {
            lemma_ceil_div(self.descriptor.len as int, chunk_size as int);
            assert forall|i: int| 0 <= i < spans@.len() implies (#[trigger] spans@[i]).descriptor
                == chunk_of(self.descriptor, chunk_size as int, i)
                && spans@[i].descriptor.offset + spans@[i].descriptor.len
                <= self.descriptor.offset + self.descriptor.len by {
                assert(spans@[i].descriptor == parts@[i]);
            }
        }
        spans
    }

    /// Borrows a whole buffer in chunks.
    pub fn chunks(buffer: &'a DeviceBuffer, chunk_size: usize) -> (r: Vec<Self>)
        requires
            chunk_size > 0,
        ensures
            r@.len() == ceil_div(buffer.len as int, chunk_size as int),
            forall|i: int|
                0 <= i < r@.len() ==> (#[trigger] r@[i]).descriptor == chunk_of(
                    (DeviceSliceDescriptor { buffer: buffer.id, offset: 0, len: buffer.len }),
                    chunk_size as int,
                    i,
                ) && r@[i].descriptor.offset + r@[i].descriptor.len <= buffer.len,
    {
        DeviceSpan::from_buffer(buffer, 0, buffer.len()).split(chunk_size)
    }

    /// Copies this span into a new, independently owned buffer.
    pub fn to_buffer(&self, runtime: &mut CudaRuntime, stream: Option<Stream>) -> (b: DeviceBuffer)
        requires
            old(runtime).wf(),
            old(runtime).spans(self.descriptor),
        ensures
            final(runtime).grown(*old(runtime), b.id, stream),
            final(runtime).owns(b),
            b.len == self.descriptor.len,
            final(runtime).mem(b.id) == old(runtime).device@.read(self.descriptor),
    {
        copy_to_buffer(self.descriptor, runtime, stream)
    }

    /// The sum of the elements.
    pub fn sum(&self, runtime: &mut CudaRuntime, stream: Option<Stream>) -> (r: Scalar)
        requires
            old(runtime).wf(),
            old(runtime).spans(self.descriptor),
        ensures
            final(runtime).reduced(
                *old(runtime),
                r,
                F32 { bits: 0 },
                MapFn::Identity,
                BinaryFn::Add,
                old(runtime).device@.read(self.descriptor),
                stream,
            ),
    {
        self.map_reduce(runtime, F32 { bits: 0 }, MapFn::Identity, BinaryFn::Add, stream)
    }

    /// The largest element, or negative infinity if there is none.
    pub fn max(&self, runtime: &mut CudaRuntime, stream: Option<Stream>) -> (r: Scalar)
        requires
            old(runtime).wf(),
            old(runtime).spans(self.descriptor),
        ensures
            final(runtime).reduced(
                *old(runtime),
                r,
                F32 { bits: NEGATIVE_INFINITY_BITS },
                MapFn::Identity,
                BinaryFn::Max,
                old(runtime).device@.read(self.descriptor),
                stream,
            ),
    {
        self.map_reduce(
            runtime,
            F32 { bits: NEGATIVE_INFINITY_BITS },
            MapFn::Identity,
            BinaryFn::Max,
            stream,
        )
    }

    /// The sum of the mapped elements.
    pub fn map_sum(&self, runtime: &mut CudaRuntime, map: MapFn, stream: Option<Stream>) -> (r:
        Scalar)
        requires
            old(runtime).wf(),
            old(runtime).spans(self.descriptor),
        ensures
            final(runtime).reduced(
                *old(runtime),
                r,
                F32 { bits: 0 },
                map,
                BinaryFn::Add,
                old(runtime).device@.read(self.descriptor),
                stream,
            ),
    {
        self.map_reduce(runtime, F32 { bits: 0 }, map, BinaryFn::Add, stream)
    }

    /// Folds the mapped elements.
    pub fn map_reduce(
        &self,
        runtime: &mut CudaRuntime,
        identity: F32,
        map: MapFn,
        reduce: BinaryFn,
        stream: Option<Stream>,
    ) -> (r: Scalar)
        requires
            old(runtime).wf(),
            old(runtime).spans(self.descriptor),
        ensures
            final(runtime).reduced(
                *old(runtime),
                r,
                identity,
                map,
                reduce,
                old(runtime).device@.read(self.descriptor),
                stream,
            ),
    {
        map_reduce_descriptor(self.descriptor(), runtime, identity, map, reduce, stream)
    }

    /// Folds the mapped pairs of elements.
    pub fn zip_map_reduce(
        &self,
        rhs: &DeviceSpan<'_>,
        runtime: &mut CudaRuntime,
        identity: F32,
        map: BinaryFn,
        reduce: BinaryFn,
        stream: Option<Stream>,
    ) -> (r: Scalar)
        requires
            old(runtime).wf(),
            old(runtime).spans(self.descriptor),
            old(runtime).spans(rhs.descriptor),
            self.descriptor.len == rhs.descriptor.len,
        ensures
            final(runtime).zip_reduced(
                *old(runtime),
                r,
                identity,
                map,
                reduce,
                old(runtime).device@.read(self.descriptor),
                old(runtime).device@.read(rhs.descriptor),
                stream,
            ),
    {
        zip_map_reduce_descriptors(
            self.descriptor(),
            rhs.descriptor(),
            runtime,
            identity,
            map,
            reduce,
            stream,
        )
    }
}

impl<'a> DeviceSpanMut<'a> {
    /// Borrows part of a buffer exclusively.
    pub fn from_buffer(buffer: &'a mut DeviceBuffer, offset: usize, len: usize) -> (r: Self)
        requires
            offset + len <= old(buffer).len,
        ensures
            *final(buffer) == *old(buffer),
            r.descriptor == (DeviceSliceDescriptor { buffer: old(buffer).id, offset, len }),
    {
        DeviceSpanMut {
            descriptor: DeviceSliceDescriptor { buffer: buffer.id, offset, len },
            borrow: PhantomData,
        }
    }

    /// Number of elements.
    pub fn len(&self) -> (r: usize)
        ensures
            r == self.descriptor.len,
    {
        self.descriptor.len
    }

    /// Gives up exclusive access.
    pub fn into_span(self) -> (r: DeviceSpan<'a>)
        ensures
            r.descriptor == self.descriptor,
    {
        DeviceSpan { descriptor: self.descriptor, borrow: PhantomData }
    }

    /// Whether there are no elements.
    pub fn is_empty(&self) -> (r: bool)
        ensures
            r == (self.descriptor.len == 0),
    {
        self.len() == 0
    }

    /// What a kernel that writes gets to see.
    pub fn descriptor(&self) -> (r: DeviceSliceDescriptor)
        ensures
            r == self.descriptor,
    {
        self.descriptor
    }

    /// What a kernel that reads gets to see.
    pub fn read_descriptor(&self) -> (r: DeviceSliceDescriptor)
        ensures
            r == self.descriptor,
    {
        self.descriptor
    }

    /// Consumes this span and partitions it into disjoint contiguous chunks.
    /// The last chunk may be shorter than `chunk_size`.
    fn split(self, chunk_size: usize) -> (r: Vec<Self>)
        requires
            chunk_size > 0,
            self.descriptor.offset + self.descriptor.len <= usize::MAX,
        ensures
            r@.len() == ceil_div(self.descriptor.len as int, chunk_size as int),
            forall|i: int|
                0 <= i < r@.len() ==> (#[trigger] r@[i]).descriptor == chunk_of(
                    self.descriptor,
                    chunk_size as int,
                    i,
                ) && r@[i].descriptor.offset + r@[i].descriptor.len <= self.descriptor.offset
                    + self.descriptor.len,
    {
        let parts = split_descriptor(self.descriptor, chunk_size);
        let mut spans: Vec<Self> = Vec::new();
        let mut i: usize = 0;
        while i < parts.len()
            invariant
                i <= parts@.len(),
                spans@.len() == i,
                forall|k: int| 0 <= k < i ==> (#[trigger] spans@[k]).descriptor == parts@[k],
            decreases parts@.len() - i,
        {
            spans.push(DeviceSpanMut { descriptor: parts[i], borrow: PhantomData });
            i = i + 1;
        }
        proof {
            lemma_ceil_div(self.descriptor.len as int, chunk_size as int);
            assert forall|i: int| 0 <= i < spans@.len() implies (#[trigger] spans@[i]).descriptor
                == chunk_of(self.descriptor, chunk_size as int, i)
                && spans@[i].descriptor.offset + spans@[i].descriptor.len
                <= self.descriptor.offset + self.descriptor.len by {
                assert(spans@[i].descriptor == parts@[i]);
            }
        }
        spans
    }

    /// Borrows an entire buffer and partitions it into mutable chunks.
    /// The last chunk may be shorter than `chunk_size`.
    pub fn chunks(buffer: &'a mut DeviceBuffer, chunk_size: usize) -> (r: Vec<Self>)
        requires
            chunk_size > 0,
        ensures
            *final(buffer) == *old(buffer),
            r@.len() == ceil_div(old(buffer).len as int, chunk_size as int),
            forall|i: int|
                0 <= i < r@.len() ==> (#[trigger] r@[i]).descriptor == chunk_of(
                    (DeviceSliceDescriptor {
                        buffer: old(buffer).id,
                        offset: 0,
                        len: old(buffer).len,
                    }),
                    chunk_size as int,
                    i,
                ) && r@[i].descriptor.offset + r@[i].descriptor.len <= old(buffer).len,
    {
        let len: usize = buffer.len();
        DeviceSpanMut::from_buffer(buffer, 0, len).split(chunk_size)
    }

    /// Copies this span into a new, independently owned buffer.
    pub fn to_buffer(&self, runtime: &mut CudaRuntime, stream: Option<Stream>) -> (b: DeviceBuffer)
        requires
            old(runtime).wf(),
            old(runtime).spans(self.descriptor),
        ensures
            final(runtime).grown(*old(runtime), b.id, stream),
            final(runtime).owns(b),
            b.len == self.descriptor.len,
            final(runtime).mem(b.id) == old(runtime).device@.read(self.descriptor),
    {
        copy_to_buffer(self.descriptor, runtime, stream)
    }

    /// Applies a function to every element. Nothing is issued for an empty span.
    pub fn for_each(&mut self, runtime: &mut CudaRuntime, f: MapFn, stream: Option<Stream>)
        requires
            old(runtime).wf(),
            old(runtime).spans(old(self).descriptor),
        ensures
            *final(self) == *old(self),
            old(self).descriptor.len == 0 ==> *final(runtime) == *old(runtime),
            final(runtime).changed(*old(runtime), old(self).descriptor.buffer, stream),
            final(runtime).mem(old(self).descriptor.buffer) == spliced(
                old(runtime).mem(old(self).descriptor.buffer),
                old(self).descriptor.offset as int,
                apply(f, old(runtime).device@.read(old(self).descriptor)),
            ),
            old(self).descriptor.len > 0 ==> final(runtime).launched(
                *old(runtime),
                Kernel::SliceForEach {
                    target: old(self).descriptor,
                    elements_per_thread: elementwise_share(old(self).descriptor.len),
                    f,
                },
                elementwise_config(old(self).descriptor.len),
                stream,
            ),
    {
        if self.is_empty() {
            proof {
                runtime.lemma_ran_on_nothing(chosen(stream));
                assert(runtime.mem(self.descriptor.buffer) =~= spliced(
                    runtime.mem(self.descriptor.buffer),
                    self.descriptor.offset as int,
                    apply(f, runtime.device@.read(self.descriptor)),
                ));
            }
            return;
        }
        runtime.assign_each(self.descriptor, f, stream);
    }

    /// Sets every element by its index. Nothing is issued for an empty span.
    pub fn set(&mut self, runtime: &mut CudaRuntime, f: InitFn, stream: Option<Stream>)
        requires
            old(runtime).wf(),
            old(runtime).spans(old(self).descriptor),
        ensures
            *final(self) == *old(self),
            old(self).descriptor.len == 0 ==> *final(runtime) == *old(runtime),
            final(runtime).changed(*old(runtime), old(self).descriptor.buffer, stream),
            final(runtime).draws == old(runtime).draws,
            final(runtime).mem(old(self).descriptor.buffer) == spliced(
                old(runtime).mem(old(self).descriptor.buffer),
                old(self).descriptor.offset as int,
                initial(f, old(self).descriptor.len as nat),
            ),
            old(self).descriptor.len > 0 ==> final(runtime).launched(
                *old(runtime),
                Kernel::SpanSet {
                    target: old(self).descriptor,
                    elements_per_thread: elementwise_share(old(self).descriptor.len),
                    f,
                },
                elementwise_config(old(self).descriptor.len),
                stream,
            ),
    {
        if self.is_empty() {
            proof {
                runtime.lemma_ran_on_nothing(chosen(stream));
                assert(runtime.mem(self.descriptor.buffer) =~= spliced(
                    runtime.mem(self.descriptor.buffer),
                    self.descriptor.offset as int,
                    initial(f, self.descriptor.len as nat),
                ));
            }
            return;
        }
        runtime.fill(self.descriptor, f, stream);
    }

    /// Multiplies every element.
    pub fn scale(&mut self, value: Scalar, runtime: &mut CudaRuntime, stream: Option<Stream>)
        requires
            old(runtime).wf(),
            old(runtime).spans(old(self).descriptor),
        ensures
            *final(self) == *old(self),
            final(runtime).changed(*old(runtime), old(self).descriptor.buffer, stream),
            final(runtime).mem(old(self).descriptor.buffer) == spliced(
                old(runtime).mem(old(self).descriptor.buffer),
                old(self).descriptor.offset as int,
                apply(MapFn::Scale(value), old(runtime).device@.read(old(self).descriptor)),
            ),
            old(self).descriptor.len == 0 ==> *final(runtime) == *old(runtime),
    {
        self.for_each(runtime, MapFn::Scale(value), stream);
    }

    /// The sum of the elements.
    pub fn sum(&self, runtime: &mut CudaRuntime, stream: Option<Stream>) -> (r: Scalar)
        requires
            old(runtime).wf(),
            old(runtime).spans(self.descriptor),
        ensures
            final(runtime).reduced(
                *old(runtime),
                r,
                F32 { bits: 0 },
                MapFn::Identity,
                BinaryFn::Add,
                old(runtime).device@.read(self.descriptor),
                stream,
            ),
    {
        self.map_reduce(runtime, F32 { bits: 0 }, MapFn::Identity, BinaryFn::Add, stream)
    }

    /// The largest element, or negative infinity if there is none.
    pub fn max(&self, runtime: &mut CudaRuntime, stream: Option<Stream>) -> (r: Scalar)
        requires
            old(runtime).wf(),
            old(runtime).spans(self.descriptor),
        ensures
            final(runtime).reduced(
                *old(runtime),
                r,
                F32 { bits: NEGATIVE_INFINITY_BITS },
                MapFn::Identity,
                BinaryFn::Max,
                old(runtime).device@.read(self.descriptor),
                stream,
            ),
    {
        self.map_reduce(
            runtime,
            F32 { bits: NEGATIVE_INFINITY_BITS },
            MapFn::Identity,
            BinaryFn::Max,
            stream,
        )
    }

    /// The sum of the mapped elements.
    pub fn map_sum(&self, runtime: &mut CudaRuntime, map: MapFn, stream: Option<Stream>) -> (r:
        Scalar)
        requires
            old(runtime).wf(),
            old(runtime).spans(self.descriptor),
        ensures
            final(runtime).reduced(
                *old(runtime),
                r,
                F32 { bits: 0 },
                map,
                BinaryFn::Add,
                old(runtime).device@.read(self.descriptor),
                stream,
            ),
    {
        self.map_reduce(runtime, F32 { bits: 0 }, map, BinaryFn::Add, stream)
    }

    /// Folds the mapped elements.
    pub fn map_reduce(
        &self,
        runtime: &mut CudaRuntime,
        identity: F32,
        map: MapFn,
        reduce: BinaryFn,
        stream: Option<Stream>,
    ) -> (r: Scalar)
        requires
            old(runtime).wf(),
            old(runtime).spans(self.descriptor),
        ensures
            final(runtime).reduced(
                *old(runtime),
                r,
                identity,
                map,
                reduce,
                old(runtime).device@.read(self.descriptor),
                stream,
            ),
    {
        map_reduce_descriptor(self.read_descriptor(), runtime, identity, map, reduce, stream)
    }

    /// Folds the mapped pairs of elements.
    pub fn zip_map_reduce(
        &self,
        rhs: &DeviceSpanMut<'_>,
        runtime: &mut CudaRuntime,
        identity: F32,
        map: BinaryFn,
        reduce: BinaryFn,
        stream: Option<Stream>,
    ) -> (r: Scalar)
        requires
            old(runtime).wf(),
            old(runtime).spans(self.descriptor),
            old(runtime).spans(rhs.descriptor),
            self.descriptor.len == rhs.descriptor.len,
        ensures
            final(runtime).zip_reduced(
                *old(runtime),
                r,
                identity,
                map,
                reduce,
                old(runtime).device@.read(self.descriptor),
                old(runtime).device@.read(rhs.descriptor),
                stream,
            ),
    {
        zip_map_reduce_descriptors(
            self.read_descriptor(),
            rhs.read_descriptor(),
            runtime,
            identity,
            map,
            reduce,
            stream,
        )
    }
}

impl CudaRuntime {
    /// Copies spans one after the other into a new buffer.
    pub fn concat_buffers_from_span(&mut self, spans: &Vec<DeviceSpan<'_>>, stream: Option<Stream>) -> (b:
        DeviceBuffer)
        requires
            old(self).wf(),
            forall|k: int|
                0 <= k < spans@.len() ==> old(self).spans((#[trigger] spans@[k]).descriptor),
            addressable(
                joined(parts_of(old(self).device@, descriptors_of(spans@))).len() as int,
            ),
        ensures
            final(self).grown(*old(self), b.id, stream),
            final(self).owns(b),
            b.len == joined(parts_of(old(self).device@, descriptors_of(spans@))).len(),
            final(self).mem(b.id) == joined(parts_of(old(self).device@, descriptors_of(spans@))),
    {
        let mut list: Vec<DeviceSliceDescriptor> = Vec::new();
        let mut i: usize = 0;
        while i < spans.len()
            invariant
                i <= spans@.len(),
                list@ == descriptors_of(spans@).take(i as int),
            decreases spans@.len() - i,
        {
            list.push(spans[i].descriptor());
            i = i + 1;
            assert(list@ =~= descriptors_of(spans@).take(i as int));
        }
        assert(list@ =~= descriptors_of(spans@));
        self.gather(&list, stream)
    }

    /// Copies buffers one after the other into a new one.
    pub fn concat_buffers(&mut self, buffers: &Vec<&DeviceBuffer>) -> (b: DeviceBuffer)
        requires
            old(self).wf(),
            forall|k: int| 0 <= k < buffers@.len() ==> old(self).owns(*#[trigger] buffers@[k]),
            addressable(joined(contents_of(*old(self), buffers@)).len() as int),
        ensures
            final(self).grown(*old(self), b.id, None),
            final(self).owns(b),
            b.len == joined(contents_of(*old(self), buffers@)).len(),
            final(self).mem(b.id) == joined(contents_of(*old(self), buffers@)),
    {
        self.concat_buffers_on(buffers, None)
    }

    /// Copies buffers one after the other into a new one on a chosen stream.
    pub fn concat_buffers_on(&mut self, buffers: &Vec<&DeviceBuffer>, stream: Option<Stream>) -> (b:
        DeviceBuffer)
        requires
            old(self).wf(),
            forall|k: int| 0 <= k < buffers@.len() ==> old(self).owns(*#[trigger] buffers@[k]),
            addressable(joined(contents_of(*old(self), buffers@)).len() as int),
        ensures
            final(self).grown(*old(self), b.id, stream),
            final(self).owns(b),
            b.len == joined(contents_of(*old(self), buffers@)).len(),
            final(self).mem(b.id) == joined(contents_of(*old(self), buffers@)),
    {
        let mut list: Vec<DeviceSliceDescriptor> = Vec::new();
        let mut i: usize = 0;
        while i < buffers.len()
            invariant
                i <= buffers@.len(),
                list@.len() == i,
                forall|k: int|
                    0 <= k < i ==> #[trigger] list@[k] == (DeviceSliceDescriptor {
                        buffer: buffers@[k].id,
                        offset: 0,
                        len: buffers@[k].len,
                    }),
            decreases buffers@.len() - i,
        {
            list.push(
                DeviceSliceDescriptor { buffer: buffers[i].id, offset: 0, len: buffers[i].len },
            );
            i = i + 1;
        }
        proof {
            assert forall|k: int| 0 <= k < list@.len() implies #[trigger] self.spans(list@[k]) by {
                assert(self.owns(*buffers@[k]));
            }
            assert forall|k: int| 0 <= k < list@.len() implies #[trigger] parts_of(
                self.device@,
                list@,
            )[k] == contents_of(*self, buffers@)[k] by {
                assert(self.owns(*buffers@[k]));
                assert(self.mem(buffers@[k].id).len() == self.buffers@[buffers@[k].id as int]);
                assert(parts_of(self.device@, list@)[k] =~= self.mem(buffers@[k].id));
            }
            assert(parts_of(self.device@, list@) =~= contents_of(*self, buffers@));
        }
        self.gather(&list, stream)
    }

    /// Copies a buffer on the primary stream.
    pub fn clone_buffer(&mut self, buffer: &DeviceBuffer) -> (b: DeviceBuffer)
        requires
            old(self).wf(),
            old(self).owns(*buffer),
        ensures
            final(self).grown(*old(self), b.id, None),
            final(self).owns(b),
            b.len == buffer.len,
            final(self).mem(b.id) == old(self).mem(buffer.id),
    {
        self.clone_buffer_on(buffer, None)
    }

    /// Copies a buffer on a chosen stream.
    pub(crate) fn clone_buffer_on(&mut self, buffer: &DeviceBuffer, stream: Option<Stream>) -> (b:
        DeviceBuffer)
        requires
            old(self).wf(),
            old(self).owns(*buffer),
        ensures
            final(self).grown(*old(self), b.id, stream),
            final(self).owns(b),
            b.len == buffer.len,
            final(self).mem(b.id) == old(self).mem(buffer.id),
    {
        let source = DeviceSliceDescriptor { buffer: buffer.id, offset: 0, len: buffer.len };
        proof {
            assert(self.mem(buffer.id).len() == self.buffers@[buffer.id as int]);
            assert(self.device@.read(source) =~= self.mem(buffer.id));
        }
        copy_to_buffer(source, self, stream)
    }
}

/// The descriptors of spans.
pub open spec fn descriptors_of(spans: Seq<DeviceSpan<'_>>) -> Seq<DeviceSliceDescriptor> {
    Seq::new(spans.len(), |k: int| spans[k].descriptor)
}

/// What buffers hold.
pub open spec fn contents_of(runtime: CudaRuntime, buffers: Seq<&DeviceBuffer>) -> Seq<Seq<Term>> {
    Seq::new(buffers.len(), |k: int| runtime.mem(buffers[k].id))
}

} // verus!
