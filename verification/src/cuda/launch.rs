//! Issuing kernels, downloads and copies on a chosen stream.

use vstd::prelude::*;

use super::algebra::{joined, lemma_joined_len, lemma_joined_take, Term};
use super::arith::ceil_div;
use super::command::{Command, DeviceSliceDescriptor, Kernel, LaunchConfig, Stream};
use super::model::{lemma_run_push, Device};
use super::order::{belongs, kernel_reads, kernel_writes, within};
use super::ops::{BinaryFn, MapFn};
use super::runtime::{
    addressable, chosen, elements_per_thread, elementwise_grid, entry, lemma_accounted_kept,
    lemma_pool_kept,
    CudaRuntime, DeviceBuffer, DEFAULT_BLOCK_SIZE,
};
use super::scalar::{Scalar, F32};

verus! {

broadcast use crate::cuda::runtime::group_streams;

/// `old` with the elements from `offset` on replaced by `new`.
pub open spec fn spliced(old: Seq<Term>, offset: int, new: Seq<Term>) -> Seq<Term> {
    Seq::new(
        old.len(),
        |i: int|
            if offset <= i < offset + new.len() {
                new[i - offset]
            } else {
                old[i]
            },
    )
}

/// What ranges of a device hold.
pub open spec fn parts_of(device: Device, spans: Seq<DeviceSliceDescriptor>) -> Seq<Seq<Term>> {
    Seq::new(spans.len(), |k: int| device.read(spans[k]))
}

/// Element-wise launches over addressable buffers fit the grid.
pub proof fn lemma_elementwise_fits(len: int)
    requires
        0 <= len,
        addressable(len),
    ensures
        elementwise_grid(len, DEFAULT_BLOCK_SIZE as int) <= u32::MAX,
        ceil_div(len, DEFAULT_BLOCK_SIZE as int) <= u32::MAX,
{
    super::arith::lemma_ceil_div(len, elements_per_thread(len, DEFAULT_BLOCK_SIZE as int));
}

impl CudaRuntime {
    /// A later state in which one sequence was brought to the host and nothing
    /// else changed.
    pub open spec fn fetched(
        self,
        before: CudaRuntime,
        contents: Seq<Term>,
        stream: Option<Stream>,
    ) -> bool {
        &&& self.wf()
        &&& self.live@ == before.live@
        &&& self.keeps(before, Set::empty())
        &&& self.device@.downloads == before.device@.downloads.push(contents)
        &&& self.ran_on(before, chosen(stream))
    }

    /// A reduction of `items` that yields `r`: the identity for no items, and
    /// otherwise the download of the reduced value.
    pub open spec fn reduced(
        self,
        before: CudaRuntime,
        r: Scalar,
        identity: F32,
        map: MapFn,
        reduce: BinaryFn,
        items: Seq<Term>,
        stream: Option<Stream>,
    ) -> bool {
        if items.len() == 0 {
            r == Scalar::Literal(identity) && self == before
        } else {
            &&& r == Scalar::Downloaded(before.device@.downloads.len() as usize)
            &&& before.device@.downloads.len() <= usize::MAX
            &&& self.fetched(before, seq![Term::Reduce(map, reduce, identity, items)], stream)
        }
    }

    /// The same for the pairs of two sequences.
    pub open spec fn zip_reduced(
        self,
        before: CudaRuntime,
        r: Scalar,
        identity: F32,
        map: BinaryFn,
        reduce: BinaryFn,
        lhs: Seq<Term>,
        rhs: Seq<Term>,
        stream: Option<Stream>,
    ) -> bool {
        if lhs.len() == 0 {
            r == Scalar::Literal(identity) && self == before
        } else {
            &&& r == Scalar::Downloaded(before.device@.downloads.len() as usize)
            &&& before.device@.downloads.len() <= usize::MAX
            &&& self.fetched(
                before,
                seq![Term::ZipReduce(map, reduce, identity, lhs, rhs)],
                stream,
            )
        }
    }

    /// Issues a kernel on the chosen stream.
    pub(crate) fn enqueue(&mut self, kernel: Kernel, config: LaunchConfig, stream: Option<Stream>)
        requires
            old(self).wf(),
        ensures
            final(self).wf(),
            final(self).device@ == old(self).device@.launch(kernel, config),
            final(self).live == old(self).live,
            final(self).buffers == old(self).buffers,
            final(self).buffer_pool == old(self).buffer_pool,
            final(self).streams == old(self).streams,
            final(self).draws == old(self).draws,
            final(self).ran_on(*old(self), chosen(stream)),
            final(self).recorded(*old(self)),
            final(self).issued@ == (old(self).issued@ + entry(stream)).push(
                Command::Launch { kernel, config, stream: chosen(stream) },
            ),
            forall|read: Set<usize>, written: Set<usize>|
                kernel_reads(kernel).subset_of(read.union(written)) && written.contains(
                    kernel_writes(kernel),
                ) ==> #[trigger] final(self).confined(*old(self), read, written),
    {
        let ghost before = *self;
        let s = self.execution_stream(stream);
        let ghost middle = *self;
        let ghost command = Command::Launch { kernel, config, stream: s };
        self.issue(Command::Launch { kernel, config, stream: s });
        proof {
            assert(belongs(command, s));
            assert(self.ran_on(before, s));
            assert forall|read: Set<usize>, written: Set<usize>|
                kernel_reads(kernel).subset_of(read.union(written)) && written.contains(
                    kernel_writes(kernel),
                ) implies #[trigger] self.confined(before, read, written) by {
                assert(within(command, read, written));
                assert(middle.confined(before, read, written));
                assert(self.confined(middle, read, written));
            }
        }
    }

    /// Brings a buffer to the host and returns the download's number.
    pub(crate) fn download(&mut self, buffer: &DeviceBuffer, stream: Option<Stream>) -> (r: usize)
        requires
            old(self).wf(),
            old(self).owns(*buffer),
        ensures
            r == old(self).device@.downloads.len(),
            final(self).fetched(*old(self), old(self).mem(buffer.id), stream),
            final(self).issued@ == (old(self).issued@ + entry(stream)).push(
                Command::Download { buffer: buffer.id, stream: chosen(stream) },
            ),
            final(self).buffer_pool == old(self).buffer_pool,
    {
        let ghost before = *self;
        let s = self.execution_stream(stream);
        let ghost middle = *self;
        let index: usize = self.downloads.len();
        let ghost command = Command::Download { buffer: buffer.id, stream: s };
        self.pending.push(Command::Download { buffer: buffer.id, stream: s });
        self.downloads.push(buffer.id);
        proof {
            lemma_run_push(self.issued@, command);
            self.device@ = self.device@.step(command);
            self.issued@ = self.issued@.push(command);
            assert(self.issued@ =~= self.handed@ + self.pending@);
            lemma_pool_kept(middle, *self);
            assert(self.issued@.take(middle.issued@.len() as int) =~= middle.issued@);
            lemma_accounted_kept(middle, *self);
            assert(belongs(command, s));
            self.lemma_one_more_command(middle, before, command, s);
        }
        index
    }

    /// Copies ranges one after the other into a new buffer.
    pub(crate) fn gather(&mut self, spans: &Vec<DeviceSliceDescriptor>, stream: Option<Stream>) -> (b:
        DeviceBuffer)
        requires
            old(self).wf(),
            forall|k: int| 0 <= k < spans@.len() ==> #[trigger] old(self).spans(spans@[k]),
            addressable(joined(parts_of(old(self).device@, spans@)).len() as int),
        ensures
            final(self).grown(*old(self), b.id, stream),
            final(self).owns(b),
            b.len == joined(parts_of(old(self).device@, spans@)).len(),
            final(self).mem(b.id) == joined(parts_of(old(self).device@, spans@)),
    {
        let ghost before = *self;
        let ghost parts = parts_of(before.device@, spans@);
        let mut total: usize = 0;
        let mut i: usize = 0;
        assert(joined(parts.take(0)).len() == 0);
        while i < spans.len()
            invariant
                i <= spans@.len(),
                parts == parts_of(before.device@, spans@),
                before.wf(),
                forall|k: int| 0 <= k < spans@.len() ==> #[trigger] before.spans(spans@[k]),
                total == joined(parts.take(i as int)).len(),
                addressable(joined(parts).len() as int),
            decreases spans@.len() - i,
        {
            proof {
                lemma_joined_take(parts, i as int);
                lemma_joined_len(parts, i + 1);
                assert(before.spans(spans@[i as int]));
                assert(before.mem(spans@[i as int].buffer).len() == before.buffers@[spans@[i as int].buffer as int]);
                assert(parts[i as int].len() == spans@[i as int].len);
            }
            total = total + spans[i].len;
            i = i + 1;
        }
        proof {
            assert(parts.take(spans@.len() as int) =~= parts);
        }
        let b = self.get_uninit_buffer(total);
        assert(self.grown(before, b.id, stream));
        let ghost allocated = *self;
        let s = self.execution_stream(stream);
        proof {
            assert(allocated.ran_on(before, s));
            allocated.lemma_issued_prefix(before, s);
            self.lemma_caught_up_since(allocated, before, s);
            assert(self.ran_on(before, s));
        }
        let mut offset: usize = 0;
        let mut j: usize = 0;
        while j < spans.len()
            invariant
                j <= spans@.len(),
                parts == parts_of(before.device@, spans@),
                before.wf(),
                forall|k: int| 0 <= k < spans@.len() ==> #[trigger] before.spans(spans@[k]),
                offset == joined(parts.take(j as int)).len(),
                b.len == joined(parts).len(),
                self.grown(before, b.id, stream),
                self.owns(b),
                s == chosen(stream),
                self.caught_up(before, s),
                forall|k: int|
                    0 <= k < offset ==> self.mem(b.id)[k] == joined(parts.take(j as int))[k],
            decreases spans@.len() - j,
        {
            let span = spans[j];
            let ghost start = *self;
            proof {
                lemma_joined_take(parts, j as int);
                lemma_joined_len(parts, j + 1);
                assert(before.spans(spans@[j as int]));
                assert(before.mem(span.buffer).len() == before.buffers@[span.buffer as int]);
                assert(parts[j as int].len() == span.len);
                assert(self.mem(b.id).len() == b.len);
            }
            if span.len > 0 {
                let target = DeviceSliceDescriptor { buffer: b.id, offset, len: span.len };
                let ghost command = Command::Copy { source: span, target, stream: s };
                self.issue(Command::Copy { source: span, target, stream: s });
                proof {
                    assert(belongs(command, s));
                    assert(self.ran_on(before, s));
                    assert(start.mem(span.buffer) == before.mem(span.buffer));
                    assert(start.device@.read(span) =~= parts[j as int]);
                }
            }
            offset = offset + span.len;
            j = j + 1;
            proof {
                assert forall|k: int| 0 <= k < offset implies self.mem(b.id)[k] == joined(
                    parts.take(j as int),
                )[k] by {}
            }
        }
        proof {
            assert(parts.take(spans@.len() as int) =~= parts);
            assert(self.mem(b.id).len() == b.len);
            assert(self.mem(b.id) =~= joined(parts));
        }
        b
    }
}

} // verus!
