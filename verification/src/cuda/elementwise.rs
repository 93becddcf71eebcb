//! Element-wise launches over ranges.

use vstd::prelude::*;

use super::algebra::{apply, initial, zip};
use super::arith::{ceil_div, lemma_ceil_div};
use super::command::{Command, DeviceSliceDescriptor, Kernel, LaunchConfig, Stream};
use super::launch::{lemma_elementwise_fits, spliced};
use super::order::{kernel_reads, kernel_writes, within};
use super::ops::{BinaryFn, InitFn, MapFn};
use super::runtime::{
    addressable, chosen, elements_per_thread, elementwise_grid, entry, CudaRuntime,
    DEFAULT_BLOCK_SIZE,
};

verus! {

broadcast use crate::cuda::runtime::group_streams;

/// The launch of an element-wise kernel over this many elements.
pub open spec fn elementwise_config(len: usize) -> LaunchConfig {
    LaunchConfig::line(
        elementwise_grid(len as int, DEFAULT_BLOCK_SIZE as int),
        DEFAULT_BLOCK_SIZE as int,
        0,
    )
}

/// What one of its threads handles.
pub open spec fn elementwise_share(len: usize) -> usize {
    elements_per_thread(len as int, DEFAULT_BLOCK_SIZE as int) as usize
}

/// An element-wise launch reaches all elements, with one to four of them for a thread, and has
/// no block that is not needed. As long as four elements for a thread suffice, it is one block.
pub proof fn law_elementwise_launches_are_tight(size: int, block: int)
    requires
        size >= 0,
        block > 0,
    ensures
        1 <= elements_per_thread(size, block) <= 4,
        elementwise_grid(size, block) >= 1,
        elementwise_grid(size, block) * block * elements_per_thread(size, block) >= size,
        size > 0 ==> (elementwise_grid(size, block) - 1) * block * elements_per_thread(
            size,
            block,
        ) < size,
        size <= 4 * block ==> elementwise_grid(size, block) == 1,
        1 < elements_per_thread(size, block) ==> (elements_per_thread(size, block) - 1) * block
            < size,
{
    let e = elements_per_thread(size, block);
    let g = elementwise_grid(size, block);
    lemma_ceil_div(size, block);
    let wanted = ceil_div(size, block);
    lemma_ceil_div(size, e);
    let threads = ceil_div(size, e);
    lemma_ceil_div(threads, block);
    let grid = ceil_div(threads, block);
    assert(g * block >= threads) by (nonlinear_arith)
        requires
            grid * block >= threads,
            g >= grid,
            block > 0,
    ;
    assert(g * block * e >= size) by (nonlinear_arith)
        requires
            g * block >= threads,
            threads * e >= size,
            e >= 1,
    ;
    if size > 0 {
        assert(threads >= 1) by (nonlinear_arith)
            requires
                threads * e >= size,
                size > 0,
                e >= 1,
        ;
        assert(grid >= 1) by (nonlinear_arith)
            requires
                grid * block >= threads,
                threads >= 1,
                block > 0,
        ;
        assert((g - 1) * block * e < size) by (nonlinear_arith)
            requires
                (grid - 1) * block < threads,
                g == grid,
                (threads - 1) * e < size,
                e >= 1,
        ;
    }
    if size <= 4 * block && size > 0 {
        assert(wanted <= 4) by (nonlinear_arith)
            requires
                (wanted - 1) * block < size,
                size <= 4 * block,
                block > 0,
        ;
        assert(wanted >= 1) by (nonlinear_arith)
            requires
                wanted * block >= size,
                size > 0,
                block > 0,
        ;
        assert(threads <= block) by (nonlinear_arith)
            requires
                (threads - 1) * e < size,
                e == wanted,
                wanted * block >= size,
                e >= 1,
        ;
        assert(grid <= 1) by (nonlinear_arith)
            requires
                (grid - 1) * block < threads,
                threads <= block,
                block > 0,
        ;
    }
    if 1 < e {
        assert((e - 1) * block < size) by (nonlinear_arith)
            requires
                e <= wanted,
                (wanted - 1) * block < size,
                block > 0,
        ;
    }
}

/// One kernel keeps to the buffers that it is given.
pub broadcast proof fn lemma_launched(
    before: CudaRuntime,
    after: CudaRuntime,
    kernel: Kernel,
    config: LaunchConfig,
    stream: Option<Stream>,
    read: Set<usize>,
    written: Set<usize>,
)
    requires
        #[trigger] after.launched(before, kernel, config, stream),
        kernel_reads(kernel).subset_of(read.union(written)),
        written.contains(kernel_writes(kernel)),
    ensures
        #[trigger] after.confined(before, read, written),
{
    reveal(CudaRuntime::confined);
    let n = before.issued@.len() as int;
    assert(after.issued@.take(n) =~= before.issued@);
    assert forall|i: int|
        #![trigger after.issued@[i]]
        n <= i < after.issued@.len() implies within(after.issued@[i], read, written) by {
        if i < n + entry(stream).len() {
            assert(after.issued@[i] == entry(stream)[i - n]);
        }
    }
}

impl CudaRuntime {
    /// Issued exactly one kernel on the chosen stream.
    pub open spec fn launched(
        self,
        before: CudaRuntime,
        kernel: Kernel,
        config: LaunchConfig,
        stream: Option<Stream>,
    ) -> bool {
        self.issued@ == (before.issued@ + entry(stream)).push(
            Command::Launch { kernel, config, stream: chosen(stream) },
        )
    }

    /// Fills a range by index.
    pub(crate) fn fill(&mut self, target: DeviceSliceDescriptor, f: InitFn, stream: Option<Stream>)
        requires
            old(self).wf(),
            old(self).spans(target),
        ensures
            final(self).changed(*old(self), target.buffer, stream),
            final(self).draws == old(self).draws,
            final(self).mem(target.buffer) == spliced(
                old(self).mem(target.buffer),
                target.offset as int,
                initial(f, target.len as nat),
            ),
            final(self).launched(
                *old(self),
                Kernel::SpanSet { target, elements_per_thread: elementwise_share(target.len), f },
                elementwise_config(target.len),
                stream,
            ),
    {
        let ghost before = *self;
        proof {
            assert(addressable(before.buffers@[target.buffer as int] as int));
            lemma_elementwise_fits(target.len as int);
            assert(before.mem(target.buffer).len() == before.buffers@[target.buffer as int]);
        }
        let (config, share): (LaunchConfig, usize) = self.get_elementwise_launch_config(
            target.len,
            DEFAULT_BLOCK_SIZE,
        );
        self.enqueue(Kernel::SpanSet { target, elements_per_thread: share, f }, config, stream);
        assert(self.mem(target.buffer) =~= spliced(
            before.mem(target.buffer),
            target.offset as int,
            initial(f, target.len as nat),
        ));
    }

    /// Applies a function to every element of a range.
    pub(crate) fn assign_each(
        &mut self,
        target: DeviceSliceDescriptor,
        f: MapFn,
        stream: Option<Stream>,
    )
        requires
            old(self).wf(),
            old(self).spans(target),
        ensures
            final(self).changed(*old(self), target.buffer, stream),
            final(self).mem(target.buffer) == spliced(
                old(self).mem(target.buffer),
                target.offset as int,
                apply(f, old(self).device@.read(target)),
            ),
            final(self).launched(
                *old(self),
                Kernel::SliceForEach {
                    target,
                    elements_per_thread: elementwise_share(target.len),
                    f,
                },
                elementwise_config(target.len),
                stream,
            ),
    {
        let ghost before = *self;
        proof {
            assert(addressable(before.buffers@[target.buffer as int] as int));
            lemma_elementwise_fits(target.len as int);
            assert(before.mem(target.buffer).len() == before.buffers@[target.buffer as int]);
        }
        let (config, share): (LaunchConfig, usize) = self.get_elementwise_launch_config(
            target.len,
            DEFAULT_BLOCK_SIZE,
        );
        self.enqueue(Kernel::SliceForEach { target, elements_per_thread: share, f }, config, stream);
        assert(self.mem(target.buffer) =~= spliced(
            before.mem(target.buffer),
            target.offset as int,
            apply(f, before.device@.read(target)),
        ));
    }

    /// Combines every element of a range with its counterpart in another.
    pub(crate) fn combine_each(
        &mut self,
        target: DeviceSliceDescriptor,
        rhs: DeviceSliceDescriptor,
        f: BinaryFn,
        stream: Option<Stream>,
    )
        requires
            old(self).wf(),
            old(self).spans(target),
            old(self).spans(rhs),
            target.len == rhs.len,
        ensures
            final(self).changed(*old(self), target.buffer, stream),
            final(self).mem(target.buffer) == spliced(
                old(self).mem(target.buffer),
                target.offset as int,
                zip(f, old(self).device@.read(target), old(self).device@.read(rhs)),
            ),
            final(self).launched(
                *old(self),
                Kernel::SliceBinaryAssign {
                    target,
                    rhs,
                    elements_per_thread: elementwise_share(target.len),
                    f,
                },
                elementwise_config(target.len),
                stream,
            ),
    {
        let ghost before = *self;
        proof {
            assert(addressable(before.buffers@[target.buffer as int] as int));
            lemma_elementwise_fits(target.len as int);
            assert(before.mem(target.buffer).len() == before.buffers@[target.buffer as int]);
        }
        let (config, share): (LaunchConfig, usize) = self.get_elementwise_launch_config(
            target.len,
            DEFAULT_BLOCK_SIZE,
        );
        self.enqueue(
            Kernel::SliceBinaryAssign { target, rhs, elements_per_thread: share, f },
            config,
            stream,
        );
        assert(self.mem(target.buffer) =~= spliced(
            before.mem(target.buffer),
            target.offset as int,
            zip(f, before.device@.read(target), before.device@.read(rhs)),
        ));
    }

    /// Writes the combination of two ranges to a third.
    pub(crate) fn combine_into(
        &mut self,
        lhs: DeviceSliceDescriptor,
        rhs: DeviceSliceDescriptor,
        output: DeviceSliceDescriptor,
        f: BinaryFn,
        stream: Option<Stream>,
    )
        requires
            old(self).wf(),
            old(self).spans(lhs),
            old(self).spans(rhs),
            old(self).spans(output),
            lhs.len == rhs.len,
            lhs.len == output.len,
        ensures
            final(self).changed(*old(self), output.buffer, stream),
            final(self).mem(output.buffer) == spliced(
                old(self).mem(output.buffer),
                output.offset as int,
                zip(f, old(self).device@.read(lhs), old(self).device@.read(rhs)),
            ),
            final(self).launched(
                *old(self),
                Kernel::SliceBinary {
                    lhs,
                    rhs,
                    output,
                    elements_per_thread: elementwise_share(output.len),
                    f,
                },
                elementwise_config(output.len),
                stream,
            ),
    {
        let ghost before = *self;
        proof {
            assert(addressable(before.buffers@[output.buffer as int] as int));
            lemma_elementwise_fits(output.len as int);
            assert(before.mem(output.buffer).len() == before.buffers@[output.buffer as int]);
            assert(before.mem(lhs.buffer).len() == before.buffers@[lhs.buffer as int]);
        }
        let (config, share): (LaunchConfig, usize) = self.get_elementwise_launch_config(
            output.len,
            DEFAULT_BLOCK_SIZE,
        );
        self.enqueue(
            Kernel::SliceBinary { lhs, rhs, output, elements_per_thread: share, f },
            config,
            stream,
        );
        assert(self.mem(output.buffer) =~= spliced(
            before.mem(output.buffer),
            output.offset as int,
            zip(f, before.device@.read(lhs), before.device@.read(rhs)),
        ));
    }
}

} // verus!
