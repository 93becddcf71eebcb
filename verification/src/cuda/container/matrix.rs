//! Operations on owned matrices.

use vstd::prelude::*;

use super::{whole, Matrix};
use crate::cuda::algebra::{apply, initial, literals, product, row_apply, zip};
use crate::cuda::arith::{ceil_div, div_ceil, lemma_ceil_div};
use crate::cuda::command::{Kernel, LaunchConfig, MatrixBatchDescriptor, Stream};
use crate::cuda::elementwise::{elementwise_config, elementwise_share};
use crate::cuda::exact::vectors::{
    brought, greatest, law_masks_hide_later_columns, law_maxima_are_greatest,
    law_reduced_sums_are_sums, takes_maxima,
};
use crate::cuda::exact::{law_products_are_sums, lemma_sum_equal, sum, Exact};
use crate::cuda::meaning::{can_be, number, number_of, Reading};
use crate::cuda::ops::{BinaryFn, MapFn, RowFn};
use crate::cuda::runtime::{
    addressable, chosen, CudaRuntime, DeviceBuffer, InitType, DEFAULT_BLOCK_SIZE,
};
use crate::cuda::scalar::{Scalar, F32, NEGATIVE_INFINITY_BITS, ONE_BITS};
use crate::cuda::span::{batch_end, DeviceSpan, DeviceSpanMut, MatrixBatchSpan, MatrixBatchSpanMut};

verus! {

broadcast use {crate::cuda::runtime::group_streams, crate::cuda::elementwise::lemma_launched};

/// Blocks of a product launch: one for every pair of tiles in each direction.
pub open spec fn multiply_blocks(rows: int, cols: int) -> int {
    ceil_div(rows, 32) * ceil_div(cols, 32)
}

/// Shapes that the tensor units multiply: not empty, made of whole tiles, and
/// within one grid.
pub open spec fn multipliable(rows: int, inner: int, cols: int) -> bool {
    &&& rows > 0
    &&& cols > 0
    &&& rows % 16 == 0
    &&& inner % 16 == 0
    &&& cols % 16 == 0
    &&& multiply_blocks(rows, cols) <= u32::MAX
}

/// Shapes of a new matrix.
pub open spec fn shapeable(rows: int, cols: int) -> bool {
    addressable(rows * cols)
}

/// Shapes for which a grid has a block per row.
pub open spec fn row_blocks_fit(rows: int, cols: int) -> bool {
    rows * cols > 0 ==> rows <= u32::MAX
}

/// Shapes for which a grid has a block per square of thirty-two rows and columns.
pub open spec fn squares_fit(rows: int, cols: int) -> bool {
    rows * cols > 0 ==> ceil_div(rows, 32) <= u32::MAX && ceil_div(cols, 32) <= u32::MAX
}

/// A shape that a grid of products covers has its squares in a grid.
pub proof fn lemma_squares_fit(rows: int, cols: int)
    requires
        rows > 0,
        cols > 0,
        multiply_blocks(rows, cols) <= u32::MAX,
    ensures
        squares_fit(rows, cols),
        squares_fit(cols, rows),
        ceil_div(rows, 32) <= u32::MAX,
        ceil_div(cols, 32) <= u32::MAX,
{
    lemma_ceil_div(rows, 32);
    lemma_ceil_div(cols, 32);
    let a = ceil_div(rows, 32);
    let b = ceil_div(cols, 32);
    assert(a <= a * b && b <= a * b) by (nonlinear_arith)
        requires
            a > 0,
            b > 0,
    ;
}

/// The launch of a product.
pub open spec fn multiply_config(rows: int, cols: int) -> LaunchConfig {
    LaunchConfig::line(multiply_blocks(rows, cols), 128, 0)
}

impl Matrix {
    /// A view of equally spaced matrices inside this one.
    pub fn batch_span(
        &self,
        offset: usize,
        rows: usize,
        cols: usize,
        row_stride: usize,
        batch_stride: usize,
        batches: usize,
    ) -> (r: MatrixBatchSpan<'_>)
        requires
            rows > 0 && cols > 0 && batches > 0,
            batch_end(
                offset as int,
                rows as int,
                cols as int,
                row_stride as int,
                batch_stride as int,
                batches as int,
            ) <= self.buffer.len,
        ensures
            r.descriptor == (MatrixBatchDescriptor {
                buffer: self.buffer.id,
                offset,
                len: (self.buffer.len - offset) as usize,
                rows,
                cols,
                row_stride,
                batch_stride,
                batches,
            }),
    {
        MatrixBatchSpan::from_buffer(
            &self.buffer,
            offset,
            rows,
            cols,
            row_stride,
            batch_stride,
            batches,
        )
    }

    /// An exclusive view of equally spaced matrices inside this one.
    pub fn batch_span_mut(
        &mut self,
        offset: usize,
        rows: usize,
        cols: usize,
        row_stride: usize,
        batch_stride: usize,
        batches: usize,
    ) -> (r: MatrixBatchSpanMut<'_>)
        requires
            rows > 0 && cols > 0 && batches > 0,
            batch_end(
                offset as int,
                rows as int,
                cols as int,
                row_stride as int,
                batch_stride as int,
                batches as int,
            ) <= old(self).buffer.len,
        ensures
            *final(self) == *old(self),
            r.descriptor == (MatrixBatchDescriptor {
                buffer: old(self).buffer.id,
                offset,
                len: (old(self).buffer.len - offset) as usize,
                rows,
                cols,
                row_stride,
                batch_stride,
                batches,
            }),
    {
        MatrixBatchSpanMut::from_buffer(
            &mut self.buffer,
            offset,
            rows,
            cols,
            row_stride,
            batch_stride,
            batches,
        )
    }

    /// Brings the elements to the host and returns the download's number.
    pub fn to_host(&self, runtime: &mut CudaRuntime, stream: Option<Stream>) -> (r: usize)
        requires
            old(runtime).wf(),
            old(runtime).holds(*self),
        ensures
            r == old(runtime).device@.downloads.len(),
            final(runtime).fetched(*old(runtime), old(runtime).matrix(*self), stream),
    {
        runtime.download(&self.buffer, stream)
    }

    /// Replaces this matrix's contents without reallocating its device buffer.
    pub fn copy_from_host(&mut self, values: &Vec<F32>, runtime: &mut CudaRuntime, stream: Option<Stream>)
        requires
            old(runtime).wf(),
            old(runtime).holds(*old(self)),
            values@.len() == old(self).rows * old(self).cols,
        ensures
            *final(self) == *old(self),
            final(runtime).changed(*old(runtime), old(self).buffer.id, stream),
            final(runtime).matrix(*old(self)) == literals(values@),
    {
        runtime.upload(&self.buffer, values, stream);
    }

    /// Number of rows.
    pub fn rows(&self) -> (r: usize)
        ensures
            r == self.rows,
    {
        self.rows
    }

    /// Number of columns.
    pub fn cols(&self) -> (r: usize)
        ensures
            r == self.cols,
    {
        self.cols
    }

    /// The sum of the elements.
    pub fn sum(&self, runtime: &mut CudaRuntime, stream: Option<Stream>) -> (r: Scalar)
        requires
            old(runtime).wf(),
            old(runtime).holds(*self),
        ensures
            final(runtime).reduced(
                *old(runtime),
                r,
                F32 { bits: 0 },
                MapFn::Identity,
                BinaryFn::Add,
                old(runtime).matrix(*self),
                stream,
            ),
            forall|c: Exact|
                brought(c, final(runtime).device@.downloads) ==> #[trigger] c.scalar(r) == sum(
                    old(runtime).matrix(*self).len(),
                    |i: int| c.value(old(runtime).matrix(*self)[i]),
                ),
    {
        let ghost before = *runtime;
        let ghost items = before.matrix(*self);
        let r = self.map_reduce(runtime, F32 { bits: 0 }, MapFn::Identity, BinaryFn::Add, stream);
        proof {
            assert forall|c: Exact|
                brought(c, runtime.device@.downloads) implies #[trigger] c.scalar(r) == sum(
                items.len(),
                |i: int| c.value(items[i]),
            ) by {
                law_reduced_sums_are_sums(
                    c,
                    before,
                    *runtime,
                    r,
                    MapFn::Identity,
                    items,
                    stream,
                );
                lemma_sum_equal(
                    items.len(),
                    |i: int| c.applied(MapFn::Identity, c.value(items[i])),
                    |i: int| c.value(items[i]),
                );
            }
        }
        r
    }

    /// The largest element, or negative infinity if there is none.
    pub fn max(&self, runtime: &mut CudaRuntime, stream: Option<Stream>) -> (r: Scalar)
        requires
            old(runtime).wf(),
            old(runtime).holds(*self),
        ensures
            final(runtime).reduced(
                *old(runtime),
                r,
                F32 { bits: NEGATIVE_INFINITY_BITS },
                MapFn::Identity,
                BinaryFn::Max,
                old(runtime).matrix(*self),
                stream,
            ),
            forall|reading: Reading<Option<real>>|
                old(runtime).matrix(*self).len() > 0 && takes_maxima(reading)
                    ==> #[trigger] greatest(
                    reading,
                    final(runtime).device@.downloads.last()[0],
                    old(runtime).matrix(*self),
                ),
    {
        let ghost items = old(runtime).matrix(*self);
        let r = self.map_reduce(
            runtime,
            F32 { bits: NEGATIVE_INFINITY_BITS },
            MapFn::Identity,
            BinaryFn::Max,
            stream,
        );
        proof {
            assert forall|reading: Reading<Option<real>>|
                items.len() > 0 && takes_maxima(reading) implies #[trigger] greatest(
                reading,
                runtime.device@.downloads.last()[0],
                items,
            ) by {
                law_maxima_are_greatest(reading, items);
            }
        }
        r
    }

    /// The sum of the mapped elements.
    pub fn map_sum(&self, runtime: &mut CudaRuntime, map: MapFn, stream: Option<Stream>) -> (r:
        Scalar)
        requires
            old(runtime).wf(),
            old(runtime).holds(*self),
        ensures
            final(runtime).reduced(
                *old(runtime),
                r,
                F32 { bits: 0 },
                map,
                BinaryFn::Add,
                old(runtime).matrix(*self),
                stream,
            ),
            forall|c: Exact|
                brought(c, final(runtime).device@.downloads) ==> #[trigger] c.scalar(r) == sum(
                    old(runtime).matrix(*self).len(),
                    |i: int| c.applied(map, c.value(old(runtime).matrix(*self)[i])),
                ),
    {
        let ghost before = *runtime;
        let ghost items = before.matrix(*self);
        let ghost made = map;
        let r = self.map_reduce(runtime, F32 { bits: 0 }, map, BinaryFn::Add, stream);
        proof {
            assert forall|c: Exact|
                brought(c, runtime.device@.downloads) implies #[trigger] c.scalar(r) == sum(
                items.len(),
                |i: int| c.applied(made, c.value(items[i])),
            ) by {
                law_reduced_sums_are_sums(c, before, *runtime, r, made, items, stream);
            }
        }
        r
    }

    /// Folds the mapped elements.
    pub fn map_reduce(
        &self,
        runtime: &mut CudaRuntime,
        identity: F32,
        map: MapFn,
        reduce: BinaryFn,
        stream: Option<Stream>,
    ) -> (r: Scalar)
        requires
            old(runtime).wf(),
            old(runtime).holds(*self),
        ensures
            final(runtime).reduced(
                *old(runtime),
                r,
                identity,
                map,
                reduce,
                old(runtime).matrix(*self),
                stream,
            ),
    {
        proof {
            runtime.lemma_whole(self.buffer);
        }
        DeviceSpan::from_buffer(&self.buffer, 0, self.buffer.len()).map_reduce(
            runtime,
            identity,
            map,
            reduce,
            stream,
        )
    }

    /// Folds the mapped pairs of elements.
    pub fn zip_map_reduce(
        &self,
        rhs: &Matrix,
        runtime: &mut CudaRuntime,
        identity: F32,
        map: BinaryFn,
        reduce: BinaryFn,
        stream: Option<Stream>,
    ) -> (r: Scalar)
        requires
            old(runtime).wf(),
            old(runtime).holds(*self),
            old(runtime).holds(*rhs),
            self.rows == rhs.rows,
            self.cols == rhs.cols,
        ensures
            final(runtime).zip_reduced(
                *old(runtime),
                r,
                identity,
                map,
                reduce,
                old(runtime).matrix(*self),
                old(runtime).matrix(*rhs),
                stream,
            ),
    {
        proof {
            runtime.lemma_whole(self.buffer);
            runtime.lemma_whole(rhs.buffer);
        }
        let lhs = DeviceSpan::from_buffer(&self.buffer, 0, self.buffer.len());
        let rhs = DeviceSpan::from_buffer(&rhs.buffer, 0, rhs.buffer.len());
        lhs.zip_map_reduce(&rhs, runtime, identity, map, reduce, stream)
    }


    /// Applies a function to every element. Nothing is issued for an empty
    /// matrix.
    pub fn for_each(&mut self, runtime: &mut CudaRuntime, f: MapFn, stream: Option<Stream>)
        requires
            old(runtime).wf(),
            old(runtime).holds(*old(self)),
        ensures
            *final(self) == *old(self),
            final(runtime).changed(*old(runtime), old(self).buffer.id, stream),
            final(runtime).matrix(*old(self)) == apply(f, old(runtime).matrix(*old(self))),
            old(self).buffer.len == 0 ==> *final(runtime) == *old(runtime),
            old(self).buffer.len > 0 ==> final(runtime).launched(
                *old(runtime),
                Kernel::SliceForEach {
                    target: whole(old(self).buffer),
                    elements_per_thread: elementwise_share(old(self).buffer.len),
                    f,
                },
                elementwise_config(old(self).buffer.len),
                stream,
            ),
            final(runtime).confined(*old(runtime), Set::empty(), set![old(self).buffer.id]),
    {
        proof {
            runtime.lemma_whole(self.buffer);
            runtime.lemma_ran_on_nothing(chosen(stream));
            runtime.lemma_confined_nothing(Set::empty(), set![self.buffer.id]);
        }
        if self.buffer.is_empty() {
            assert(runtime.matrix(*self) =~= apply(f, runtime.matrix(*self)));
            return;
        }
        let len: usize = self.buffer.len();
        let mut span = DeviceSpanMut::from_buffer(&mut self.buffer, 0, len);
        span.for_each(runtime, f, stream);
    }

    /// Multiplies every element.
    pub fn scale(&mut self, value: Scalar, runtime: &mut CudaRuntime, stream: Option<Stream>)
        requires
            old(runtime).wf(),
            old(runtime).holds(*old(self)),
        ensures
            *final(self) == *old(self),
            final(runtime).changed(*old(runtime), old(self).buffer.id, stream),
            final(runtime).matrix(*old(self)) == apply(
                MapFn::Scale(value),
                old(runtime).matrix(*old(self)),
            ),
            final(runtime).confined(*old(runtime), Set::empty(), set![old(self).buffer.id]),
            forall|c: Exact, i: int|
                0 <= i < old(runtime).matrix(*old(self)).len() ==> #[trigger] c.value(
                    final(runtime).matrix(*old(self))[i],
                ) == c.value(old(runtime).matrix(*old(self))[i]) * c.scalar(value),
    {
        self.for_each(runtime, MapFn::Scale(value), stream);
    }

    /// Adds a value to every element.
    pub fn add_scalar(&mut self, value: Scalar, runtime: &mut CudaRuntime, stream: Option<Stream>)
        requires
            old(runtime).wf(),
            old(runtime).holds(*old(self)),
        ensures
            *final(self) == *old(self),
            final(runtime).changed(*old(runtime), old(self).buffer.id, stream),
            final(runtime).matrix(*old(self)) == apply(
                MapFn::Shift(value),
                old(runtime).matrix(*old(self)),
            ),
            forall|c: Exact, i: int|
                0 <= i < old(runtime).matrix(*old(self)).len() ==> #[trigger] c.value(
                    final(runtime).matrix(*old(self))[i],
                ) == c.value(old(runtime).matrix(*old(self))[i]) + c.scalar(value),
    {
        self.for_each(runtime, MapFn::Shift(value), stream);
    }

    /// Applies the numerically stable logistic sigmoid in place.
    pub fn sigmoid(&mut self, runtime: &mut CudaRuntime, stream: Option<Stream>)
        requires
            old(runtime).wf(),
            old(runtime).holds(*old(self)),
        ensures
            *final(self) == *old(self),
            final(runtime).changed(*old(runtime), old(self).buffer.id, stream),
            final(runtime).matrix(*old(self)) == apply(
                MapFn::Sigmoid,
                old(runtime).matrix(*old(self)),
            ),
            forall|c: Exact, i: int|
                0 <= i < old(runtime).matrix(*old(self)).len() ==> #[trigger] c.value(
                    final(runtime).matrix(*old(self))[i],
                ) == (c.sigmoid)(c.value(old(runtime).matrix(*old(self))[i])),
    {
        self.for_each(runtime, MapFn::Sigmoid, stream);
    }

    /// Turns every element into one where it reaches the threshold and into
    /// zero elsewhere.
    pub fn threshold(&mut self, threshold: F32, runtime: &mut CudaRuntime, stream: Option<Stream>)
        requires
            old(runtime).wf(),
            old(runtime).holds(*old(self)),
            threshold.finite(),
            0 <= threshold.value() < (F32 { bits: ONE_BITS }).value(),
        ensures
            *final(self) == *old(self),
            final(runtime).changed(*old(runtime), old(self).buffer.id, stream),
            final(runtime).matrix(*old(self)) == apply(
                MapFn::Threshold(threshold),
                old(runtime).matrix(*old(self)),
            ),
            forall|c: Exact, i: int|
                0 <= i < old(runtime).matrix(*old(self)).len() ==> #[trigger] c.value(
                    final(runtime).matrix(*old(self))[i],
                ) == (if c.value(old(runtime).matrix(*old(self))[i]) >= number(threshold) {
                    1int as real
                } else {
                    0int as real
                }),
    {
        self.for_each(runtime, MapFn::Threshold(threshold), stream);
    }

    /// Combines every element with its counterpart.
    pub fn binary_assign(&mut self, rhs: &Matrix, f: BinaryFn, runtime: &mut CudaRuntime, stream: Option<Stream>)
        requires
            old(runtime).wf(),
            old(runtime).holds(*old(self)),
            old(runtime).holds(*rhs),
            old(self).rows == rhs.rows,
            old(self).cols == rhs.cols,
        ensures
            *final(self) == *old(self),
            final(runtime).changed(*old(runtime), old(self).buffer.id, stream),
            final(runtime).matrix(*old(self)) == zip(
                f,
                old(runtime).matrix(*old(self)),
                old(runtime).matrix(*rhs),
            ),
            final(runtime).launched(
                *old(runtime),
                Kernel::SliceBinaryAssign {
                    target: whole(old(self).buffer),
                    rhs: whole(rhs.buffer),
                    elements_per_thread: elementwise_share(old(self).buffer.len),
                    f,
                },
                elementwise_config(old(self).buffer.len),
                stream,
            ),
    {
        proof {
            runtime.lemma_whole(self.buffer);
            runtime.lemma_whole(rhs.buffer);
        }
        let len: usize = self.buffer.len();
        let target = DeviceSpanMut::from_buffer(&mut self.buffer, 0, len);
        let rhs = DeviceSpan::from_buffer(&rhs.buffer, 0, len);
        runtime.combine_each(target.descriptor(), rhs.descriptor(), f, stream);
    }

    /// Hides from every row the columns after the row's own.
    pub fn causal_mask(&mut self, runtime: &mut CudaRuntime, stream: Option<Stream>)
        requires
            old(runtime).wf(),
            old(runtime).holds(*old(self)),
            old(self).rows <= u32::MAX,
            old(self).rows > 0 ==> 0 < old(self).cols <= DEFAULT_BLOCK_SIZE,
        ensures
            *final(self) == *old(self),
            old(self).rows == 0 ==> *final(runtime) == *old(runtime),
            old(self).rows > 0 ==> final(runtime).changed(*old(runtime), old(self).buffer.id, stream)
                && final(runtime).matrix(*old(self)) == row_apply(
                RowFn::CausalMask(old(self).rows),
                old(runtime).matrix(*old(self)),
                old(self).cols as nat,
            ),
            forall|c: Exact, row: int, col: int|
                0 <= row < old(self).rows && 0 <= col < old(self).cols ==> #[trigger] c.hidden(
                    final(runtime).matrix(*old(self)),
                    old(self).cols as int,
                    row,
                    col,
                ) == (c.hidden(
                    old(runtime).matrix(*old(self)),
                    old(self).cols as int,
                    row,
                    col,
                ) || col > row),
    {
        if self.rows == 0 {
            return;
        }
        let ghost before = *runtime;
        let rows: usize = self.rows;
        let threads: u32 = self.cols as u32;
        self.assign_rows(RowFn::CausalMask(rows), threads, runtime, stream);
        proof {
            let a = before.matrix(*self);
            before.lemma_whole(self.buffer);
            assert forall|c: Exact, row: int, col: int|
                0 <= row < self.rows && 0 <= col < self.cols implies #[trigger] c.hidden(
                runtime.matrix(*self),
                self.cols as int,
                row,
                col,
            ) == (c.hidden(a, self.cols as int, row, col) || col > row) by {
                law_masks_hide_later_columns(
                    c,
                    rows,
                    a,
                    self.rows as nat,
                    self.cols as nat,
                    row,
                    col,
                );
                assert(row % (rows as int) == row) by (nonlinear_arith)
                    requires
                        0 <= row < rows,
                ;
            }
        }
    }

    /// Masks stacked square matrices, each on its own.
    pub fn causal_mask_heads(&mut self, head_rows: usize, runtime: &mut CudaRuntime, stream: Option<Stream>)
        requires
            old(runtime).wf(),
            old(runtime).holds(*old(self)),
            0 < head_rows <= DEFAULT_BLOCK_SIZE,
            0 < old(self).rows <= u32::MAX,
            old(self).rows % head_rows == 0,
            old(self).cols == head_rows,
        ensures
            *final(self) == *old(self),
            final(runtime).changed(*old(runtime), old(self).buffer.id, stream),
            final(runtime).matrix(*old(self)) == row_apply(
                RowFn::CausalMask(head_rows),
                old(runtime).matrix(*old(self)),
                old(self).cols as nat,
            ),
            final(runtime).confined(*old(runtime), Set::empty(), set![old(self).buffer.id]),
            forall|c: Exact, row: int, col: int|
                0 <= row < old(self).rows && 0 <= col < old(self).cols ==> #[trigger] c.hidden(
                    final(runtime).matrix(*old(self)),
                    old(self).cols as int,
                    row,
                    col,
                ) == (c.hidden(
                    old(runtime).matrix(*old(self)),
                    old(self).cols as int,
                    row,
                    col,
                ) || col > row % (head_rows as int)),
    {
        let ghost before = *runtime;
        let threads: u32 = self.cols as u32;
        self.assign_rows(RowFn::CausalMask(head_rows), threads, runtime, stream);
        proof {
            let a = before.matrix(*self);
            before.lemma_whole(self.buffer);
            assert forall|c: Exact, row: int, col: int|
                0 <= row < self.rows && 0 <= col < self.cols implies #[trigger] c.hidden(
                runtime.matrix(*self),
                self.cols as int,
                row,
                col,
            ) == (c.hidden(a, self.cols as int, row, col) || col > row % (head_rows as int)) by {
                law_masks_hide_later_columns(
                    c,
                    head_rows,
                    a,
                    self.rows as nat,
                    self.cols as nat,
                    row,
                    col,
                );
            }
        }
    }

    /// Rotates pairs of columns by the row's position.
    pub fn rope_encoding(&mut self, runtime: &mut CudaRuntime, stream: Option<Stream>)
        requires
            old(runtime).wf(),
            old(runtime).holds(*old(self)),
            old(self).rows <= u32::MAX,
            old(self).rows > 0 ==> 0 < old(self).cols <= DEFAULT_BLOCK_SIZE && old(self).cols % 2
                == 0,
        ensures
            *final(self) == *old(self),
            old(self).rows == 0 ==> *final(runtime) == *old(runtime),
            old(self).rows > 0 ==> final(runtime).changed(*old(runtime), old(self).buffer.id, stream)
                && final(runtime).matrix(*old(self)) == row_apply(
                RowFn::Rope,
                old(runtime).matrix(*old(self)),
                old(self).cols as nat,
            ),
    {
        if self.rows == 0 {
            return;
        }
        let threads: u32 = self.cols as u32 / 2;
        self.assign_rows(RowFn::Rope, threads, runtime, stream);
    }

    /// Replaces every row by the result of a row function, with one block of
    /// the given size per row.
    pub(crate) fn assign_rows(&mut self, f: RowFn, threads: u32, runtime: &mut CudaRuntime, stream: Option<Stream>)
        requires
            old(runtime).wf(),
            old(runtime).holds(*old(self)),
            0 < old(self).rows <= u32::MAX,
            old(self).cols > 0,
        ensures
            *final(self) == *old(self),
            final(runtime).changed(*old(runtime), old(self).buffer.id, stream),
            final(runtime).matrix(*old(self)) == row_apply(
                f,
                old(runtime).matrix(*old(self)),
                old(self).cols as nat,
            ),
            final(runtime).launched(
                *old(runtime),
                Kernel::RowAssign { matrix: whole(old(self).buffer), cols: old(self).cols, f },
                LaunchConfig::line(old(self).rows as int, threads as int, 0),
                stream,
            ),
    {
        let ghost before = *runtime;
        proof {
            runtime.lemma_whole(self.buffer);
        }
        let config = LaunchConfig::new_1d(self.rows as u32, threads, 0);
        let cols: usize = self.cols;
        let len: usize = self.buffer.len();
        let matrix = DeviceSpanMut::from_buffer(&mut self.buffer, 0, len);
        runtime.enqueue(
            Kernel::RowAssign { matrix: matrix.descriptor(), cols, f },
            config,
            stream,
        );
        assert(runtime.matrix(*self) =~= row_apply(f, before.matrix(*self), cols as nat));
    }
}

impl CudaRuntime {
    /// A matrix of host values.
    pub fn matrix_from_host(&mut self, values: &Vec<F32>, rows: usize, cols: usize, stream: Option<Stream>) -> (r:
        Matrix)
        requires
            old(self).wf(),
            shapeable(rows as int, cols as int),
            values@.len() == rows * cols,
        ensures
            final(self).grown(*old(self), r.buffer.id, stream),
            final(self).holds(r),
            r.rows == rows,
            r.cols == cols,
            final(self).matrix(r) == literals(values@),
    {
        let ghost before = *self;
        let buffer = self.allocate_uninit_buffer(values.len());
        assert(self.grown(before, buffer.id, stream));
        self.upload(&buffer, values, stream);
        Matrix { buffer, rows, cols }
    }

    /// The product of two matrices.
    pub fn matrix_multiply(&mut self, mat1: &Matrix, mat2: &Matrix, stream: Option<Stream>) -> (r: Matrix)
        requires
            old(self).wf(),
            old(self).holds(*mat1),
            old(self).holds(*mat2),
            mat1.cols == mat2.rows,
            multipliable(mat1.rows as int, mat1.cols as int, mat2.cols as int),
            addressable(mat1.rows * mat2.cols),
        ensures
            final(self).grown(*old(self), r.buffer.id, stream),
            final(self).holds(r),
            r.rows == mat1.rows,
            r.cols == mat2.cols,
            final(self).matrix(r) == product(
                old(self).matrix(*mat1),
                old(self).matrix(*mat2),
                mat1.rows as nat,
                mat1.cols as nat,
                mat2.cols as nat,
            ),
            forall|c: Exact, row: int, col: int|
                0 <= row < mat1.rows && 0 <= col < mat2.cols ==> #[trigger] c.entry(
                    final(self).matrix(r),
                    mat2.cols as int,
                    row,
                    col,
                ) == sum(
                    mat1.cols as nat,
                    |k: int|
                        c.entry(old(self).matrix(*mat1), mat1.cols as int, row, k) * c.entry(
                            old(self).matrix(*mat2),
                            mat2.cols as int,
                            k,
                            col,
                        ),
                ),
    {
        let ghost before = *self;
        let mut result = self.new_uninit_matrix(mat1.rows, mat2.cols);
        assert(self.grown(before, result.buffer.id, stream));
        self.matrix_multiply_into(mat1, mat2, &mut result, stream);
        result
    }

    /// Writes the product of two matrices to a third.
    pub fn matrix_multiply_into(
        &mut self,
        mat1: &Matrix,
        mat2: &Matrix,
        result: &mut Matrix,
        stream: Option<Stream>,
    )
        requires
            old(self).wf(),
            old(self).holds(*mat1),
            old(self).holds(*mat2),
            old(self).holds(*old(result)),
            mat1.cols == mat2.rows,
            old(result).rows == mat1.rows,
            old(result).cols == mat2.cols,
            multipliable(mat1.rows as int, mat1.cols as int, mat2.cols as int),
        ensures
            *final(result) == *old(result),
            final(self).changed(*old(self), old(result).buffer.id, stream),
            final(self).matrix(*old(result)) == product(
                old(self).matrix(*mat1),
                old(self).matrix(*mat2),
                mat1.rows as nat,
                mat1.cols as nat,
                mat2.cols as nat,
            ),
            final(self).launched(
                *old(self),
                Kernel::Multiply {
                    lhs: whole(mat1.buffer),
                    rhs: whole(mat2.buffer),
                    result: whole(old(result).buffer),
                    inner: mat1.cols,
                    rows: mat1.rows,
                    cols: mat2.cols,
                },
                multiply_config(mat1.rows as int, mat2.cols as int),
                stream,
            ),
            forall|c: Exact, row: int, col: int|
                0 <= row < mat1.rows && 0 <= col < mat2.cols ==> #[trigger] c.entry(
                    final(self).matrix(*old(result)),
                    mat2.cols as int,
                    row,
                    col,
                ) == sum(
                    mat1.cols as nat,
                    |k: int|
                        c.entry(old(self).matrix(*mat1), mat1.cols as int, row, k) * c.entry(
                            old(self).matrix(*mat2),
                            mat2.cols as int,
                            k,
                            col,
                        ),
                ),
    {
        let ghost before = *self;
        proof {
            self.lemma_whole(mat1.buffer);
            self.lemma_whole(mat2.buffer);
            self.lemma_whole(result.buffer);
            lemma_ceil_div(mat1.rows as int, 32);
            lemma_ceil_div(mat2.cols as int, 32);
        }
        let rows: usize = mat1.rows;
        let cols: usize = mat2.cols;
        let inner: usize = mat1.cols;
        let block_rows: usize = div_ceil(rows, 32);
        let block_cols: usize = div_ceil(cols, 32);
        let config = LaunchConfig::new_1d((block_rows * block_cols) as u32, 128, 0);
        let lhs = DeviceSpan::from_buffer(&mat1.buffer, 0, mat1.buffer.len());
        let rhs = DeviceSpan::from_buffer(&mat2.buffer, 0, mat2.buffer.len());
        let output = DeviceSpanMut::from_buffer(&mut result.buffer, 0, rows * cols);
        self.enqueue(
            Kernel::Multiply {
                lhs: lhs.descriptor(),
                rhs: rhs.descriptor(),
                result: output.descriptor(),
                inner,
                rows,
                cols,
            },
            config,
            stream,
        );
        assert(self.matrix(*result) =~= product(
            before.matrix(*mat1),
            before.matrix(*mat2),
            rows as nat,
            inner as nat,
            cols as nat,
        ));
        proof {
            let a = before.matrix(*mat1);
            let b = before.matrix(*mat2);
            assert forall|c: Exact, row: int, col: int|
                0 <= row < mat1.rows && 0 <= col < mat2.cols implies #[trigger] c.entry(
                self.matrix(*result),
                mat2.cols as int,
                row,
                col,
            ) == sum(
                mat1.cols as nat,
                |k: int|
                    c.entry(a, mat1.cols as int, row, k) * c.entry(b, mat2.cols as int, k, col),
            ) by {
                law_products_are_sums(
                    c,
                    a,
                    b,
                    rows as nat,
                    inner as nat,
                    cols as nat,
                    row,
                    col,
                );
                lemma_sum_equal(
                    inner as nat,
                    |k: int|
                        c.entry(a, inner as nat as int, row, k) * c.entry(
                            b,
                            cols as nat as int,
                            k,
                            col,
                        ),
                    |k: int|
                        c.entry(a, mat1.cols as int, row, k) * c.entry(b, mat2.cols as int, k, col),
                );
            }
        }
    }

    /// Multiplies batches of matrices at regular distances. Where the result's
    /// positions are disjoint, each holds its product and the rest of the
    /// buffer is unchanged.
    pub fn matrix_multiply_batched_strided_into(
        &mut self,
        mat1: MatrixBatchSpan<'_>,
        mat2: MatrixBatchSpan<'_>,
        result: MatrixBatchSpanMut<'_>,
        stream: Option<Stream>,
    )
        requires
            old(self).wf(),
            old(self).spans_batch(mat1.descriptor),
            old(self).spans_batch(mat2.descriptor),
            old(self).spans_batch(result.descriptor),
            mat1.descriptor.cols == mat2.descriptor.rows,
            mat1.descriptor.rows == result.descriptor.rows,
            mat2.descriptor.cols == result.descriptor.cols,
            mat1.descriptor.batches == mat2.descriptor.batches,
            mat1.descriptor.batches == result.descriptor.batches,
            mat1.descriptor.rows % 16 == 0,
            mat2.descriptor.cols % 16 == 0,
            mat1.descriptor.cols % 16 == 0,
            mat1.descriptor.batches * multiply_blocks(
                mat1.descriptor.rows as int,
                mat2.descriptor.cols as int,
            ) <= u32::MAX,
        ensures
            final(self).changed(*old(self), result.descriptor.buffer, stream),
            result.descriptor.disjoint() ==> (forall|b: int, r: int, c: int|
                #![trigger result.descriptor.at(b, r, c)]
                result.descriptor.contains(b, r, c) ==> final(self).mem(
                    result.descriptor.buffer,
                )[result.descriptor.at(b, r, c)] == old(self).device@.batch_dot(
                    mat1.descriptor,
                    mat2.descriptor,
                    b,
                    r,
                    c,
                )),
            forall|i: int|
                0 <= i < old(self).mem(result.descriptor.buffer).len() && !(exists|b: int, r: int, c: int|
                    #[trigger] result.descriptor.at(b, r, c) == i && result.descriptor.contains(
                        b,
                        r,
                        c,
                    )) ==> #[trigger] final(self).mem(result.descriptor.buffer)[i] == old(self).mem(
                    result.descriptor.buffer,
                )[i],
            final(self).launched(
                *old(self),
                Kernel::MultiplyBatched {
                    lhs: mat1.descriptor,
                    rhs: mat2.descriptor,
                    result: result.descriptor,
                },
                LaunchConfig::line(
                    mat1.descriptor.batches * multiply_blocks(
                        mat1.descriptor.rows as int,
                        mat2.descriptor.cols as int,
                    ),
                    128,
                    0,
                ),
                stream,
            ),
    {
        let ghost before = *self;
        let lhs = mat1.descriptor();
        let rhs = mat2.descriptor();
        let output = result.descriptor();
        proof {
            lemma_ceil_div(lhs.rows as int, 32);
            lemma_ceil_div(rhs.cols as int, 32);
            let blocks = multiply_blocks(lhs.rows as int, rhs.cols as int);
            assert(blocks >= 0) by (nonlinear_arith)
                requires
                    blocks == ceil_div(lhs.rows as int, 32) * ceil_div(rhs.cols as int, 32),
                    ceil_div(lhs.rows as int, 32) >= 0,
                    ceil_div(rhs.cols as int, 32) >= 0,
            ;
            assert(blocks <= lhs.batches * blocks) by (nonlinear_arith)
                requires
                    lhs.batches >= 1,
                    blocks >= 0,
            ;
        }
        let blocks_per_batch: usize = div_ceil(lhs.rows, 32) * div_ceil(rhs.cols, 32);
        let grid: usize = lhs.batches * blocks_per_batch;
        let config = LaunchConfig::new_1d(grid as u32, 128, 0);
        self.enqueue(Kernel::MultiplyBatched { lhs, rhs, result: output }, config, stream);
        proof {
            let d = output;
            let full = before.device@.batch_product(lhs, rhs, d);
            assert(before.mem(d.buffer).len() == before.buffers@[d.buffer as int]);
            assert(self.mem(d.buffer) =~= full);
            if d.disjoint() {
                assert forall|b: int, r: int, c: int|
                    #![trigger d.at(b, r, c)]
                    d.contains(b, r, c) implies self.mem(d.buffer)[d.at(b, r, c)]
                    == before.device@.batch_dot(lhs, rhs, b, r, c) by {
                    let i = d.at(b, r, c);
                    lemma_batch_position(d, b, r, c);
                    let (b2, r2, c2) = choose|b: int, r: int, c: int| #[trigger]
                        d.at(b, r, c) == i && d.contains(b, r, c);
                    assert(d.at(b2, r2, c2) == i && d.contains(b2, r2, c2));
                    assert(b2 == b && r2 == r && c2 == c);
                }
            }
        }
    }

    /// The sum of two matrices.
    pub fn matrix_add(&mut self, mat1: &Matrix, mat2: &Matrix, stream: Option<Stream>) -> (r:
        Matrix)
        requires
            old(self).wf(),
            old(self).holds(*mat1),
            old(self).holds(*mat2),
            mat1.rows == mat2.rows,
            mat1.cols == mat2.cols,
        ensures
            final(self).grown(*old(self), r.buffer.id, stream),
            final(self).holds(r),
            r.rows == mat1.rows,
            r.cols == mat1.cols,
            final(self).matrix(r) == zip(
                BinaryFn::Add,
                old(self).matrix(*mat1),
                old(self).matrix(*mat2),
            ),
            forall|c: Exact, i: int|
                0 <= i < old(self).matrix(*mat1).len() ==> #[trigger] c.value(
                    final(self).matrix(r)[i],
                ) == c.value(old(self).matrix(*mat1)[i]) + c.value(old(self).matrix(*mat2)[i]),
    {
        self.matrix_binary(mat1, mat2, BinaryFn::Add, stream)
    }

    /// The difference of two matrices.
    pub fn matrix_sub(&mut self, mat1: &Matrix, mat2: &Matrix, stream: Option<Stream>) -> (r:
        Matrix)
        requires
            old(self).wf(),
            old(self).holds(*mat1),
            old(self).holds(*mat2),
            mat1.rows == mat2.rows,
            mat1.cols == mat2.cols,
        ensures
            final(self).grown(*old(self), r.buffer.id, stream),
            final(self).holds(r),
            r.rows == mat1.rows,
            r.cols == mat1.cols,
            final(self).matrix(r) == zip(
                BinaryFn::Sub,
                old(self).matrix(*mat1),
                old(self).matrix(*mat2),
            ),
            forall|c: Exact, i: int|
                0 <= i < old(self).matrix(*mat1).len() ==> #[trigger] c.value(
                    final(self).matrix(r)[i],
                ) == c.value(old(self).matrix(*mat1)[i]) - c.value(old(self).matrix(*mat2)[i]),
    {
        self.matrix_binary(mat1, mat2, BinaryFn::Sub, stream)
    }

    /// The element-wise product of two matrices.
    pub fn matrix_mul(&mut self, mat1: &Matrix, mat2: &Matrix, stream: Option<Stream>) -> (r:
        Matrix)
        requires
            old(self).wf(),
            old(self).holds(*mat1),
            old(self).holds(*mat2),
            mat1.rows == mat2.rows,
            mat1.cols == mat2.cols,
        ensures
            final(self).grown(*old(self), r.buffer.id, stream),
            final(self).holds(r),
            r.rows == mat1.rows,
            r.cols == mat1.cols,
            final(self).matrix(r) == zip(
                BinaryFn::Mul,
                old(self).matrix(*mat1),
                old(self).matrix(*mat2),
            ),
            forall|c: Exact, i: int|
                0 <= i < old(self).matrix(*mat1).len() ==> #[trigger] c.value(
                    final(self).matrix(r)[i],
                ) == c.value(old(self).matrix(*mat1)[i]) * c.value(old(self).matrix(*mat2)[i]),
    {
        self.matrix_binary(mat1, mat2, BinaryFn::Mul, stream)
    }

    /// The element-wise quotient of two matrices.
    pub fn matrix_div(&mut self, mat1: &Matrix, mat2: &Matrix, stream: Option<Stream>) -> (r:
        Matrix)
        requires
            old(self).wf(),
            old(self).holds(*mat1),
            old(self).holds(*mat2),
            mat1.rows == mat2.rows,
            mat1.cols == mat2.cols,
        ensures
            final(self).grown(*old(self), r.buffer.id, stream),
            final(self).holds(r),
            r.rows == mat1.rows,
            r.cols == mat1.cols,
            final(self).matrix(r) == zip(
                BinaryFn::Div,
                old(self).matrix(*mat1),
                old(self).matrix(*mat2),
            ),
            forall|c: Exact, i: int|
                0 <= i < old(self).matrix(*mat1).len() ==> #[trigger] c.value(
                    final(self).matrix(r)[i],
                ) == c.value(old(self).matrix(*mat1)[i]) / c.value(old(self).matrix(*mat2)[i]),
    {
        self.matrix_binary(mat1, mat2, BinaryFn::Div, stream)
    }

    /// Combines two matrices element by element.
    pub fn matrix_binary(&mut self, mat1: &Matrix, mat2: &Matrix, f: BinaryFn, stream: Option<Stream>) -> (r:
        Matrix)
        requires
            old(self).wf(),
            old(self).holds(*mat1),
            old(self).holds(*mat2),
            mat1.rows == mat2.rows,
            mat1.cols == mat2.cols,
        ensures
            final(self).grown(*old(self), r.buffer.id, stream),
            final(self).holds(r),
            r.rows == mat1.rows,
            r.cols == mat1.cols,
            final(self).matrix(r) == zip(f, old(self).matrix(*mat1), old(self).matrix(*mat2)),
    {
        let ghost before = *self;
        proof {
            self.lemma_whole(mat1.buffer);
            self.lemma_whole(mat2.buffer);
        }
        let rows: usize = mat1.rows;
        let cols: usize = mat1.cols;
        let mut buffer = self.get_uninit_buffer(rows * cols);
        assert(self.grown(before, buffer.id, stream));
        proof {
            self.lemma_whole(mat1.buffer);
            self.lemma_whole(mat2.buffer);
            self.lemma_whole(buffer);
        }
        let lhs = DeviceSpan::from_buffer(&mat1.buffer, 0, mat1.buffer.len());
        let rhs = DeviceSpan::from_buffer(&mat2.buffer, 0, mat2.buffer.len());
        let output = DeviceSpanMut::from_buffer(&mut buffer, 0, rows * cols);
        self.combine_into(lhs.descriptor(), rhs.descriptor(), output.descriptor(), f, stream);
        Matrix { buffer, rows, cols }
    }

    /// Applies a function to every element of a matrix.
    pub(crate) fn map_matrix(&mut self, target: &Matrix, f: MapFn, stream: Option<Stream>)
        requires
            old(self).wf(),
            old(self).holds(*target),
        ensures
            final(self).changed(*old(self), target.buffer.id, stream),
            final(self).matrix(*target) == apply(f, old(self).matrix(*target)),
    {
        proof {
            self.lemma_whole(target.buffer);
            self.lemma_ran_on_nothing(chosen(stream));
        }
        if target.buffer.is_empty() {
            assert(self.matrix(*target) =~= apply(f, self.matrix(*target)));
            return;
        }
        let span = DeviceSpan::from_buffer(&target.buffer, 0, target.buffer.len());
        self.assign_each(span.descriptor(), f, stream);
    }

    /// Combines every element of a matrix with its counterpart in another.
    pub(crate) fn combine_matrix(
        &mut self,
        target: &Matrix,
        rhs: &Matrix,
        f: BinaryFn,
        stream: Option<Stream>,
    )
        requires
            old(self).wf(),
            old(self).holds(*target),
            old(self).holds(*rhs),
            target.rows == rhs.rows,
            target.cols == rhs.cols,
        ensures
            final(self).changed(*old(self), target.buffer.id, stream),
            final(self).matrix(*target) == zip(
                f,
                old(self).matrix(*target),
                old(self).matrix(*rhs),
            ),
    {
        proof {
            self.lemma_whole(target.buffer);
            self.lemma_whole(rhs.buffer);
        }
        let lhs = DeviceSpan::from_buffer(&target.buffer, 0, target.buffer.len());
        let rhs = DeviceSpan::from_buffer(&rhs.buffer, 0, rhs.buffer.len());
        self.combine_each(lhs.descriptor(), rhs.descriptor(), f, stream);
    }

    /// Consumes a matrix and returns its allocation to the runtime pool.
    pub fn recycle_matrix(&mut self, matrix: Matrix)
        requires
            old(self).wf(),
            old(self).holds(matrix),
        ensures
            final(self).shrunk(*old(self), matrix.buffer.id),
            matrix.buffer.len > 0 ==> final(self).pooled(matrix.buffer.len) == old(self).pooled(
                matrix.buffer.len,
            ).push(matrix.buffer),
            final(self).confined(*old(self), Set::empty(), set![matrix.buffer.id]),
    {
        self.recycle_buffer(matrix.buffer);
    }

    /// Consumes a matrix and frees its allocation.
    pub(crate) fn drop_matrix(&mut self, matrix: Matrix)
        requires
            old(self).wf(),
            old(self).holds(matrix),
        ensures
            final(self).shrunk(*old(self), matrix.buffer.id),
    {
        self.drop_buffer(matrix.buffer);
    }

    /// A new filled matrix.
    pub fn new_matrix(&mut self, init_type: InitType, rows: usize, cols: usize, stream: Option<Stream>) -> (r:
        Matrix)
        requires
            old(self).wf(),
            shapeable(rows as int, cols as int),
        ensures
            final(self).grown(*old(self), r.buffer.id, stream),
            final(self).holds(r),
            r.rows == rows,
            r.cols == cols,
            final(self).matrix(r) == initial(
                init_type.fill((rows * cols) as usize, old(self).draws@.len() as usize),
                (rows * cols) as nat,
            ),
            final(self).draws@ == if init_type is Random {
                old(self).draws@.push(r.buffer.id)
            } else {
                old(self).draws@
            },
            forall|i: int|
                0 <= i < rows * cols ==> (init_type.number(rows * cols, i) matches Some(n)
                    ==> #[trigger] number_of(final(self).matrix(r)[i]) == Some(n as real)),
            forall|i: int, x: real|
                #![trigger can_be(final(self).matrix(r)[i], x)]
                0 <= i < rows * cols && can_be(final(self).matrix(r)[i], x) ==> {
                    &&& init_type is Random ==> 0int as real <= x && x <= 1int as real
                    &&& init_type.number(rows * cols, i) matches Some(n) ==> x == n as real
                },
    {
        let ghost before = *self;
        let size: usize = rows * cols;
        let mut buffer = self.get_uninit_buffer(size);
        assert(self.grown(before, buffer.id, stream));
        proof {
            self.lemma_whole(buffer);
        }
        let mut span = DeviceSpanMut::from_buffer(&mut buffer, 0, size);
        init_type.initialize(&mut span, self, stream);
        proof {
            assert forall|i: int, x: real|
                #![trigger can_be(self.mem(buffer.id)[i], x)]
                0 <= i < rows * cols && can_be(self.mem(buffer.id)[i], x) && init_type is Random implies 0int as real
                <= x && x <= 1int as real by {
                init_type.fill(size, before.draws@.len() as usize).lemma_draws(i, x);
            }
        }
        Matrix { buffer, rows, cols }
    }

    /// A matrix whose contents are still to be written.
    pub fn new_uninit_matrix(&mut self, rows: usize, cols: usize) -> (r: Matrix)
        requires
            old(self).wf(),
            shapeable(rows as int, cols as int),
        ensures
            forall|stream: Option<Stream>| #[trigger]
                final(self).grown(*old(self), r.buffer.id, stream),
            final(self).holds(r),
            r.rows == rows,
            r.cols == cols,
            old(self).pooled((rows * cols) as usize).len() > 0 ==> r.buffer == old(self).pooled(
                (rows * cols) as usize,
            ).last(),
            final(self).confined(*old(self), Set::empty(), set![r.buffer.id]),
    {
        let len: usize = rows * cols;
        let buffer = self.get_uninit_buffer(len);
        Matrix { buffer, rows, cols }
    }

    /// A matrix around a buffer.
    pub fn create_matrix(&self, buffer: DeviceBuffer, rows: usize, cols: usize) -> (r: Matrix)
        ensures
            r == (Matrix { buffer, rows, cols }),
    {
        Matrix { buffer, rows, cols }
    }

    /// A copy of a matrix.
    pub fn clone_matrix(&mut self, matrix: &Matrix, stream: Option<Stream>) -> (r: Matrix)
        requires
            old(self).wf(),
            old(self).holds(*matrix),
        ensures
            final(self).grown(*old(self), r.buffer.id, stream),
            final(self).holds(r),
            r.rows == matrix.rows,
            r.cols == matrix.cols,
            final(self).matrix(r) == old(self).matrix(*matrix),
    {
        let buffer = self.clone_buffer_on(&matrix.buffer, stream);
        Matrix { buffer, rows: matrix.rows, cols: matrix.cols }
    }

    /// Whether a batch of matrices lies inside a live buffer.
    pub open spec fn spans_batch(self, d: MatrixBatchDescriptor) -> bool {
        &&& self.live@.contains(d.buffer)
        &&& d.buffer < self.buffers@.len()
        &&& d.rows > 0 && d.cols > 0 && d.batches > 0
        &&& batch_end(
            d.offset as int,
            d.rows as int,
            d.cols as int,
            d.row_stride as int,
            d.batch_stride as int,
            d.batches as int,
        ) <= self.buffers@[d.buffer as int]
    }
}

/// An element of a batch lies before its end.
pub proof fn lemma_batch_position(d: MatrixBatchDescriptor, b: int, r: int, c: int)
    requires
        d.contains(b, r, c),
    ensures
        d.offset <= d.at(b, r, c) < batch_end(
            d.offset as int,
            d.rows as int,
            d.cols as int,
            d.row_stride as int,
            d.batch_stride as int,
            d.batches as int,
        ),
{
    assert(0 <= b * d.batch_stride <= (d.batches - 1) * d.batch_stride) by (nonlinear_arith)
        requires
            0 <= b <= d.batches - 1,
            d.batch_stride >= 0,
    ;
    assert(0 <= r * d.row_stride <= (d.rows - 1) * d.row_stride) by (nonlinear_arith)
        requires
            0 <= r <= d.rows - 1,
            d.row_stride >= 0,
    ;
}

} // verus!
