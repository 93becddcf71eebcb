//! Joining, cutting and reshaping.

use vstd::prelude::*;

use super::matrix::{shapeable, squares_fit};
use super::{whole, Matrix, Vector, VectorView};
use crate::cuda::algebra::{
    joined, joined_rows, lemma_joined_append, lemma_joined_even, lemma_joined_sum,
    lemma_side_by_side_len, lemma_sum_of_le, lemma_sum_of_take, repeated, row_of, row_segments,
    side_by_side, sum_of, tile, transpose, transpose_batches, Term,
};
use crate::cuda::arith::{
    ceil_div, div_ceil, lemma_ceil_div, lemma_position, lemma_position_in_range,
};
use crate::cuda::command::{DeviceSliceDescriptor, Kernel, LaunchConfig, Stream};
use crate::cuda::exact::law_transposes_swap_rows_and_columns;
use crate::cuda::launch::parts_of;
use crate::cuda::runtime::{chosen, CudaRuntime, DeviceBuffer};
use crate::cuda::span::{chunk_of, contents_of, DeviceSpan, DeviceSpanMut};

verus! {

broadcast use crate::cuda::runtime::group_streams;

/// The rows of matrices.
pub open spec fn heights(ms: Seq<&Matrix>) -> Seq<usize> {
    Seq::new(ms.len(), |k: int| ms[k].rows)
}

/// The columns of matrices.
pub open spec fn widths(ms: Seq<&Matrix>) -> Seq<usize> {
    Seq::new(ms.len(), |k: int| ms[k].cols)
}

/// The elements of matrices.
pub open spec fn elements(runtime: CudaRuntime, ms: Seq<&Matrix>) -> Seq<Seq<Term>> {
    Seq::new(ms.len(), |k: int| runtime.matrix(*ms[k]))
}

/// Sizes that cut `expected` into parts, none of them empty.
pub open spec fn partitions(sizes: Seq<usize>, expected: int) -> bool {
    &&& sizes.len() > 0
    &&& forall|k: int| 0 <= k < sizes.len() ==> #[trigger] sizes[k] > 0
    &&& sum_of(sizes) == expected
}

/// Whether sizes cut a matrix's rows or columns into parts, none of them empty.
pub fn validate_partition(sizes: &Vec<usize>, expected: usize) -> (r: bool)
    ensures
        r == partitions(sizes@, expected as int),
{
    if sizes.len() == 0 {
        return false;
    }
    let mut total: usize = 0;
    let mut i: usize = 0;
    while i < sizes.len()
        invariant
            i <= sizes@.len(),
            total == sum_of(sizes@.take(i as int)),
            forall|k: int| 0 <= k < i ==> #[trigger] sizes@[k] > 0,
        decreases sizes@.len() - i,
    {
        proof {
            lemma_sum_of_take(sizes@, i as int);
            lemma_sum_of_le(sizes@, i + 1);
        }
        if sizes[i] == 0 {
            return false;
        }
        match total.checked_add(sizes[i]) {
            Some(sum) => {
                total = sum;
            },
            None => {
                return false;
            },
        }
        i = i + 1;
    }
    assert(sizes@.take(sizes@.len() as int) =~= sizes@);
    total == expected
}

/// Equally long rows cut out of a buffer make a tile.
proof fn lemma_rows_make_tile(
    a: Seq<Term>,
    parts: Seq<Seq<Term>>,
    stride: nat,
    row: int,
    col: int,
    rows: nat,
    cols: nat,
)
    requires
        parts.len() == rows,
        forall|r: int|
            0 <= r < rows ==> (#[trigger] parts[r]).len() == cols && parts[r] == a.subrange(
                (row + r) * stride + col,
                (row + r) * stride + col + cols,
            ),
        0 <= row,
        0 <= col,
        col + cols <= stride,
        (row + rows) * stride <= a.len(),
    ensures
        joined(parts) == tile(a, stride, row, col, rows, cols),
        joined(parts).len() == rows * cols,
{
    lemma_joined_even(parts, cols);
    let t = tile(a, stride, row, col, rows, cols);
    assert forall|i: int| 0 <= i < t.len() implies #[trigger] joined(parts)[i] == t[i] by {
        assert(cols > 0) by (nonlinear_arith)
            requires
                0 <= i < rows * cols,
        ;
        lemma_position(i, rows as int, cols as int);
        let r = i / (cols as int);
        let c = i % (cols as int);
        assert(joined(parts)[r * cols + c] == parts[r][c]);
        assert(0 <= (row + r) * stride && (row + r) * stride + stride <= (row + rows) * stride)
            by (nonlinear_arith)
            requires
                0 <= row + r,
                row + r + 1 <= row + rows,
                stride >= 0,
        ;
        assert(parts[r][c] == a[(row + r) * stride + col + c]);
    }
    assert(joined(parts) =~= t);
}

impl Matrix {
    /// Every row as a vector.
    pub fn row_views(&mut self) -> (r: Vec<VectorView<'_>>)
        requires
            old(self).cols > 0,
            old(self).rows * old(self).cols == old(self).buffer.len,
        ensures
            *final(self) == *old(self),
            r@.len() == old(self).rows,
            forall|i: int|
                0 <= i < r@.len() ==> (#[trigger] r@[i]).span.descriptor == (DeviceSliceDescriptor {
                    buffer: old(self).buffer.id,
                    offset: (i * old(self).cols) as usize,
                    len: old(self).cols,
                }),
    {
        let ghost rows = self.rows as int;
        let cols: usize = self.cols;
        let ghost buffer = self.buffer;
        proof {
            lemma_whole_rows(rows, cols as int);
        }
        let mut spans = DeviceSpanMut::chunks(&mut self.buffer, cols);
        let ghost all = spans@;
        let mut views: Vec<VectorView<'_>> = Vec::new();
        while spans.len() > 0
            invariant
                cols > 0,
                all.len() == rows,
                rows * cols == buffer.len,
                spans@.len() + views@.len() == rows,
                spans@ == all.take(spans@.len() as int),
                forall|i: int|
                    0 <= i < rows ==> (#[trigger] all[i]).descriptor == chunk_of(
                        whole(buffer),
                        cols as int,
                        i,
                    ),
                forall|i: int|
                    0 <= i < views@.len() ==> (#[trigger] views@[i]).span == all[rows - 1 - i],
            decreases spans@.len(),
        {
            let ghost left = spans@;
            match spans.pop() {
                Some(span) => {
                    views.push(VectorView::new(span));
                    assert(spans@ =~= all.take(spans@.len() as int));
                },
                None => {},
            }
        }
        let mut ordered: Vec<VectorView<'_>> = Vec::new();
        let ghost reversed = views@;
        while views.len() > 0
            invariant
                cols > 0,
                rows * cols == buffer.len,
                reversed.len() == rows,
                views@.len() + ordered@.len() == rows,
                views@ == reversed.take(views@.len() as int),
                all.len() == rows,
                forall|i: int|
                    0 <= i < rows ==> (#[trigger] reversed[i]).span == all[rows - 1 - i],
                forall|i: int| 0 <= i < ordered@.len() ==> (#[trigger] ordered@[i]).span == all[i],
            decreases views@.len(),
        {
            match views.pop() {
                Some(view) => {
                    ordered.push(view);
                    assert(views@ =~= reversed.take(views@.len() as int));
                },
                None => {},
            }
        }
        proof {
            assert forall|i: int| 0 <= i < ordered@.len() implies (#[trigger]
            ordered@[i]).span.descriptor == (DeviceSliceDescriptor {
                buffer: buffer.id,
                offset: (i * cols) as usize,
                len: cols,
            }) by {
                assert(all[i].descriptor == chunk_of(whole(buffer), cols as int, i));
                lemma_position_in_range(i, 0, rows, cols as int);
                assert((i + 1) * cols == i * cols + cols) by (nonlinear_arith);
            }
        }
        ordered
    }
}

/// A whole number of rows makes that many chunks.
pub proof fn lemma_whole_rows(rows: int, cols: int)
    requires
        rows >= 0,
        cols > 0,
    ensures
        ceil_div(rows * cols, cols) == rows,
{
    assert(rows * cols + cols - 1 == cols * rows + (cols - 1)) by (nonlinear_arith);
    vstd::arithmetic::div_mod::lemma_fundamental_div_mod_converse(
        rows * cols + cols - 1,
        cols,
        rows,
        cols - 1,
    );
}

impl CudaRuntime {
    /// Concatenates equally wide matrices by appending complete rows.
    pub fn matrix_concat_rows(&mut self, matrices: &Vec<&Matrix>, stream: Option<Stream>) -> (r: Matrix)
        requires
            old(self).wf(),
            matrices@.len() > 0,
            forall|k: int|
                0 <= k < matrices@.len() ==> old(self).holds(*#[trigger] matrices@[k])
                    && matrices@[k].cols == matrices@[0].cols,
            sum_of(heights(matrices@)) <= usize::MAX,
            shapeable(sum_of(heights(matrices@)) as int, matrices@[0].cols as int),
        ensures
            final(self).grown(*old(self), r.buffer.id, stream),
            final(self).holds(r),
            r.rows == sum_of(heights(matrices@)),
            r.cols == matrices@[0].cols,
            final(self).matrix(r) == joined(elements(*old(self), matrices@)),
    {
        let ghost before = *self;
        let ghost hs = heights(matrices@);
        let cols: usize = matrices[0].cols;
        let mut rows: usize = 0;
        let mut buffers: Vec<&DeviceBuffer> = Vec::new();
        let mut i: usize = 0;
        while i < matrices.len()
            invariant
                i <= matrices@.len(),
                hs == heights(matrices@),
                rows == sum_of(hs.take(i as int)),
                sum_of(hs) <= usize::MAX,
                buffers@.len() == i,
                forall|k: int| 0 <= k < i ==> *#[trigger] buffers@[k] == matrices@[k].buffer,
            decreases matrices@.len() - i,
        {
            proof {
                lemma_sum_of_take(hs, i as int);
                lemma_sum_of_le(hs, i + 1);
            }
            rows = rows + matrices[i].rows;
            buffers.push(&matrices[i].buffer);
            i = i + 1;
        }
        proof {
            assert(hs.take(matrices@.len() as int) =~= hs);
            assert(contents_of(before, buffers@) =~= elements(before, matrices@));
            let parts = elements(before, matrices@);
            assert forall|k: int| 0 <= k < parts.len() implies (#[trigger] parts[k]).len() == hs[k]
                * cols by {
                assert(before.holds(*matrices@[k]));
                before.lemma_whole(matrices@[k].buffer);
            }
            lemma_joined_sum(parts, hs, cols as nat);
            assert forall|k: int| 0 <= k < buffers@.len() implies before.owns(
                *#[trigger] buffers@[k],
            ) by {
                assert(before.holds(*matrices@[k]));
            }
        }
        let buffer = self.concat_buffers_on(&buffers, stream);
        self.create_matrix(buffer, rows, cols)
    }

    /// Concatenates equally tall matrices by physically interleaving each
    /// row's contiguous segments into a new row-major allocation.
    pub fn matrix_concat_cols(&mut self, matrices: &Vec<&Matrix>, stream: Option<Stream>) -> (r: Matrix)
        requires
            old(self).wf(),
            matrices@.len() > 0,
            forall|k: int|
                0 <= k < matrices@.len() ==> old(self).holds(*#[trigger] matrices@[k])
                    && matrices@[k].rows == matrices@[0].rows,
            sum_of(widths(matrices@)) <= usize::MAX,
            shapeable(matrices@[0].rows as int, sum_of(widths(matrices@)) as int),
        ensures
            final(self).grown(*old(self), r.buffer.id, stream),
            final(self).holds(r),
            r.rows == matrices@[0].rows,
            r.cols == sum_of(widths(matrices@)),
            final(self).matrix(r) == side_by_side(
                elements(*old(self), matrices@),
                widths(matrices@),
                matrices@[0].rows as nat,
            ),
    {
        let ghost before = *self;
        let ghost ws = widths(matrices@);
        let ghost parts = elements(before, matrices@);
        let rows: usize = matrices[0].rows;
        let mut cols: usize = 0;
        let mut i: usize = 0;
        while i < matrices.len()
            invariant
                i <= matrices@.len(),
                ws == widths(matrices@),
                cols == sum_of(ws.take(i as int)),
                sum_of(ws) <= usize::MAX,
            decreases matrices@.len() - i,
        {
            proof {
                lemma_sum_of_take(ws, i as int);
                lemma_sum_of_le(ws, i + 1);
            }
            cols = cols + matrices[i].cols;
            i = i + 1;
        }
        proof {
            assert(ws.take(matrices@.len() as int) =~= ws);
        }
        let mut spans: Vec<DeviceSliceDescriptor> = Vec::new();
        let mut row: usize = 0;
        assert(joined_rows(parts, ws, 0) =~= Seq::empty());
        assert(parts_of(before.device@, spans@) =~= Seq::empty());
        while row < rows
            invariant
                row <= rows,
                before.wf(),
                matrices@.len() > 0,
                rows == matrices@[0].rows,
                ws == widths(matrices@),
                parts == elements(before, matrices@),
                forall|k: int|
                    0 <= k < matrices@.len() ==> before.holds(*#[trigger] matrices@[k])
                        && matrices@[k].rows == rows,
                forall|k: int| 0 <= k < spans@.len() ==> #[trigger] before.spans(spans@[k]),
                joined(parts_of(before.device@, spans@)) == joined(
                    joined_rows(parts, ws, row as nat),
                ),
            decreases rows - row,
        {
            let ghost earlier = spans@;
            let mut k: usize = 0;
            assert(row_segments(parts, ws, row as int).take(0) =~= Seq::empty());
            assert(parts_of(before.device@, spans@) =~= parts_of(before.device@, earlier)
                + row_segments(parts, ws, row as int).take(0));
            while k < matrices.len()
                invariant
                    k <= matrices@.len(),
                    row < rows,
                    before.wf(),
                    matrices@.len() > 0,
                    rows == matrices@[0].rows,
                    ws == widths(matrices@),
                    parts == elements(before, matrices@),
                    forall|k: int|
                        0 <= k < matrices@.len() ==> before.holds(*#[trigger] matrices@[k])
                            && matrices@[k].rows == rows,
                    forall|k: int| 0 <= k < spans@.len() ==> #[trigger] before.spans(spans@[k]),
                    parts_of(before.device@, spans@) == parts_of(before.device@, earlier)
                        + row_segments(parts, ws, row as int).take(k as int),
                decreases matrices@.len() - k,
            {
                let matrix = matrices[k];
                proof {
                    assert(before.holds(*matrices@[k as int]));
                    before.lemma_whole(matrix.buffer);
                    assert(row * matrix.cols + matrix.cols <= rows * matrix.cols && 0 <= row
                        * matrix.cols) by (nonlinear_arith)
                        requires
                            row + 1 <= rows,
                            matrix.cols >= 0,
                            row >= 0,
                    ;
                }
                let span = DeviceSpan::from_buffer(
                    &matrix.buffer,
                    row * matrix.cols,
                    matrix.cols,
                );
                let ghost sofar = spans@;
                spans.push(span.descriptor());
                proof {
                    let d = spans@[sofar.len() as int];
                    assert(before.device@.read(d) =~= row_segments(parts, ws, row as int)[k as int]);
                    assert(row_segments(parts, ws, row as int).take(k + 1) =~= row_segments(
                        parts,
                        ws,
                        row as int,
                    ).take(k as int).push(row_segments(parts, ws, row as int)[k as int]));
                    assert(parts_of(before.device@, spans@) =~= parts_of(
                        before.device@,
                        sofar,
                    ).push(before.device@.read(d)));
                    assert(parts_of(before.device@, spans@) =~= parts_of(before.device@, earlier)
                        + row_segments(parts, ws, row as int).take(k + 1));
                }
                k = k + 1;
            }
            proof {
                let segments = row_segments(parts, ws, row as int);
                assert(segments.take(matrices@.len() as int) =~= segments);
                lemma_joined_append(parts_of(before.device@, earlier), segments);
                let next = joined_rows(parts, ws, (row + 1) as nat);
                assert(next.drop_last() =~= joined_rows(parts, ws, row as nat));
                assert(next.last() == joined(segments));
            }
            row = row + 1;
        }
        proof {
            lemma_side_by_side_len(parts, ws, rows as nat);
        }
        let buffer = self.gather(&spans, stream);
        self.create_matrix(buffer, rows, cols)
    }

    /// Cuts a matrix into consecutive groups of rows.
    pub fn matrix_split_rows(&mut self, matrix: &Matrix, row_sizes: &Vec<usize>, stream: Option<Stream>) -> (r:
        Vec<Matrix>)
        requires
            old(self).wf(),
            old(self).holds(*matrix),
            partitions(row_sizes@, matrix.rows as int),
        ensures
            final(self).grown_by(*old(self), r@, stream),
            r@.len() == row_sizes@.len(),
            forall|k: int|
                0 <= k < r@.len() ==> (#[trigger] r@[k]).rows == row_sizes@[k] && r@[k].cols
                    == matrix.cols && final(self).matrix(r@[k]) == old(self).matrix(
                    *matrix,
                ).subrange(
                    sum_of(row_sizes@.take(k)) * matrix.cols,
                    sum_of(row_sizes@.take(k + 1)) * matrix.cols,
                ),
    {
        let ghost before = *self;
        let mut outputs: Vec<Matrix> = Vec::new();
        let mut offset: usize = 0;
        let mut i: usize = 0;
        proof {
            self.lemma_ran_on_nothing(chosen(stream));
            self.lemma_whole(matrix.buffer);
            assert(0 * matrix.cols == 0) by (nonlinear_arith);
        }
        while i < row_sizes.len()
            invariant
                i <= row_sizes@.len(),
                before.wf(),
                before.holds(*matrix),
                partitions(row_sizes@, matrix.rows as int),
                offset == sum_of(row_sizes@.take(i as int)) * matrix.cols,
                outputs@.len() == i,
                self.grown_by(before, outputs@, stream),
                forall|k: int|
                    0 <= k < i ==> (#[trigger] outputs@[k]).rows == row_sizes@[k]
                        && outputs@[k].cols == matrix.cols && self.matrix(outputs@[k])
                        == before.matrix(*matrix).subrange(
                        sum_of(row_sizes@.take(k)) * matrix.cols,
                        sum_of(row_sizes@.take(k + 1)) * matrix.cols,
                    ),
            decreases row_sizes@.len() - i,
        {
            let rows: usize = row_sizes[i];
            let cols: usize = matrix.cols;
            let ghost middle = *self;
            let ghost sofar = outputs@;
            proof {
                lemma_sum_of_take(row_sizes@, i as int);
                lemma_sum_of_le(row_sizes@, i + 1);
                lemma_sum_of_le(row_sizes@, i as int);
                let a = sum_of(row_sizes@.take(i as int)) as int;
                assert((a + rows) * cols == a * cols + rows * cols) by (nonlinear_arith);
                assert((a + rows) * cols <= matrix.rows * cols) by (nonlinear_arith)
                    requires
                        a + rows <= matrix.rows,
                        cols >= 0,
                ;
                assert(0 <= rows * cols && 0 <= a * cols) by (nonlinear_arith)
                    requires
                        rows >= 0,
                        cols >= 0,
                        a >= 0,
                ;
                before.lemma_whole(matrix.buffer);
            }
            let len: usize = rows * cols;
            let span = DeviceSpan::from_buffer(&matrix.buffer, offset, len);
            offset = offset + len;
            proof {
                assert(middle.live@.contains(matrix.buffer.id));
                assert(middle.buffers@[matrix.buffer.id as int] == matrix.buffer.len);
                assert(middle.mem(matrix.buffer.id) == before.mem(matrix.buffer.id));
            }
            let buffer = span.to_buffer(self, stream);
            let m = self.create_matrix(buffer, rows, cols);
            proof {
                self.lemma_grown_by_push(middle, before, sofar, m, stream);
                assert(self.matrix(m) =~= before.matrix(*matrix).subrange(
                    sum_of(row_sizes@.take(i as int)) * cols,
                    sum_of(row_sizes@.take(i + 1)) * cols,
                ));
            }
            outputs.push(m);
            proof {
                assert forall|k: int| 0 <= k < i + 1 implies (#[trigger] outputs@[k]).rows
                    == row_sizes@[k] && outputs@[k].cols == cols && self.matrix(outputs@[k])
                    == before.matrix(*matrix).subrange(
                    sum_of(row_sizes@.take(k)) * cols,
                    sum_of(row_sizes@.take(k + 1)) * cols,
                ) by {
                    if k < i {
                        assert(outputs@[k] == sofar[k]);
                    }
                }
            }
            i = i + 1;
        }
        outputs
    }

    /// Copies a block of a matrix.
    fn copy_tile(
        &mut self,
        matrix: &Matrix,
        row: usize,
        col: usize,
        rows: usize,
        cols: usize,
        stream: Option<Stream>,
    ) -> (r: Matrix)
        requires
            old(self).wf(),
            old(self).holds(*matrix),
            row + rows <= matrix.rows,
            col + cols <= matrix.cols,
        ensures
            final(self).grown(*old(self), r.buffer.id, stream),
            final(self).holds(r),
            r.rows == rows,
            r.cols == cols,
            final(self).matrix(r) == tile(
                old(self).matrix(*matrix),
                matrix.cols as nat,
                row as int,
                col as int,
                rows as nat,
                cols as nat,
            ),
    {
        let ghost before = *self;
        let mut spans: Vec<DeviceSliceDescriptor> = Vec::new();
        let mut i: usize = 0;
        let stride: usize = matrix.cols;
        proof {
            self.lemma_whole(matrix.buffer);
        }
        while i < rows
            invariant
                i <= rows,
                before.wf(),
                before.holds(*matrix),
                before.mem(matrix.buffer.id).len() == matrix.buffer.len,
                stride == matrix.cols,
                row + rows <= matrix.rows,
                col + cols <= matrix.cols,
                spans@.len() == i,
                forall|k: int|
                    0 <= k < i ==> #[trigger] spans@[k] == (DeviceSliceDescriptor {
                        buffer: matrix.buffer.id,
                        offset: ((row + k) * stride + col) as usize,
                        len: cols,
                    }) && 0 <= (row + k) * stride + col && (row + k) * stride + col + cols
                        <= matrix.buffer.len,
            decreases rows - i,
        {
            proof {
                assert((row + i) * stride + stride <= matrix.rows * stride && 0 <= (row + i)
                    * stride) by (nonlinear_arith)
                    requires
                        row + i + 1 <= matrix.rows,
                        stride >= 0,
                        row + i >= 0,
                ;
            }
            let span = DeviceSpan::from_buffer(&matrix.buffer, (row + i) * stride + col, cols);
            spans.push(span.descriptor());
            i = i + 1;
        }
        proof {
            let parts = parts_of(before.device@, spans@);
            assert forall|r: int| 0 <= r < rows implies (#[trigger] parts[r]).len() == cols
                && parts[r] == before.matrix(*matrix).subrange(
                (row + r) * stride + col,
                (row + r) * stride + col + cols,
            ) by {
                assert(spans@[r].len == cols);
            }
            assert((row + rows) * stride <= matrix.rows * stride) by (nonlinear_arith)
                requires
                    row + rows <= matrix.rows,
                    stride >= 0,
            ;
            lemma_rows_make_tile(
                before.matrix(*matrix),
                parts,
                stride as nat,
                row as int,
                col as int,
                rows as nat,
                cols as nat,
            );
            assert(rows * cols <= matrix.rows * matrix.cols) by (nonlinear_arith)
                requires
                    0 <= rows <= matrix.rows,
                    0 <= cols <= matrix.cols,
            ;
            assert forall|k: int| 0 <= k < spans@.len() implies #[trigger] before.spans(
                spans@[k],
            ) by {
                assert(spans@[k].len == cols);
            }
        }
        let buffer = self.gather(&spans, stream);
        self.create_matrix(buffer, rows, cols)
    }

    /// Cuts a matrix into consecutive groups of columns.
    pub fn matrix_split_cols(&mut self, matrix: &Matrix, col_sizes: &Vec<usize>, stream: Option<Stream>) -> (r:
        Vec<Matrix>)
        requires
            old(self).wf(),
            old(self).holds(*matrix),
            partitions(col_sizes@, matrix.cols as int),
        ensures
            final(self).grown_by(*old(self), r@, stream),
            r@.len() == col_sizes@.len(),
            forall|k: int|
                0 <= k < r@.len() ==> (#[trigger] r@[k]).rows == matrix.rows && r@[k].cols
                    == col_sizes@[k] && final(self).matrix(r@[k]) == tile(
                    old(self).matrix(*matrix),
                    matrix.cols as nat,
                    0,
                    sum_of(col_sizes@.take(k)) as int,
                    matrix.rows as nat,
                    col_sizes@[k] as nat,
                ),
    {
        let ghost before = *self;
        let mut outputs: Vec<Matrix> = Vec::new();
        let mut offset: usize = 0;
        let mut i: usize = 0;
        proof {
            self.lemma_ran_on_nothing(chosen(stream));
        }
        while i < col_sizes.len()
            invariant
                i <= col_sizes@.len(),
                before.wf(),
                before.holds(*matrix),
                partitions(col_sizes@, matrix.cols as int),
                offset == sum_of(col_sizes@.take(i as int)),
                outputs@.len() == i,
                self.grown_by(before, outputs@, stream),
                forall|k: int|
                    0 <= k < i ==> (#[trigger] outputs@[k]).rows == matrix.rows
                        && outputs@[k].cols == col_sizes@[k] && self.matrix(outputs@[k]) == tile(
                        before.matrix(*matrix),
                        matrix.cols as nat,
                        0,
                        sum_of(col_sizes@.take(k)) as int,
                        matrix.rows as nat,
                        col_sizes@[k] as nat,
                    ),
            decreases col_sizes@.len() - i,
        {
            let cols: usize = col_sizes[i];
            let ghost middle = *self;
            let ghost sofar = outputs@;
            proof {
                lemma_sum_of_take(col_sizes@, i as int);
                lemma_sum_of_le(col_sizes@, i + 1);
                assert(middle.live@.contains(matrix.buffer.id));
                assert(middle.buffers@[matrix.buffer.id as int] == matrix.buffer.len);
                assert(middle.mem(matrix.buffer.id) == before.mem(matrix.buffer.id));
            }
            let m = self.copy_tile(matrix, 0, offset, matrix.rows, cols, stream);
            offset = offset + cols;
            proof {
                self.lemma_grown_by_push(middle, before, sofar, m, stream);
            }
            outputs.push(m);
            proof {
                assert forall|k: int| 0 <= k < i + 1 implies (#[trigger] outputs@[k]).rows
                    == matrix.rows && outputs@[k].cols == col_sizes@[k] && self.matrix(outputs@[k])
                    == tile(
                    before.matrix(*matrix),
                    matrix.cols as nat,
                    0,
                    sum_of(col_sizes@.take(k)) as int,
                    matrix.rows as nat,
                    col_sizes@[k] as nat,
                ) by {
                    if k < i {
                        assert(outputs@[k] == sofar[k]);
                    }
                }
            }
            i = i + 1;
        }
        outputs
    }

    /// The transpose of a matrix.
    pub fn matrix_transpose(&mut self, mat: &Matrix, stream: Option<Stream>) -> (r: Matrix)
        requires
            old(self).wf(),
            old(self).holds(*mat),
            squares_fit(mat.rows as int, mat.cols as int),
        ensures
            final(self).grown(*old(self), r.buffer.id, stream),
            final(self).holds(r),
            r.rows == mat.cols,
            r.cols == mat.rows,
            final(self).matrix(r) == transpose(
                old(self).matrix(*mat),
                mat.rows as nat,
                mat.cols as nat,
            ),
            final(self).confined(*old(self), set![mat.buffer.id], set![r.buffer.id]),
            forall|row: int, col: int|
                0 <= row < mat.rows && 0 <= col < mat.cols ==> #[trigger] final(self).matrix(r)[col
                    * mat.rows + row] == old(self).matrix(*mat)[row * mat.cols + col],
    {
        let ghost before = *self;
        let rows: usize = mat.cols;
        let cols: usize = mat.rows;
        proof {
            self.lemma_whole(mat.buffer);
            assert(mat.cols * mat.rows == mat.rows * mat.cols) by (nonlinear_arith);
        }
        let mut buffer = self.get_uninit_buffer(rows * cols);
        proof {
            assert(self.grown(before, buffer.id, stream));
            self.lemma_confined_wider(
                before,
                Set::empty(),
                set![buffer.id],
                set![mat.buffer.id],
                set![buffer.id],
            );
        }
        self.matrix_transpose_into_on(stream, mat, &mut buffer);
        proof {
            let a = before.matrix(*mat);
            let t = transpose(a, mat.rows as nat, mat.cols as nat);
            assert forall|row: int, col: int|
                0 <= row < mat.rows && 0 <= col < mat.cols implies #[trigger] t[col * mat.rows + row]
                == a[row * mat.cols + col] by {
                law_transposes_swap_rows_and_columns(a, mat.rows as nat, mat.cols as nat, row, col);
            }
        }
        self.create_matrix(buffer, rows, cols)
    }

    /// Writes a transpose to a buffer. An empty matrix launches nothing.
    fn matrix_transpose_into_on(&mut self, stream: Option<Stream>, mat: &Matrix, result: &mut DeviceBuffer)
        requires
            old(self).wf(),
            old(self).holds(*mat),
            squares_fit(mat.rows as int, mat.cols as int),
            old(self).owns(*old(result)),
            old(result).len == mat.buffer.len,
        ensures
            *final(result) == *old(result),
            final(self).changed(*old(self), old(result).id, stream),
            final(self).mem(old(result).id) == transpose(
                old(self).matrix(*mat),
                mat.rows as nat,
                mat.cols as nat,
            ),
            final(self).confined(*old(self), set![mat.buffer.id], set![old(result).id]),
    {
        let ghost before = *self;
        proof {
            self.lemma_whole(mat.buffer);
            self.lemma_whole(*result);
            self.lemma_ran_on_nothing(chosen(stream));
            self.lemma_confined_nothing(set![mat.buffer.id], set![result.id]);
            assert(mat.cols * mat.rows == mat.rows * mat.cols) by (nonlinear_arith);
        }
        if mat.buffer.is_empty() {
            assert(self.mem(result.id) =~= transpose(
                before.matrix(*mat),
                mat.rows as nat,
                mat.cols as nat,
            ));
            return;
        }
        proof {
            lemma_ceil_div(mat.cols as int, 32);
            lemma_ceil_div(mat.rows as int, 32);
        }
        let config = LaunchConfig::new_2d(
            div_ceil(mat.cols, 32) as u32,
            div_ceil(mat.rows, 32) as u32,
            32,
            8,
        );
        let input = DeviceSpan::from_buffer(&mat.buffer, 0, mat.buffer.len());
        let len: usize = result.len();
        let output = DeviceSpanMut::from_buffer(result, 0, len);
        self.enqueue(
            Kernel::Transpose {
                input: input.descriptor(),
                output: output.descriptor(),
                rows: mat.rows,
                cols: mat.cols,
            },
            config,
            stream,
        );
        assert(self.mem(result.id) =~= transpose(
            before.matrix(*mat),
            mat.rows as nat,
            mat.cols as nat,
        ));
    }

    /// Transposes stacked matrices of equal shape, each on its own.
    pub fn matrix_transpose_batches(
        &mut self,
        matrix: &Matrix,
        batch_count: usize,
        rows: usize,
        cols: usize,
        stream: Option<Stream>,
    ) -> (r: Matrix)
        requires
            old(self).wf(),
            old(self).holds(*matrix),
            batch_count > 0,
            rows > 0,
            cols > 0,
            matrix.buffer.len == batch_count * rows * cols,
            ceil_div(cols as int, 32) <= u32::MAX,
            batch_count * ceil_div(rows as int, 32) <= u32::MAX,
        ensures
            final(self).grown(*old(self), r.buffer.id, stream),
            final(self).holds(r),
            r.rows == batch_count * cols,
            r.cols == rows,
            final(self).matrix(r) == transpose_batches(
                old(self).matrix(*matrix),
                batch_count as nat,
                rows as nat,
                cols as nat,
            ),
    {
        let ghost before = *self;
        proof {
            self.lemma_whole(matrix.buffer);
            assert(batch_count * cols * rows == batch_count * rows * cols) by (nonlinear_arith);
            lemma_ceil_div(cols as int, 32);
            lemma_ceil_div(rows as int, 32);
            assert(batch_count * cols <= batch_count * cols * rows) by (nonlinear_arith)
                requires
                    rows >= 1,
                    batch_count >= 0,
                    cols >= 0,
            ;
        }
        let mut result = self.new_uninit_matrix(batch_count * cols, rows);
        assert(self.grown(before, result.buffer.id, stream));
        proof {
            self.lemma_whole(matrix.buffer);
            self.lemma_whole(result.buffer);
        }
        let config = LaunchConfig::new_2d(
            div_ceil(cols, 32) as u32,
            (batch_count * div_ceil(rows, 32)) as u32,
            32,
            8,
        );
        let input = DeviceSpan::from_buffer(&matrix.buffer, 0, matrix.buffer.len());
        let len: usize = result.buffer.len();
        let output = DeviceSpanMut::from_buffer(&mut result.buffer, 0, len);
        self.enqueue(
            Kernel::TransposeBatches {
                input: input.descriptor(),
                output: output.descriptor(),
                rows,
                cols,
                batches: batch_count,
            },
            config,
            stream,
        );
        assert(self.matrix(result) =~= transpose_batches(
            before.matrix(*matrix),
            batch_count as nat,
            rows as nat,
            cols as nat,
        ));
        result
    }

    /// Stacks equally long vectors as the rows of a matrix.
    pub fn vector_zip(&mut self, vecs: &Vec<Vector>, stream: Option<Stream>) -> (r: Matrix)
        requires
            old(self).wf(),
            vecs@.len() > 0,
            forall|k: int|
                0 <= k < vecs@.len() ==> old(self).holds_vector(#[trigger] vecs@[k])
                    && vecs@[k].buffer.len == vecs@[0].buffer.len,
            shapeable(vecs@.len() as int, vecs@[0].buffer.len as int),
        ensures
            final(self).grown(*old(self), r.buffer.id, stream),
            final(self).holds(r),
            r.rows == vecs@.len(),
            r.cols == vecs@[0].buffer.len,
            final(self).matrix(r) == joined(
                Seq::new(vecs@.len(), |k: int| old(self).vector(vecs@[k])),
            ),
    {
        let ghost before = *self;
        let rows: usize = vecs.len();
        let cols: usize = vecs[0].len();
        let mut spans: Vec<DeviceSliceDescriptor> = Vec::new();
        let mut i: usize = 0;
        while i < vecs.len()
            invariant
                i <= vecs@.len(),
                spans@.len() == i,
                forall|k: int| 0 <= k < i ==> #[trigger] spans@[k] == whole(vecs@[k].buffer),
            decreases vecs@.len() - i,
        {
            spans.push(vecs[i].as_span().descriptor());
            i = i + 1;
        }
        proof {
            let parts = parts_of(before.device@, spans@);
            let wanted = Seq::new(vecs@.len(), |k: int| before.vector(vecs@[k]));
            assert forall|k: int| 0 <= k < parts.len() implies #[trigger] parts[k] == wanted[k]
                && parts[k].len() == cols && before.spans(spans@[k]) by {
                assert(before.holds_vector(vecs@[k]));
                before.lemma_whole(vecs@[k].buffer);
                assert(spans@[k] == whole(vecs@[k].buffer));
            }
            assert forall|k: int| 0 <= k < spans@.len() implies #[trigger] before.spans(
                spans@[k],
            ) by {
                assert(parts[k] == wanted[k]);
            }
            assert(parts =~= wanted);
            lemma_joined_even(parts, cols as nat);
        }
        let buffer = self.gather(&spans, stream);
        self.create_matrix(buffer, rows, cols)
    }

    /// The rows of a matrix as vectors of their own.
    pub fn matrix_split(&mut self, matrix: &Matrix, stream: Option<Stream>) -> (r: Vec<Vector>)
        requires
            old(self).wf(),
            old(self).holds(*matrix),
            matrix.cols > 0,
        ensures
            final(self).grown_by_vectors(*old(self), r@, stream),
            r@.len() == matrix.rows,
            forall|k: int|
                0 <= k < r@.len() ==> (#[trigger] r@[k]).buffer.len == matrix.cols && final(
                    self).vector(r@[k]) == row_of(
                    old(self).matrix(*matrix),
                    matrix.cols as nat,
                    k,
                ),
    {
        let ghost before = *self;
        let cols: usize = matrix.cols;
        proof {
            self.lemma_whole(matrix.buffer);
            self.lemma_ran_on_nothing(chosen(stream));
            lemma_whole_rows(matrix.rows as int, cols as int);
        }
        let spans = DeviceSpan::chunks(&matrix.buffer, cols);
        let mut vectors: Vec<Vector> = Vec::new();
        let mut i: usize = 0;
        while i < spans.len()
            invariant
                i <= spans@.len(),
                before.wf(),
                before.holds(*matrix),
                before.matrix(*matrix).len() == matrix.buffer.len,
                cols == matrix.cols,
                cols > 0,
                spans@.len() == matrix.rows,
                forall|k: int|
                    0 <= k < spans@.len() ==> (#[trigger] spans@[k]).descriptor == chunk_of(
                        whole(matrix.buffer),
                        cols as int,
                        k,
                    ) && spans@[k].descriptor.offset + spans@[k].descriptor.len
                        <= matrix.buffer.len,
                vectors@.len() == i,
                self.grown_by_vectors(before, vectors@, stream),
                forall|k: int|
                    0 <= k < i ==> (#[trigger] vectors@[k]).buffer.len == cols && self.vector(
                        vectors@[k],
                    ) == row_of(before.matrix(*matrix), cols as nat, k),
            decreases spans@.len() - i,
        {
            let ghost middle = *self;
            let ghost sofar = vectors@;
            proof {
                lemma_position_in_range(i as int, 0, matrix.rows as int, cols as int);
                assert((i + 1) * cols == i * cols + cols) by (nonlinear_arith);
                assert(middle.live@.contains(matrix.buffer.id));
                assert(middle.buffers@[matrix.buffer.id as int] == matrix.buffer.len);
                assert(middle.mem(matrix.buffer.id) == before.mem(matrix.buffer.id));
            }
            let buffer = spans[i].to_buffer(self, stream);
            let v = self.create_vector(buffer);
            proof {
                self.lemma_grown_by_vectors_push(middle, before, sofar, v, stream);
                assert(self.vector(v) =~= row_of(before.matrix(*matrix), cols as nat, i as int));
            }
            vectors.push(v);
            proof {
                assert forall|k: int| 0 <= k < i + 1 implies (#[trigger] vectors@[k]).buffer.len
                    == cols && self.vector(vectors@[k]) == row_of(
                    before.matrix(*matrix),
                    cols as nat,
                    k,
                ) by {
                    if k < i {
                        assert(vectors@[k] == sofar[k]);
                    }
                }
            }
            i = i + 1;
        }
        vectors
    }

    /// A matrix whose rows are copies of a vector.
    pub fn broadcast(&mut self, vector: &Vector, copies: usize, stream: Option<Stream>) -> (r: Matrix)
        requires
            old(self).wf(),
            old(self).holds_vector(*vector),
            shapeable(copies as int, vector.buffer.len as int),
        ensures
            final(self).grown(*old(self), r.buffer.id, stream),
            final(self).holds(r),
            r.rows == copies,
            r.cols == vector.buffer.len,
            final(self).matrix(r) == repeated(old(self).vector(*vector), copies as nat),
    {
        let ghost before = *self;
        let mut spans: Vec<DeviceSliceDescriptor> = Vec::new();
        let mut i: usize = 0;
        while i < copies
            invariant
                i <= copies,
                spans@.len() == i,
                forall|k: int| 0 <= k < i ==> #[trigger] spans@[k] == whole(vector.buffer),
            decreases copies - i,
        {
            spans.push(vector.as_span().descriptor());
            i = i + 1;
        }
        proof {
            before.lemma_whole(vector.buffer);
            let a = before.vector(*vector);
            let parts = parts_of(before.device@, spans@);
            assert forall|k: int| 0 <= k < parts.len() implies #[trigger] parts[k] == a by {
                assert(spans@[k] == whole(vector.buffer));
            }
            lemma_joined_even(parts, a.len());
            assert forall|i: int| 0 <= i < copies * a.len() implies joined(parts)[i]
                == #[trigger] repeated(a, copies as nat)[i] by {
                assert(a.len() > 0) by (nonlinear_arith)
                    requires
                        0 <= i < copies * a.len(),
                ;
                lemma_position(i, copies as int, a.len() as int);
                assert(parts[i / (a.len() as int)][i % (a.len() as int)] == a[i % (
                a.len() as int)]);
            }
            assert(joined(parts) =~= repeated(a, copies as nat));
        }
        let buffer = self.gather(&spans, stream);
        self.create_matrix(buffer, copies, vector.len())
    }

    /// Consumes a matrix and returns its first row.
    pub fn extract_vector(&mut self, matrix: Matrix, stream: Option<Stream>) -> (r: Vector)
        requires
            old(self).wf(),
            old(self).holds(matrix),
            matrix.rows > 0,
        ensures
            final(self).wf(),
            final(self).holds_vector(r),
            r.buffer.len == matrix.cols,
            final(self).vector(r) == row_of(old(self).matrix(matrix), matrix.cols as nat, 0),
            final(self).live@ == old(self).live@.remove(matrix.buffer.id).insert(r.buffer.id),
            r.buffer.id == matrix.buffer.id || !old(self).live@.contains(r.buffer.id),
            matrix.rows == 1 ==> *final(self) == *old(self) && r.buffer == matrix.buffer,
            final(self).keeps(*old(self), set![matrix.buffer.id]),
            final(self).device@.downloads == old(self).device@.downloads,
            final(self).ran_on(*old(self), chosen(stream)),
    {
        let ghost before = *self;
        proof {
            self.lemma_whole(matrix.buffer);
            self.lemma_ran_on_nothing(chosen(stream));
        }
        if matrix.rows == 1 {
            proof {
                assert(matrix.rows * matrix.cols == matrix.cols) by (nonlinear_arith)
                    requires
                        matrix.rows == 1,
                ;
                assert(self.matrix(matrix) =~= row_of(
                    self.matrix(matrix),
                    matrix.cols as nat,
                    0,
                ));
                assert(self.live@ =~= self.live@.remove(matrix.buffer.id).insert(
                    matrix.buffer.id,
                ));
            }
            return self.create_vector(matrix.buffer);
        }
        proof {
            assert(matrix.cols <= matrix.rows * matrix.cols) by (nonlinear_arith)
                requires
                    matrix.rows >= 1,
            ;
        }
        let span = DeviceSpan::from_buffer(&matrix.buffer, 0, matrix.cols);
        let buffer = span.to_buffer(self, stream);
        let v = self.create_vector(buffer);
        let ghost copied = *self;
        self.drop_matrix(matrix);
        proof {
            assert(self.ran_on(copied, chosen(stream)));
            assert(self.vector(v) =~= row_of(before.matrix(matrix), matrix.cols as nat, 0));
            assert(self.live@ =~= before.live@.remove(matrix.buffer.id).insert(v.buffer.id));
        }
        v
    }

    /// Cuts a matrix into tiles of equal shape, row by row of tiles.
    pub fn matrix_slice(&mut self, matrix: &Matrix, cols: usize, rows: usize, stream: Option<Stream>) -> (r:
        Vec<Matrix>)
        requires
            old(self).wf(),
            old(self).holds(*matrix),
            cols > 0,
            rows > 0,
            matrix.cols % cols == 0,
            matrix.rows % rows == 0,
        ensures
            final(self).grown_by(*old(self), r@, stream),
            r@.len() == (matrix.rows / rows) * (matrix.cols / cols),
            forall|k: int|
                0 <= k < r@.len() ==> (#[trigger] r@[k]).rows == rows && r@[k].cols == cols
                    && final(self).matrix(r@[k]) == tile(
                    old(self).matrix(*matrix),
                    matrix.cols as nat,
                    (k / ((matrix.cols / cols) as int)) * rows,
                    (k % ((matrix.cols / cols) as int)) * cols,
                    rows as nat,
                    cols as nat,
                ),
    {
        let ghost before = *self;
        let tiles_per_row: usize = matrix.cols / cols;
        let tile_row_count: usize = matrix.rows / rows;
        let ghost per = tiles_per_row as int;
        let mut result: Vec<Matrix> = Vec::new();
        let mut tile_row: usize = 0;
        proof {
            self.lemma_ran_on_nothing(chosen(stream));
            vstd::arithmetic::div_mod::lemma_fundamental_div_mod(matrix.cols as int, cols as int);
            vstd::arithmetic::div_mod::lemma_fundamental_div_mod(matrix.rows as int, rows as int);
            assert(0 * per == 0) by (nonlinear_arith);
        }
        while tile_row < tile_row_count
            invariant
                tile_row <= tile_row_count,
                before.wf(),
                before.holds(*matrix),
                cols > 0,
                rows > 0,
                per == tiles_per_row,
                matrix.cols == cols * tiles_per_row,
                matrix.rows == rows * tile_row_count,
                result@.len() == tile_row * per,
                self.grown_by(before, result@, stream),
                forall|k: int|
                    0 <= k < result@.len() ==> (#[trigger] result@[k]).rows == rows
                        && result@[k].cols == cols && self.matrix(result@[k]) == tile(
                        before.matrix(*matrix),
                        matrix.cols as nat,
                        (k / per) * rows,
                        (k % per) * cols,
                        rows as nat,
                        cols as nat,
                    ),
            decreases tile_row_count - tile_row,
        {
            let mut tile_col: usize = 0;
            while tile_col < tiles_per_row
                invariant
                    tile_row < tile_row_count,
                    tile_col <= tiles_per_row,
                    before.wf(),
                    before.holds(*matrix),
                    cols > 0,
                    rows > 0,
                    per == tiles_per_row,
                    matrix.cols == cols * tiles_per_row,
                    matrix.rows == rows * tile_row_count,
                    result@.len() == tile_row * per + tile_col,
                    self.grown_by(before, result@, stream),
                    forall|k: int|
                        0 <= k < result@.len() ==> (#[trigger] result@[k]).rows == rows
                            && result@[k].cols == cols && self.matrix(result@[k]) == tile(
                            before.matrix(*matrix),
                            matrix.cols as nat,
                            (k / per) * rows,
                            (k % per) * cols,
                            rows as nat,
                            cols as nat,
                        ),
                decreases tiles_per_row - tile_col,
            {
                let ghost middle = *self;
                let ghost sofar = result@;
                let ghost t = tile_row * per + tile_col;
                proof {
                    assert(tile_row * rows + rows <= matrix.rows && 0 <= tile_row * rows)
                        by (nonlinear_arith)
                        requires
                            tile_row + 1 <= tile_row_count,
                            matrix.rows == rows * tile_row_count,
                            rows > 0,
                            tile_row >= 0,
                    ;
                    assert(tile_col * cols + cols <= matrix.cols && 0 <= tile_col * cols)
                        by (nonlinear_arith)
                        requires
                            tile_col + 1 <= tiles_per_row,
                            matrix.cols == cols * tiles_per_row,
                            cols > 0,
                            tile_col >= 0,
                    ;
                    crate::cuda::arith::lemma_row_col(tile_row as int, tile_col as int, per);
                    assert(middle.live@.contains(matrix.buffer.id));
                    assert(middle.buffers@[matrix.buffer.id as int] == matrix.buffer.len);
                    assert(middle.mem(matrix.buffer.id) == before.mem(matrix.buffer.id));
                }
                let m = self.copy_tile(
                    matrix,
                    tile_row * rows,
                    tile_col * cols,
                    rows,
                    cols,
                    stream,
                );
                proof {
                    self.lemma_grown_by_push(middle, before, sofar, m, stream);
                }
                result.push(m);
                proof {
                    assert forall|k: int| 0 <= k < result@.len() implies (#[trigger]
                    result@[k]).rows == rows && result@[k].cols == cols && self.matrix(result@[k])
                        == tile(
                        before.matrix(*matrix),
                        matrix.cols as nat,
                        (k / per) * rows,
                        (k % per) * cols,
                        rows as nat,
                        cols as nat,
                    ) by {
                        if k < sofar.len() {
                            assert(result@[k] == sofar[k]);
                        } else {
                            assert(k == t);
                        }
                    }
                }
                tile_col = tile_col + 1;
            }
            proof {
                assert((tile_row + 1) * per == tile_row * per + per) by (nonlinear_arith);
            }
            tile_row = tile_row + 1;
        }
        result
    }

    /// The elements of a matrix as one vector.
    pub fn matrix_into_vector(&self, matrix: Matrix) -> (r: Vector)
        ensures
            r.buffer == matrix.buffer,
    {
        self.create_vector(matrix.buffer)
    }

    /// A vector as a matrix of one column.
    pub fn vector_into_matrix(&self, vector: Vector) -> (r: Matrix)
        ensures
            r.buffer == vector.buffer,
            r.rows == vector.buffer.len,
            r.cols == 1,
    {
        let rows: usize = vector.buffer.len();
        self.create_matrix(vector.buffer, rows, 1)
    }
}

} // verus!
