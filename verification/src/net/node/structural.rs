//! Joining, dividing and duplicating matrices.

use vstd::prelude::*;

use super::binary::{referenced, sum_of_first};
use super::{
    BinaryNode, BinaryOp, ConcatNode, FanOutMode, FanOutNode, MatrixAxis, SplitNode,
    TrainingConcatNode, TrainingFanOutNode, TrainingSplitNode,
};
use crate::cuda::algebra::{
    apply, joined, lemma_joined_part, lemma_joined_sum, lemma_joined_take,
    lemma_side_by_side_element, lemma_side_by_side_len, lemma_sum_of_le, lemma_sum_of_take,
    side_by_side, sum_of, tile, Term,
};
use crate::cuda::arith::{lemma_mul_le, lemma_position, lemma_position_in_range};
use crate::cuda::container::convert::{elements, heights, partitions, widths};
use crate::cuda::container::matrix::shapeable;
use crate::cuda::container::{distinct, ids, lemma_ids_push, values_of, Matrix};
use crate::cuda::exact::vectors::law_windows_show_their_elements;
use crate::cuda::ops::MapFn;
use crate::cuda::runtime::{chosen, CudaRuntime};
use crate::cuda::scalar::Scalar;
use crate::graph::state::recycle_all;

verus! {

broadcast use crate::cuda::runtime::group_streams;

impl MatrixAxis {
    /// The length of a shape along the axis.
    pub open spec fn extent(self, rows: usize, cols: usize) -> usize {
        match self {
            MatrixAxis::Rows => rows,
            MatrixAxis::Columns => cols,
        }
    }

    /// The length of a shape across the axis.
    pub open spec fn breadth(self, rows: usize, cols: usize) -> usize {
        match self {
            MatrixAxis::Rows => cols,
            MatrixAxis::Columns => rows,
        }
    }

    /// The lengths of shapes along the axis.
    pub open spec fn extents(self, shapes: Seq<(usize, usize)>) -> Seq<usize> {
        Seq::new(shapes.len(), |k: int| self.extent(shapes[k].0, shapes[k].1))
    }

    /// Whether shapes agree across the axis.
    pub open spec fn agrees(self, shapes: Seq<(usize, usize)>) -> bool {
        forall|k: int|
            #![trigger shapes[k]]
            0 <= k < shapes.len() ==> self.breadth(shapes[k].0, shapes[k].1) == self.breadth(
                shapes[0].0,
                shapes[0].1,
            )
    }

    /// The rows of a matrix of an extent and a breadth.
    pub open spec fn rows_of(self, extent: int, breadth: int) -> int {
        match self {
            MatrixAxis::Rows => extent,
            MatrixAxis::Columns => breadth,
        }
    }

    /// The columns of a matrix of an extent and a breadth.
    pub open spec fn cols_of(self, extent: int, breadth: int) -> int {
        match self {
            MatrixAxis::Rows => breadth,
            MatrixAxis::Columns => extent,
        }
    }

    /// Whether shapes can be joined, and the result fits the device.
    pub open spec fn joinable(self, shapes: Seq<(usize, usize)>) -> bool {
        let extent = sum_of(self.extents(shapes)) as int;
        let breadth = self.breadth(shapes[0].0, shapes[0].1) as int;
        &&& shapes.len() >= 2
        &&& self.agrees(shapes)
        &&& extent <= usize::MAX
        &&& shapeable(self.rows_of(extent, breadth), self.cols_of(extent, breadth))
    }

    /// Matrices joined along the axis.
    pub open spec fn joined_along(
        self,
        values: Seq<Seq<Term>>,
        shapes: Seq<(usize, usize)>,
    ) -> Seq<Term> {
        match self {
            MatrixAxis::Rows => joined(values),
            MatrixAxis::Columns => side_by_side(values, self.extents(shapes), shapes[0].0 as nat),
        }
    }

    /// Part `k` of a `rows x cols` matrix that is divided along the axis.
    pub open spec fn part_along(
        self,
        a: Seq<Term>,
        rows: nat,
        cols: nat,
        sizes: Seq<usize>,
        k: int,
    ) -> Seq<Term> {
        match self {
            MatrixAxis::Rows => a.subrange(
                offset_of(sizes, k, cols),
                offset_of(sizes, k + 1, cols),
            ),
            MatrixAxis::Columns => tile(
                a,
                cols,
                0,
                sum_of(sizes.take(k)) as int,
                rows,
                sizes[k] as nat,
            ),
        }
    }
}

/// Where part `k` starts in an array of rows of this length.
pub open spec fn offset_of(sizes: Seq<usize>, k: int, cols: nat) -> int {
    (sum_of(sizes.take(k)) * cols) as int
}

/// The shapes of matrices.
pub open spec fn shapes_of(ms: Seq<Matrix>) -> Seq<(usize, usize)> {
    Seq::new(ms.len(), |k: int| (ms[k].rows, ms[k].cols))
}

/// Dividing what was joined gives the parts back.
pub proof fn law_split_undoes_concat(
    axis: MatrixAxis,
    values: Seq<Seq<Term>>,
    shapes: Seq<(usize, usize)>,
    k: int,
)
    requires
        shapes.len() > 0,
        values.len() == shapes.len(),
        axis.agrees(shapes),
        forall|j: int|
            0 <= j < values.len() ==> (#[trigger] values[j]).len() == shapes[j].0 * shapes[j].1,
        0 <= k < shapes.len(),
    ensures
        axis.part_along(
            axis.joined_along(values, shapes),
            axis.rows_of(
                sum_of(axis.extents(shapes)) as int,
                axis.breadth(shapes[0].0, shapes[0].1) as int,
            ) as nat,
            axis.cols_of(
                sum_of(axis.extents(shapes)) as int,
                axis.breadth(shapes[0].0, shapes[0].1) as int,
            ) as nat,
            axis.extents(shapes),
            k,
        ) == values[k],
{
    let sizes = axis.extents(shapes);
    let s = shapes[k];
    match axis {
        MatrixAxis::Rows => {
            let cols = shapes[0].1 as nat;
            let before = values.take(k);
            assert forall|j: int| 0 <= j < before.len() implies (#[trigger] before[j]).len()
                == sizes.take(k)[j] * cols by {
                assert(values[j].len() == shapes[j].0 * shapes[j].1);
            }
            lemma_joined_sum(before, sizes.take(k), cols);
            lemma_joined_part(values, k);
            lemma_sum_of_take(sizes, k);
            let a = sum_of(sizes.take(k));
            let b = sizes[k] as nat;
            assert((a + b) * cols == a * cols + b * cols) by (nonlinear_arith);
            assert(values[k].len() == shapes[k].0 * shapes[k].1);
        },
        MatrixAxis::Columns => {
            let rows = shapes[0].0 as nat;
            let w = sizes[k] as nat;
            let whole = side_by_side(values, sizes, rows);
            let part = tile(whole, sum_of(sizes), 0, sum_of(sizes.take(k)) as int, rows, w);
            assert(values[k].len() == rows * w);
            assert forall|i: int| 0 <= i < rows * w implies part[i] == values[k][i] by {
                if w == 0 {
                    assert(rows * w == 0) by (nonlinear_arith)
                        requires
                            w == 0,
                    ;
                }
                lemma_position(i, rows as int, w as int);
                lemma_side_by_side_element(
                    values,
                    sizes,
                    rows,
                    k,
                    i / (w as int),
                    i % (w as int),
                );
            }
            assert(part =~= values[k]);
        },
    }
}

/// Joined matrices stand in the order in which they are given. Along the rows, a row of a
/// part comes after all rows of the parts before it; along the columns, a column of a part
/// comes after all columns of the parts before it.
pub proof fn law_joined_matrices_keep_their_order(
    axis: MatrixAxis,
    values: Seq<Seq<Term>>,
    shapes: Seq<(usize, usize)>,
    k: int,
    row: int,
    col: int,
)
    requires
        shapes.len() > 0,
        values.len() == shapes.len(),
        axis.agrees(shapes),
        forall|j: int|
            0 <= j < values.len() ==> (#[trigger] values[j]).len() == shapes[j].0 * shapes[j].1,
        0 <= k < shapes.len(),
        0 <= row < shapes[k].0,
        0 <= col < shapes[k].1,
    ensures
        axis is Rows ==> axis.joined_along(values, shapes)[(sum_of(axis.extents(shapes).take(k))
            + row) * shapes[k].1 + col] == values[k][row * shapes[k].1 + col],
        axis is Columns ==> axis.joined_along(values, shapes)[row * sum_of(axis.extents(shapes))
            + sum_of(axis.extents(shapes).take(k)) + col] == values[k][row * shapes[k].1 + col],
{
    let sizes = axis.extents(shapes);
    assert(shapes[k] == shapes[k]);
    match axis {
        MatrixAxis::Rows => {
            let cols = shapes[0].1 as nat;
            let before = values.take(k);
            assert forall|j: int| 0 <= j < before.len() implies (#[trigger] before[j]).len()
                == sizes.take(k)[j] * cols by {
                assert(values[j].len() == shapes[j].0 * shapes[j].1);
            }
            lemma_joined_sum(before, sizes.take(k), cols);
            lemma_joined_part(values, k);
            assert(values[k].len() == shapes[k].0 * shapes[k].1);
            let start = sum_of(sizes.take(k));
            lemma_position_in_range(row, col, shapes[k].0 as int, shapes[k].1 as int);
            assert((start + row) * cols + col == start * cols + (row * cols + col))
                by (nonlinear_arith);
            let all = joined(values);
            let part = all.subrange(
                joined(before).len() as int,
                (joined(before).len() + values[k].len()) as int,
            );
            assert(part[row * cols + col] == values[k][row * cols + col]);
        },
        MatrixAxis::Columns => {
            assert(shapes[k].0 == shapes[0].0);
            lemma_side_by_side_element(values, sizes, shapes[0].0 as nat, k, row, col);
        },
    }
}

/// The parts of a divided matrix are taken in order: along the rows, a part's rows come after
/// all rows of the parts before it; along the columns, its columns come after all columns of
/// the parts before it.
pub proof fn law_parts_are_taken_in_order(
    axis: MatrixAxis,
    a: Seq<Term>,
    rows: nat,
    cols: nat,
    sizes: Seq<usize>,
    k: int,
    row: int,
    col: int,
)
    requires
        a.len() == rows * cols,
        axis is Rows ==> sum_of(sizes) == rows,
        axis is Columns ==> sum_of(sizes) == cols,
        0 <= k < sizes.len(),
        axis is Rows ==> 0 <= row < sizes[k] && 0 <= col < cols,
        axis is Columns ==> 0 <= row < rows && 0 <= col < sizes[k],
    ensures
        axis is Rows ==> axis.part_along(a, rows, cols, sizes, k)[row * cols + col] == a[(sum_of(
            sizes.take(k),
        ) + row) * cols + col],
        axis is Columns ==> axis.part_along(a, rows, cols, sizes, k)[row * sizes[k] + col] == a[row
            * cols + sum_of(sizes.take(k)) + col],
{
    match axis {
        MatrixAxis::Rows => {
            lemma_sum_of_take(sizes, k);
            lemma_sum_of_le(sizes, k + 1);
            let start = sum_of(sizes.take(k));
            let end = sum_of(sizes.take(k + 1));
            let size = sizes[k] as nat;
            lemma_position_in_range(row, col, size as int, cols as int);
            assert((start + row) * cols + col == start * cols + (row * cols + col))
                by (nonlinear_arith);
            assert(end * cols == start * cols + size * cols) by (nonlinear_arith)
                requires
                    end == start + size,
            ;
            assert(end * cols <= rows * cols) by (nonlinear_arith)
                requires
                    end <= rows,
            ;
        },
        MatrixAxis::Columns => {
            law_windows_show_their_elements(
                a,
                cols,
                0,
                sum_of(sizes.take(k)) as int,
                rows,
                sizes[k] as nat,
                row,
                col,
            );
        },
    }
}

/// The parts of a matrix divided along an axis.
pub open spec fn parts_along(
    axis: MatrixAxis,
    a: Seq<Term>,
    rows: nat,
    cols: nat,
    sizes: Seq<usize>,
) -> Seq<Seq<Term>> {
    Seq::new(sizes.len(), |k: int| axis.part_along(a, rows, cols, sizes, k))
}

/// The shapes of the parts of a matrix divided along an axis.
pub open spec fn part_shapes(axis: MatrixAxis, rows: usize, cols: usize, sizes: Seq<usize>) -> Seq<
    (usize, usize),
> {
    Seq::new(
        sizes.len(),
        |k: int|
            match axis {
                MatrixAxis::Rows => (sizes[k], cols),
                MatrixAxis::Columns => (rows, sizes[k]),
            },
    )
}

/// A prefix of a matrix's rows, joined from its parts.
proof fn lemma_rows_rejoin(a: Seq<Term>, cols: nat, sizes: Seq<usize>, n: int)
    requires
        0 <= n <= sizes.len(),
        sum_of(sizes) * cols <= a.len(),
    ensures
        joined(
            Seq::new(
                sizes.len(),
                |k: int|
                    a.subrange(offset_of(sizes, k, cols), offset_of(sizes, k + 1, cols)),
            ).take(n),
        ) == a.take(offset_of(sizes, n, cols)),
    decreases n,
{
    let parts = Seq::new(
        sizes.len(),
        |k: int| a.subrange(offset_of(sizes, k, cols), offset_of(sizes, k + 1, cols)),
    );
    let upto = sum_of(sizes.take(n));
    lemma_sum_of_le(sizes, n);
    lemma_mul_le(upto as int, cols as int, sum_of(sizes) as int, cols as int);
    if n == 0 {
        assert(sizes.take(0) =~= Seq::empty());
        assert(parts.take(0) =~= Seq::empty());
        assert(0 * cols == 0) by (nonlinear_arith);
        assert(a.take(0) =~= Seq::empty());
    } else {
        lemma_rows_rejoin(a, cols, sizes, n - 1);
        lemma_joined_take(parts, n - 1);
        lemma_sum_of_take(sizes, n - 1);
        let before = sum_of(sizes.take(n - 1));
        lemma_mul_le(before as int, cols as int, upto as int, cols as int);
        let x = offset_of(sizes, n - 1, cols);
        let y = offset_of(sizes, n, cols);
        assert(a.take(x) + a.subrange(x, y) =~= a.take(y));
    }
}

/// Which part of a division a position falls into.
proof fn lemma_part_at(sizes: Seq<usize>, position: int)
    requires
        0 <= position < sum_of(sizes),
    ensures
        exists|k: int|
            0 <= k < sizes.len() && sum_of(#[trigger] sizes.take(k)) <= position < sum_of(
                sizes.take(k),
            ) + sizes[k],
    decreases sizes.len(),
{
    let n = sizes.len() - 1;
    let rest = sizes.drop_last();
    assert(sizes.take(n) =~= rest);
    if sum_of(rest) <= position {
        assert(sum_of(sizes.take(n)) <= position < sum_of(sizes.take(n)) + sizes[n]);
    } else {
        lemma_part_at(rest, position);
        let k = choose|k: int|
            0 <= k < rest.len() && sum_of(#[trigger] rest.take(k)) <= position < sum_of(
                rest.take(k),
            ) + rest[k];
        assert(rest.take(k) =~= sizes.take(k));
        assert(sum_of(sizes.take(k)) <= position < sum_of(sizes.take(k)) + sizes[k]);
    }
}

/// Joining what was divided gives the matrix back.
pub proof fn law_concat_undoes_split(
    axis: MatrixAxis,
    a: Seq<Term>,
    rows: usize,
    cols: usize,
    sizes: Seq<usize>,
)
    requires
        a.len() == rows * cols,
        partitions(sizes, axis.extent(rows, cols) as int),
    ensures
        axis.joined_along(
            parts_along(axis, a, rows as nat, cols as nat, sizes),
            part_shapes(axis, rows, cols, sizes),
        ) == a,
{
    let parts = parts_along(axis, a, rows as nat, cols as nat, sizes);
    let shapes = part_shapes(axis, rows, cols, sizes);
    assert(axis.extents(shapes) =~= sizes);
    match axis {
        MatrixAxis::Rows => {
            let n = sizes.len() as int;
            lemma_rows_rejoin(a, cols as nat, sizes, n);
            assert(sizes.take(n) =~= sizes);
            assert(parts =~= Seq::new(
                sizes.len(),
                |k: int|
                    a.subrange(
                        offset_of(sizes, k, cols as nat),
                        offset_of(sizes, k + 1, cols as nat),
                    ),
            ));
            assert(parts.take(n) =~= parts);
            assert(a.take(rows * cols) =~= a);
        },
        MatrixAxis::Columns => {
            let s = shapes[0];
            lemma_side_by_side_len(parts, sizes, rows as nat);
            let whole = side_by_side(parts, sizes, rows as nat);
            assert forall|i: int| 0 <= i < rows * cols implies whole[i] == a[i] by {
                if cols == 0 {
                    assert(rows * cols == 0) by (nonlinear_arith)
                        requires
                            cols == 0,
                    ;
                }
                lemma_position(i, rows as int, cols as int);
                let row = i / (cols as int);
                let col = i % (cols as int);
                lemma_part_at(sizes, col);
                let k = choose|k: int|
                    0 <= k < sizes.len() && sum_of(#[trigger] sizes.take(k)) <= col < sum_of(
                        sizes.take(k),
                    ) + sizes[k];
                let inner = col - sum_of(sizes.take(k));
                lemma_side_by_side_element(parts, sizes, rows as nat, k, row, inner);
                crate::cuda::arith::lemma_row_col(row, inner, sizes[k] as int);
                lemma_position_in_range(row, inner, rows as int, sizes[k] as int);
                assert(parts[k][row * sizes[k] + inner] == a[row * cols + col]);
            }
            assert(whole =~= a);
        },
    }
}

impl ConcatNode {
    pub fn new(axis: MatrixAxis) -> (r: ConcatNode)
        ensures
            r.axis == axis,
    {
        ConcatNode { axis }
    }

    pub fn axis(&self) -> (r: MatrixAxis)
        ensures
            r == self.axis,
    {
        self.axis
    }

    pub fn forward(&self, inputs: &Vec<&Matrix>, runtime: &mut CudaRuntime) -> (r: Matrix)
        requires
            old(runtime).wf(),
            forall|k: int|
                0 <= k < inputs@.len() ==> old(runtime).holds(*#[trigger] inputs@[k]),
            self.axis.joinable(shapes_of(referenced(inputs@))),
        ensures
            final(runtime).grown(*old(runtime), r.buffer.id, None),
            final(runtime).holds(r),
            self.axis.extent(r.rows, r.cols) == sum_of(
                self.axis.extents(shapes_of(referenced(inputs@))),
            ),
            self.axis.breadth(r.rows, r.cols) == self.axis.breadth(
                inputs@[0].rows,
                inputs@[0].cols,
            ),
            final(runtime).matrix(r) == self.axis.joined_along(
                values_of(*old(runtime), referenced(inputs@)),
                shapes_of(referenced(inputs@)),
            ),
    {
        proof {
            let all = referenced(inputs@);
            let shapes = shapes_of(all);
            assert(elements(*runtime, inputs@) =~= values_of(*runtime, all));
            assert(heights(inputs@) =~= MatrixAxis::Rows.extents(shapes));
            assert(widths(inputs@) =~= MatrixAxis::Columns.extents(shapes));
            assert(shapes[0] == (inputs@[0].rows, inputs@[0].cols));
            assert forall|k: int| 0 <= k < inputs@.len() implies runtime.holds(
                *#[trigger] inputs@[k],
            ) && self.axis.breadth(inputs@[k].rows, inputs@[k].cols) == self.axis.breadth(
                inputs@[0].rows,
                inputs@[0].cols,
            ) by {
                assert(shapes[k] == (inputs@[k].rows, inputs@[k].cols));
            }
        }
        match self.axis {
            MatrixAxis::Rows => runtime.matrix_concat_rows(inputs, None),
            MatrixAxis::Columns => runtime.matrix_concat_cols(inputs, None),
        }
    }

    pub fn forward_owned(&self, inputs: Vec<Matrix>, runtime: &mut CudaRuntime) -> (r: Matrix)
        requires
            old(runtime).wf(),
            old(runtime).holds_all(inputs@),
            self.axis.joinable(shapes_of(inputs@)),
        ensures
            final(runtime).exchanged(*old(runtime), ids(inputs@), set![r.buffer.id]),
            final(runtime).holds(r),
            !ids(inputs@).contains(r.buffer.id),
            self.axis.extent(r.rows, r.cols) == sum_of(self.axis.extents(shapes_of(inputs@))),
            self.axis.breadth(r.rows, r.cols) == self.axis.breadth(
                inputs@[0].rows,
                inputs@[0].cols,
            ),
            final(runtime).matrix(r) == self.axis.joined_along(
                values_of(*old(runtime), inputs@),
                shapes_of(inputs@),
            ),
    {
        let ghost before = *runtime;
        let ghost all = inputs@;
        let mut borrowed: Vec<&Matrix> = Vec::new();
        let mut index: usize = 0;
        while index < inputs.len()
            invariant
                index <= inputs@.len(),
                borrowed@.len() == index,
                forall|k: int| 0 <= k < index ==> *(#[trigger] borrowed@[k]) == inputs@[k],
            decreases inputs@.len() - index,
        {
            borrowed.push(&inputs[index]);
            index = index + 1;
        }
        proof {
            assert(referenced(borrowed@) =~= all);
            assert forall|k: int| 0 <= k < borrowed@.len() implies before.holds(
                *#[trigger] borrowed@[k],
            ) by {
                assert(before.holds(all[k]));
            }
        }
        let output = self.forward(&borrowed, runtime);
        let ghost s1 = *runtime;
        proof {
            assert forall|k: int| #![trigger all[k]] 0 <= k < all.len() implies s1.holds(all[k])
                && before.live@.contains(all[k].buffer.id) by {
                assert(before.holds(all[k]));
                assert(s1.buffers@[all[k].buffer.id as int] == all[k].buffer.len);
            }
        }
        recycle_all(inputs, runtime);
        proof {
            assert(runtime.ran_on(s1, chosen(None)));
            assert(runtime.live@ =~= before.live@.difference(ids(all)).union(
                set![output.buffer.id],
            ));
            assert(runtime.buffers@[output.buffer.id as int] == output.buffer.len);
            assert(runtime.keeps(before, ids(all)));
        }
        output
    }
}

/// The shape of matrices of these shapes joined along an axis, if they can be:
/// there is one at least, they agree across the axis, and the sum along it is
/// representable.
pub fn concatenated_shape(axis: MatrixAxis, shapes: &Vec<(usize, usize)>) -> (r: Option<
    (usize, usize),
>)
    ensures
        r is Some <==> shapes@.len() > 0 && axis.agrees(shapes@) && sum_of(axis.extents(shapes@))
            <= usize::MAX,
        r matches Some(shape) ==> axis.extent(shape.0, shape.1) == sum_of(axis.extents(shapes@))
            && axis.breadth(shape.0, shape.1) == axis.breadth(shapes@[0].0, shapes@[0].1),
{
    if shapes.len() == 0 {
        return None;
    }
    let (first_rows, first_cols) = shapes[0];
    let ghost sizes = axis.extents(shapes@);
    let mut extent: usize = 0;
    let mut index: usize = 0;
    proof {
        assert(sizes.take(0) =~= Seq::empty());
    }
    while index < shapes.len()
        invariant
            index <= shapes@.len(),
            shapes@.len() > 0,
            shapes@[0] == (first_rows, first_cols),
            sizes == axis.extents(shapes@),
            extent == sum_of(sizes.take(index as int)),
            forall|j: int|
                #![trigger shapes@[j]]
                0 <= j < index ==> axis.breadth(shapes@[j].0, shapes@[j].1) == axis.breadth(
                    first_rows,
                    first_cols,
                ),
        decreases shapes@.len() - index,
    {
        let (rows, cols) = shapes[index];
        let (along, across, first_across): (usize, usize, usize) = match axis {
            MatrixAxis::Rows => (rows, cols, first_cols),
            MatrixAxis::Columns => (cols, rows, first_rows),
        };
        proof {
            assert(shapes@[index as int] == (rows, cols));
            lemma_sum_of_take(sizes, index as int);
            lemma_sum_of_le(sizes, index + 1);
        }
        if across != first_across {
            return None;
        }
        match extent.checked_add(along) {
            Some(longer) => {
                extent = longer;
            },
            None => {
                return None;
            },
        }
        index = index + 1;
    }
    proof {
        assert(sizes.take(index as int) =~= sizes);
    }
    match axis {
        MatrixAxis::Rows => Some((extent, first_cols)),
        MatrixAxis::Columns => Some((first_rows, extent)),
    }
}

/// Divides a matrix along an axis.
fn split(input: &Matrix, axis: MatrixAxis, sizes: &Vec<usize>, runtime: &mut CudaRuntime) -> (r: Vec<
    Matrix,
>)
    requires
        old(runtime).wf(),
        old(runtime).holds(*input),
        partitions(sizes@, axis.extent(input.rows, input.cols) as int),
    ensures
        final(runtime).grown_by(*old(runtime), r@, None),
        shapes_of(r@) == part_shapes(axis, input.rows, input.cols, sizes@),
        values_of(*final(runtime), r@) == parts_along(
            axis,
            old(runtime).matrix(*input),
            input.rows as nat,
            input.cols as nat,
            sizes@,
        ),
{
    let ghost before = *runtime;
    let parts = match axis {
        MatrixAxis::Rows => runtime.matrix_split_rows(input, sizes, None),
        MatrixAxis::Columns => runtime.matrix_split_cols(input, sizes, None),
    };
    proof {
        assert(shapes_of(parts@) =~= part_shapes(axis, input.rows, input.cols, sizes@));
        let values = values_of(*runtime, parts@);
        let expected = parts_along(
            axis,
            before.matrix(*input),
            input.rows as nat,
            input.cols as nat,
            sizes@,
        );
        assert forall|k: int| 0 <= k < values.len() implies values[k] == expected[k] by {
            let part = parts@[k];
        }
        assert(values =~= expected);
    }
    parts
}

/// Divides a matrix and gives it back.
fn split_owned(input: Matrix, axis: MatrixAxis, sizes: &Vec<usize>, runtime: &mut CudaRuntime) -> (r:
    Vec<Matrix>)
    requires
        old(runtime).wf(),
        old(runtime).holds(input),
        partitions(sizes@, axis.extent(input.rows, input.cols) as int),
    ensures
        final(runtime).holds_all(r@),
        final(runtime).exchanged(*old(runtime), set![input.buffer.id], ids(r@)),
        !ids(r@).contains(input.buffer.id),
        shapes_of(r@) == part_shapes(axis, input.rows, input.cols, sizes@),
        values_of(*final(runtime), r@) == parts_along(
            axis,
            old(runtime).matrix(input),
            input.rows as nat,
            input.cols as nat,
            sizes@,
        ),
{
    let ghost before = *runtime;
    let parts = split(&input, axis, sizes, runtime);
    let ghost s1 = *runtime;
    assert(s1.buffers@[input.buffer.id as int] == input.buffer.len);
    runtime.recycle_matrix(input);
    proof {
        let all = parts@;
        assert(runtime.ran_on(s1, chosen(None)));
        assert forall|k: int| #![trigger all[k]] 0 <= k < all.len() implies runtime.holds(all[k])
            && runtime.matrix(all[k]) == s1.matrix(all[k]) && !before.live@.contains(
            all[k].buffer.id,
        ) by {
            assert(s1.holds(all[k]));
            assert(runtime.buffers@[all[k].buffer.id as int] == all[k].buffer.len);
        }
        assert(values_of(*runtime, all) =~= values_of(s1, all));
        assert(runtime.live@ =~= before.live@.difference(set![input.buffer.id]).union(ids(all)));
        assert(runtime.keeps(before, set![input.buffer.id]));
    }
    parts
}

impl TrainingConcatNode {
    pub fn new(axis: MatrixAxis) -> (r: TrainingConcatNode)
        ensures
            r.node.axis == axis,
            r.input_shapes is None,
    {
        TrainingConcatNode { node: ConcatNode::new(axis), input_shapes: None }
    }

    pub fn axis(&self) -> (r: MatrixAxis)
        ensures
            r == self.node.axis,
    {
        self.node.axis()
    }

    /// The remembered shapes.
    pub open spec fn shapes(self) -> Seq<(usize, usize)> {
        match self.input_shapes {
            Some(shapes) => shapes@,
            None => Seq::empty(),
        }
    }

    pub fn forward(&mut self, inputs: Vec<Matrix>, runtime: &mut CudaRuntime) -> (r: Matrix)
        requires
            old(runtime).wf(),
            old(runtime).holds_all(inputs@),
            old(self).node.axis.joinable(shapes_of(inputs@)),
        ensures
            final(self).node == old(self).node,
            final(self).input_shapes is Some,
            final(self).shapes() == shapes_of(inputs@),
            final(runtime).exchanged(*old(runtime), ids(inputs@), set![r.buffer.id]),
            final(runtime).holds(r),
            old(self).node.axis.extent(r.rows, r.cols) == sum_of(
                old(self).node.axis.extents(shapes_of(inputs@)),
            ),
            old(self).node.axis.breadth(r.rows, r.cols) == old(self).node.axis.breadth(
                inputs@[0].rows,
                inputs@[0].cols,
            ),
            final(runtime).matrix(r) == old(self).node.axis.joined_along(
                values_of(*old(runtime), inputs@),
                shapes_of(inputs@),
            ),
    {
        let mut shapes: Vec<(usize, usize)> = Vec::new();
        let mut index: usize = 0;
        while index < inputs.len()
            invariant
                index <= inputs@.len(),
                shapes@.len() == index,
                forall|k: int|
                    0 <= k < index ==> #[trigger] shapes@[k] == (inputs@[k].rows, inputs@[k].cols),
            decreases inputs@.len() - index,
        {
            shapes.push((inputs[index].rows, inputs[index].cols));
            index = index + 1;
        }
        assert(shapes@ =~= shapes_of(inputs@));
        self.input_shapes = Some(shapes);
        self.node.forward_owned(inputs, runtime)
    }

    /// Divides the gradient as the inputs were joined.
    pub fn backward(&mut self, output_gradient: Matrix, runtime: &mut CudaRuntime) -> (r: Vec<
        Matrix,
    >)
        requires
            old(runtime).wf(),
            old(self).input_shapes is Some,
            old(self).node.axis.agrees(old(self).shapes()),
            partitions(
                old(self).node.axis.extents(old(self).shapes()),
                old(self).node.axis.extent(output_gradient.rows, output_gradient.cols) as int,
            ),
            old(self).node.axis.breadth(output_gradient.rows, output_gradient.cols) == old(
                self).node.axis.breadth(old(self).shapes()[0].0, old(self).shapes()[0].1),
            old(runtime).holds(output_gradient),
        ensures
            final(self).node == old(self).node,
            final(self).input_shapes is None,
            final(runtime).holds_all(r@),
            final(runtime).exchanged(*old(runtime), set![output_gradient.buffer.id], ids(r@)),
            shapes_of(r@) == old(self).shapes(),
            values_of(*final(runtime), r@) == parts_along(
                old(self).node.axis,
                old(runtime).matrix(output_gradient),
                output_gradient.rows as nat,
                output_gradient.cols as nat,
                old(self).node.axis.extents(old(self).shapes()),
            ),
    {
        let axis = self.node.axis;
        let ghost all = self.shapes();
        if let Some(shapes) = self.input_shapes.take() {
            let mut sizes: Vec<usize> = Vec::new();
            let mut index: usize = 0;
            while index < shapes.len()
                invariant
                    index <= shapes@.len(),
                    sizes@.len() == index,
                    forall|k: int|
                        0 <= k < index ==> #[trigger] sizes@[k] == axis.extent(
                            shapes@[k].0,
                            shapes@[k].1,
                        ),
                decreases shapes@.len() - index,
            {
                let (rows, cols) = shapes[index];
                sizes.push(
                    match axis {
                        MatrixAxis::Rows => rows,
                        MatrixAxis::Columns => cols,
                    },
                );
                index = index + 1;
            }
            proof {
                assert(sizes@ =~= axis.extents(all));
                assert(part_shapes(axis, output_gradient.rows, output_gradient.cols, sizes@) =~= all) by {
                    assert forall|k: int| 0 <= k < all.len() implies part_shapes(
                        axis,
                        output_gradient.rows,
                        output_gradient.cols,
                        sizes@,
                    )[k] == all[k] by {
                        assert(axis.breadth(all[k].0, all[k].1) == axis.breadth(all[0].0, all[0].1));
                    }
                }
            }
            split_owned(output_gradient, axis, &sizes, runtime)
        } else {
            proof {
                assert(false);
            }
            Vec::new()
        }
    }

    pub fn clear_cache(&mut self)
        ensures
            final(self).node == old(self).node,
            final(self).input_shapes is None,
    {
        self.input_shapes = None;
    }
}

impl SplitNode {
    pub fn new(axis: MatrixAxis, sizes: Vec<usize>) -> (r: SplitNode)
        requires
            sizes@.len() > 0,
            forall|k: int| 0 <= k < sizes@.len() ==> #[trigger] sizes@[k] > 0,
        ensures
            r.axis == axis,
            r.sizes == sizes,
    {
        SplitNode { axis, sizes }
    }

    pub fn axis(&self) -> (r: MatrixAxis)
        ensures
            r == self.axis,
    {
        self.axis
    }

    pub fn sizes(&self) -> (r: &Vec<usize>)
        ensures
            *r == self.sizes,
    {
        &self.sizes
    }

    pub fn forward(&self, input: Matrix, runtime: &mut CudaRuntime) -> (r: Vec<Matrix>)
        requires
            old(runtime).wf(),
            old(runtime).holds(input),
            partitions(self.sizes@, self.axis.extent(input.rows, input.cols) as int),
        ensures
            final(runtime).holds_all(r@),
            final(runtime).exchanged(*old(runtime), set![input.buffer.id], ids(r@)),
            shapes_of(r@) == part_shapes(self.axis, input.rows, input.cols, self.sizes@),
            values_of(*final(runtime), r@) == parts_along(
                self.axis,
                old(runtime).matrix(input),
                input.rows as nat,
                input.cols as nat,
                self.sizes@,
            ),
    {
        split_owned(input, self.axis, &self.sizes, runtime)
    }
}

impl TrainingSplitNode {
    pub fn new(axis: MatrixAxis, sizes: Vec<usize>) -> (r: TrainingSplitNode)
        requires
            sizes@.len() > 0,
            forall|k: int| 0 <= k < sizes@.len() ==> #[trigger] sizes@[k] > 0,
        ensures
            r.node.axis == axis,
            r.node.sizes == sizes,
            !r.forward_pending,
    {
        TrainingSplitNode { node: SplitNode::new(axis, sizes), forward_pending: false }
    }

    pub fn axis(&self) -> (r: MatrixAxis)
        ensures
            r == self.node.axis,
    {
        self.node.axis()
    }

    pub fn sizes(&self) -> (r: &Vec<usize>)
        ensures
            *r == self.node.sizes,
    {
        self.node.sizes()
    }

    pub fn forward(&mut self, input: Matrix, runtime: &mut CudaRuntime) -> (r: Vec<Matrix>)
        requires
            old(runtime).wf(),
            !old(self).forward_pending,
            old(runtime).holds(input),
            partitions(
                old(self).node.sizes@,
                old(self).node.axis.extent(input.rows, input.cols) as int,
            ),
        ensures
            final(self).node == old(self).node,
            final(self).forward_pending,
            final(runtime).holds_all(r@),
            final(runtime).exchanged(*old(runtime), set![input.buffer.id], ids(r@)),
            shapes_of(r@) == part_shapes(
                old(self).node.axis,
                input.rows,
                input.cols,
                old(self).node.sizes@,
            ),
            values_of(*final(runtime), r@) == parts_along(
                old(self).node.axis,
                old(runtime).matrix(input),
                input.rows as nat,
                input.cols as nat,
                old(self).node.sizes@,
            ),
    {
        let outputs = self.node.forward(input, runtime);
        self.forward_pending = true;
        outputs
    }

    /// Joins the gradients as the input was divided.
    pub fn backward(&mut self, output_gradients: Vec<Matrix>, runtime: &mut CudaRuntime) -> (r: Matrix)
        requires
            old(runtime).wf(),
            old(self).forward_pending,
            old(runtime).holds_all(output_gradients@),
            old(self).node.axis.extents(shapes_of(output_gradients@)) == old(self).node.sizes@,
            old(self).node.axis.joinable(shapes_of(output_gradients@)),
        ensures
            final(self).node == old(self).node,
            !final(self).forward_pending,
            final(runtime).exchanged(*old(runtime), ids(output_gradients@), set![r.buffer.id]),
            final(runtime).holds(r),
            old(self).node.axis.extent(r.rows, r.cols) == sum_of(old(self).node.sizes@),
            old(self).node.axis.breadth(r.rows, r.cols) == old(self).node.axis.breadth(
                output_gradients@[0].rows,
                output_gradients@[0].cols,
            ),
            final(runtime).matrix(r) == old(self).node.axis.joined_along(
                values_of(*old(runtime), output_gradients@),
                shapes_of(output_gradients@),
            ),
    {
        self.forward_pending = false;
        ConcatNode::new(self.node.axis).forward_owned(output_gradients, runtime)
    }

    pub fn clear_cache(&mut self)
        ensures
            final(self).node == old(self).node,
            !final(self).forward_pending,
    {
        self.forward_pending = false;
    }
}

impl FanOutMode {
    /// What the mode makes of a matrix for `count` branches.
    pub open spec fn share(self, a: Seq<Term>, count: usize) -> Seq<Term> {
        match self {
            FanOutMode::Copy => a,
            FanOutMode::Average => apply(MapFn::Scale(Scalar::Reciprocal(count)), a),
        }
    }
}

/// Equal copies of a matrix, the matrix itself last.
pub(crate) fn duplicate(input: Matrix, count: usize, runtime: &mut CudaRuntime) -> (r: Vec<Matrix>)
    requires
        old(runtime).wf(),
        old(runtime).holds(input),
        count >= 1,
    ensures
        r@.len() == count,
        r@[count - 1] == input,
        final(runtime).holds_all(r@),
        final(runtime).exchanged(*old(runtime), set![input.buffer.id], ids(r@)),
        forall|k: int|
            0 <= k < count ==> (#[trigger] r@[k]).rows == input.rows && r@[k].cols == input.cols
                && final(runtime).matrix(r@[k]) == old(runtime).matrix(input),
{
    let ghost before = *runtime;
    let mut outputs: Vec<Matrix> = Vec::new();
    let mut index: usize = 1;
    proof {
        runtime.lemma_ran_on_nothing(chosen(None));
        assert(ids(outputs@) =~= Set::empty());
    }
    while index < count
        invariant
            1 <= index <= count,
            outputs@.len() == index - 1,
            before.wf(),
            before.holds(input),
            runtime.grown_by(before, outputs@, None),
            forall|k: int|
                0 <= k < outputs@.len() ==> (#[trigger] outputs@[k]).rows == input.rows
                    && outputs@[k].cols == input.cols && runtime.matrix(outputs@[k])
                    == before.matrix(input),
        decreases count - index,
    {
        let ghost s0 = *runtime;
        let ghost made = outputs@;
        proof {
            assert(s0.buffers@[input.buffer.id as int] == input.buffer.len);
        }
        let copy = runtime.clone_matrix(&input, None);
        proof {
            runtime.lemma_grown_by_push(s0, before, made, copy, None);
        }
        outputs.push(copy);
        index = index + 1;
    }
    let ghost made = outputs@;
    outputs.push(input);
    proof {
        let all = outputs@;
        lemma_ids_push(made, input);
        assert(runtime.buffers@[input.buffer.id as int] == input.buffer.len);
        assert forall|k: int| #![trigger all[k]] 0 <= k < all.len() implies runtime.holds(all[k])
            && runtime.matrix(all[k]) == before.matrix(input) by {
            if k < made.len() {
                assert(all[k] == made[k]);
            }
        }
        assert(distinct(all)) by {
            assert forall|i: int, j: int|
                #![trigger all[i], all[j]]
                0 <= i < j < all.len() implies all[i].buffer.id != all[j].buffer.id by {
                assert(all[i] == made[i]);
                if j < made.len() {
                    assert(all[j] == made[j]);
                }
            }
        }
        assert(runtime.live@ =~= before.live@.difference(set![input.buffer.id]).union(ids(all)));
        assert forall|id: usize| #![trigger ids(all).contains(id)] ids(all).contains(id) implies (
        !before.live@.contains(id) || id == input.buffer.id) by {
            if ids(made).contains(id) {
                let k = choose|k: int| 0 <= k < made.len() && (#[trigger] made[k]).buffer.id == id;
            }
        }
    }
    outputs
}

impl FanOutNode {
    pub fn new(mode: FanOutMode, output_count: usize) -> (r: FanOutNode)
        requires
            output_count >= 2,
        ensures
            r.mode == mode,
            r.output_count == output_count,
    {
        FanOutNode { mode, output_count }
    }

    pub fn mode(&self) -> (r: FanOutMode)
        ensures
            r == self.mode,
    {
        self.mode
    }

    pub fn output_count(&self) -> (r: usize)
        ensures
            r == self.output_count,
    {
        self.output_count
    }

    /// Consumes one matrix and returns independently owned, equal-shaped
    /// outputs. An average hands every branch its share of the input.
    pub fn forward(&self, input: Matrix, runtime: &mut CudaRuntime) -> (r: Vec<Matrix>)
        requires
            old(runtime).wf(),
            old(runtime).holds(input),
            self.output_count >= 2,
        ensures
            r@.len() == self.output_count,
            final(runtime).holds_all(r@),
            final(runtime).exchanged(*old(runtime), set![input.buffer.id], ids(r@)),
            forall|k: int|
                0 <= k < r@.len() ==> (#[trigger] r@[k]).rows == input.rows && r@[k].cols
                    == input.cols && final(runtime).matrix(r@[k]) == self.mode.share(
                    old(runtime).matrix(input),
                    self.output_count,
                ),
    {
        let ghost before = *runtime;
        let mut input = input;
        proof {
            runtime.lemma_ran_on_nothing(chosen(None));
        }
        if let FanOutMode::Average = self.mode {
            input.scale(Scalar::Reciprocal(self.output_count), runtime, None);
            assert(runtime.buffers@[input.buffer.id as int] == input.buffer.len);
        }
        let ghost s1 = *runtime;
        let outputs = duplicate(input, self.output_count, runtime);
        proof {
            assert(s1.live@ == before.live@);
            assert(runtime.live@ =~= before.live@.difference(set![input.buffer.id]).union(
                ids(outputs@),
            ));
            assert(runtime.keeps(before, set![input.buffer.id]));
        }
        outputs
    }

    /// Rejoins branch gradients according to the fan-out derivative.
    pub fn backward(&self, output_gradients: Vec<Matrix>, runtime: &mut CudaRuntime) -> (r: Matrix)
        requires
            old(runtime).wf(),
            self.output_count >= 2,
            output_gradients@.len() == self.output_count,
            old(runtime).holds_all(output_gradients@),
            BinaryOp::Add.fits(output_gradients@),
        ensures
            final(runtime).exchanged(*old(runtime), ids(output_gradients@), set![r.buffer.id]),
            final(runtime).holds(r),
            r == output_gradients@[0],
            final(runtime).matrix(r) == self.mode.share(
                sum_of_first(
                    values_of(*old(runtime), output_gradients@),
                    self.output_count as int,
                ),
                self.output_count,
            ),
    {
        let ghost before = *runtime;
        let ghost all = output_gradients@;
        let mut gradient = BinaryNode::new(BinaryOp::Add).forward_owned(output_gradients, runtime);
        let ghost s1 = *runtime;
        if let FanOutMode::Average = self.mode {
            gradient.scale(Scalar::Reciprocal(self.output_count), runtime, None);
            proof {
                assert(runtime.buffers@[gradient.buffer.id as int] == gradient.buffer.len);
                assert(ids(all).contains(all[0].buffer.id));
                assert(runtime.keeps(before, ids(all)));
            }
        }
        gradient
    }
}

impl TrainingFanOutNode {
    pub fn new(mode: FanOutMode, output_count: usize) -> (r: TrainingFanOutNode)
        requires
            output_count >= 2,
        ensures
            r.node.mode == mode,
            r.node.output_count == output_count,
            !r.forward_pending,
    {
        TrainingFanOutNode { node: FanOutNode::new(mode, output_count), forward_pending: false }
    }

    pub fn mode(&self) -> (r: FanOutMode)
        ensures
            r == self.node.mode,
    {
        self.node.mode()
    }

    pub fn output_count(&self) -> (r: usize)
        ensures
            r == self.node.output_count,
    {
        self.node.output_count()
    }

    pub fn forward(&mut self, input: Matrix, runtime: &mut CudaRuntime) -> (r: Vec<Matrix>)
        requires
            old(runtime).wf(),
            old(runtime).holds(input),
            old(self).node.output_count >= 2,
            !old(self).forward_pending,
        ensures
            final(self).node == old(self).node,
            final(self).forward_pending,
            r@.len() == old(self).node.output_count,
            final(runtime).holds_all(r@),
            final(runtime).exchanged(*old(runtime), set![input.buffer.id], ids(r@)),
            forall|k: int|
                0 <= k < r@.len() ==> (#[trigger] r@[k]).rows == input.rows && r@[k].cols
                    == input.cols && final(runtime).matrix(r@[k]) == old(self).node.mode.share(
                    old(runtime).matrix(input),
                    old(self).node.output_count,
                ),
    {
        let outputs = self.node.forward(input, runtime);
        self.forward_pending = true;
        outputs
    }

    pub fn backward(&mut self, output_gradients: Vec<Matrix>, runtime: &mut CudaRuntime) -> (r: Matrix)
        requires
            old(runtime).wf(),
            old(self).forward_pending,
            old(self).node.output_count >= 2,
            output_gradients@.len() == old(self).node.output_count,
            old(runtime).holds_all(output_gradients@),
            BinaryOp::Add.fits(output_gradients@),
        ensures
            final(self).node == old(self).node,
            !final(self).forward_pending,
            final(runtime).exchanged(*old(runtime), ids(output_gradients@), set![r.buffer.id]),
            final(runtime).holds(r),
            r == output_gradients@[0],
            final(runtime).matrix(r) == old(self).node.mode.share(
                sum_of_first(
                    values_of(*old(runtime), output_gradients@),
                    old(self).node.output_count as int,
                ),
                old(self).node.output_count,
            ),
    {
        let gradient = self.node.backward(output_gradients, runtime);
        self.forward_pending = false;
        gradient
    }

    pub fn clear_cache(&mut self)
        ensures
            final(self).node == old(self).node,
            !final(self).forward_pending,
    {
        self.forward_pending = false;
    }
}

} // verus!
