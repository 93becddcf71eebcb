//! Work that goes row by row.

use vstd::prelude::*;

use super::{whole, Matrix, Vector};
use crate::cuda::algebra::{row_totals, zip_by_rows};
use crate::cuda::arith::{ceil_div, div_ceil, lemma_ceil_div};
use crate::cuda::command::{Kernel, LaunchConfig, Stream};
use crate::cuda::exact::{law_row_totals_are_sums, lemma_sum_equal, sum, Exact};
use crate::cuda::launch::lemma_elementwise_fits;
use crate::cuda::ops::BinaryFn;
use crate::cuda::runtime::{chosen, CudaRuntime, DEFAULT_BLOCK_SIZE};
use crate::cuda::span::{DeviceSpan, DeviceSpanMut};

verus! {

broadcast use crate::cuda::runtime::group_streams;

impl Matrix {
    /// Combines every row with one vector. Nothing is issued for an empty
    /// matrix.
    pub fn binary_assign_by_rows(
        &mut self,
        vec: &Vector,
        f: BinaryFn,
        runtime: &mut CudaRuntime,
        stream: Option<Stream>,
    )
        requires
            old(runtime).wf(),
            old(runtime).holds(*old(self)),
            old(runtime).holds_vector(*vec),
            old(self).cols == vec.buffer.len,
        ensures
            *final(self) == *old(self),
            final(runtime).changed(*old(runtime), old(self).buffer.id, stream),
            final(runtime).matrix(*old(self)) == zip_by_rows(
                f,
                old(runtime).matrix(*old(self)),
                old(runtime).vector(*vec),
                old(self).cols as nat,
            ),
            old(self).buffer.len == 0 ==> *final(runtime) == *old(runtime),
            old(self).buffer.len > 0 ==> final(runtime).launched(
                *old(runtime),
                Kernel::BinaryAssignByRows {
                    matrix: whole(old(self).buffer),
                    row: whole(vec.buffer),
                    cols: old(self).cols,
                    f,
                },
                LaunchConfig::line(
                    ceil_div(old(self).buffer.len as int, DEFAULT_BLOCK_SIZE as int),
                    DEFAULT_BLOCK_SIZE as int,
                    0,
                ),
                stream,
            ),
            final(runtime).confined(
                *old(runtime),
                set![vec.buffer.id],
                set![old(self).buffer.id],
            ),
    {
        let ghost before = *runtime;
        proof {
            runtime.lemma_whole(self.buffer);
            runtime.lemma_whole(vec.buffer);
            runtime.lemma_ran_on_nothing(chosen(stream));
            runtime.lemma_confined_nothing(set![vec.buffer.id], set![self.buffer.id]);
            lemma_elementwise_fits(self.buffer.len as int);
        }
        if self.buffer.is_empty() {
            assert(runtime.matrix(*self) =~= zip_by_rows(
                f,
                runtime.matrix(*self),
                runtime.vector(*vec),
                self.cols as nat,
            ));
            return;
        }
        let config = runtime.get_launch_config(self.buffer.len(), DEFAULT_BLOCK_SIZE);
        let len: usize = self.buffer.len();
        let cols: usize = self.cols;
        let matrix = DeviceSpanMut::from_buffer(&mut self.buffer, 0, len);
        let rhs = DeviceSpan::from_buffer(&vec.buffer, 0, vec.buffer.len());
        runtime.enqueue(
            Kernel::BinaryAssignByRows {
                matrix: matrix.descriptor(),
                row: rhs.descriptor(),
                cols,
                f,
            },
            config,
            stream,
        );
        assert(runtime.matrix(*self) =~= zip_by_rows(
            f,
            before.matrix(*self),
            before.vector(*vec),
            cols as nat,
        ));
    }
}

impl CudaRuntime {
    /// The sum of every row.
    pub fn matrix_sum_rows(&mut self, matrix: &Matrix, stream: Option<Stream>) -> (r: Vector)
        requires
            old(self).wf(),
            old(self).holds(*matrix),
            matrix.rows > 0 ==> matrix.cols > 0,
            matrix.rows <= u32::MAX,
        ensures
            final(self).grown(*old(self), r.buffer.id, stream),
            final(self).holds_vector(r),
            r.buffer.len == matrix.rows,
            final(self).vector(r) == row_totals(
                old(self).matrix(*matrix),
                matrix.rows as nat,
                matrix.cols as nat,
            ),
            forall|c: Exact, row: int|
                0 <= row < matrix.rows ==> #[trigger] c.value(final(self).vector(r)[row]) == sum(
                    matrix.cols as nat,
                    |k: int| c.entry(old(self).matrix(*matrix), matrix.cols as int, row, k),
                ),
    {
        let ghost before = *self;
        proof {
            self.lemma_whole(matrix.buffer);
        }
        if matrix.rows == 0 {
            let buffer = self.get_uninit_buffer(0);
            proof {
                assert(self.grown(before, buffer.id, stream));
                self.lemma_whole(buffer);
                assert(self.mem(buffer.id) =~= row_totals(
                    before.matrix(*matrix),
                    matrix.rows as nat,
                    matrix.cols as nat,
                ));
            }
            return self.create_vector(buffer);
        }
        proof {
            assert(matrix.rows <= matrix.rows * matrix.cols) by (nonlinear_arith)
                requires
                    matrix.cols >= 1,
            ;
        }
        let mut buffer = self.get_uninit_buffer(matrix.rows);
        assert(self.grown(before, buffer.id, stream));
        proof {
            self.lemma_whole(buffer);
            self.lemma_whole(matrix.buffer);
        }
        let per_thread: usize = div_ceil(matrix.cols, DEFAULT_BLOCK_SIZE);
        let config = LaunchConfig::new_1d(matrix.rows as u32, 1024, 128);
        let input = DeviceSpan::from_buffer(&matrix.buffer, 0, matrix.buffer.len());
        let result_len: usize = buffer.len();
        let result = DeviceSpanMut::from_buffer(&mut buffer, 0, result_len);
        self.enqueue(
            Kernel::SumRows {
                matrix: input.descriptor(),
                result: result.descriptor(),
                cols: matrix.cols,
                elements_per_thread: per_thread,
            },
            config,
            stream,
        );
        proof {
            lemma_ceil_div(matrix.cols as int, 1024);
            assert(config.block_x * per_thread >= matrix.cols) by (nonlinear_arith)
                requires
                    config.block_x == 1024,
                    per_thread * 1024 >= matrix.cols,
            ;
            assert(self.mem(buffer.id) =~= row_totals(
                before.matrix(*matrix),
                matrix.rows as nat,
                matrix.cols as nat,
            ));
            let a = before.matrix(*matrix);
            assert forall|c: Exact, row: int| 0 <= row < matrix.rows implies #[trigger] c.value(
                self.mem(buffer.id)[row],
            ) == sum(
                matrix.cols as nat,
                |k: int| c.entry(a, matrix.cols as int, row, k),
            ) by {
                law_row_totals_are_sums(c, a, matrix.rows as nat, matrix.cols as nat, row);
                lemma_sum_equal(
                    matrix.cols as nat,
                    |k: int| c.entry(a, matrix.cols as nat as int, row, k),
                    |k: int| c.entry(a, matrix.cols as int, row, k),
                );
            }
        }
        self.create_vector(buffer)
    }
}

} // verus!
