//! Softmax and normalisation of rows, with their derivatives.

use vstd::arithmetic::power2::{lemma2_to64, lemma_pow2_adds, lemma_pow2_pos, pow2};
use vstd::prelude::*;

use super::matrix::row_blocks_fit;
use super::Matrix;
use crate::cuda::algebra::{row_apply, row_gradient};
use crate::cuda::command::{Kernel, LaunchConfig, Stream};
use crate::cuda::ops::RowFn;
use crate::cuda::runtime::{chosen, CudaRuntime};
use crate::cuda::scalar::{exponent_field, fraction_field, magnitude, F32, ONE_BITS};
use crate::cuda::span::{DeviceSpan, DeviceSpanMut};

verus! {

broadcast use {crate::cuda::runtime::group_streams, crate::cuda::elementwise::lemma_launched};

/// What keeps normalisation away from a division by zero: 1e-5 in single
/// precision.
pub const NORM_EPSILON_BITS: u32 = 0x3727_c5ac;

/// The epsilon is the single that is nearest to a hundred-thousandth: it is off by no more than
/// half the distance to the next one.
pub proof fn law_epsilon_is_a_hundred_thousandth()
    ensures
        ({
            let epsilon = (F32 { bits: NORM_EPSILON_BITS }).value();
            let one = (F32 { bits: ONE_BITS }).value();
            let next = (F32 { bits: (NORM_EPSILON_BITS + 1) as u32 }).value();
            &&& epsilon < next
            &&& 2 * (one - 100000 * epsilon) <= 100000 * (next - epsilon)
            &&& 2 * (100000 * epsilon - one) <= 100000 * (next - epsilon)
        }),
{
    let unit = pow2(109);
    let factor = pow2(17);
    let eps = (F32 { bits: NORM_EPSILON_BITS });
    let next = (F32 { bits: 0x3727_c5adu32 });
    let unity = (F32 { bits: ONE_BITS });
    lemma_pow2_pos(109);
    lemma_pow2_adds(109, 17);
    lemma2_to64();
    assert(factor == 131072);
    assert(pow2(126) == unit * factor);
    assert(exponent_field(0x3727_c5acu32) == 110 && exponent_field(0x3727_c5adu32) == 110);
    assert(fraction_field(0x3727_c5acu32) == 2606508 && fraction_field(0x3727_c5adu32) == 2606509);
    assert(exponent_field(ONE_BITS) == 127 && fraction_field(ONE_BITS) == 0);
    assert(magnitude(0x3727_c5acu32) == 10995116 * unit);
    assert(magnitude(0x3727_c5adu32) == 10995117 * unit);
    assert(magnitude(ONE_BITS) == 8388608 * pow2(126));
    assert(8388608 * (unit * 131072) == 1099511627776 * unit) by (nonlinear_arith);
    assert(eps.value() == 10995116 * unit);
    assert(next.value() == 10995117 * unit);
    assert(unity.value() == 1099511627776 * unit);
    assert(100000 * (10995116 * unit) == 1099511600000 * unit) by (nonlinear_arith);
}

/// Softmax of a row.
pub open spec fn softmax_fn() -> RowFn {
    RowFn::Softmax
}

/// Layer normalisation of a row.
pub open spec fn layer_norm_fn() -> RowFn {
    RowFn::LayerNorm(F32 { bits: NORM_EPSILON_BITS })
}

/// Root-mean-square normalisation of a row.
pub open spec fn rms_norm_fn() -> RowFn {
    RowFn::RmsNorm(F32 { bits: NORM_EPSILON_BITS })
}

impl Matrix {
    /// Replaces every row by its softmax.
    pub fn softmax_rows(&mut self, runtime: &mut CudaRuntime, stream: Option<Stream>)
        requires
            old(runtime).wf(),
            old(runtime).holds(*old(self)),
            row_blocks_fit(old(self).rows as int, old(self).cols as int),
        ensures
            *final(self) == *old(self),
            final(runtime).changed(*old(runtime), old(self).buffer.id, stream),
            final(runtime).matrix(*old(self)) == row_apply(
                RowFn::Softmax,
                old(runtime).matrix(*old(self)),
                old(self).cols as nat,
            ),
            final(runtime).confined(*old(runtime), Set::empty(), set![old(self).buffer.id]),
    {
        self.normalize_rows(RowFn::Softmax, runtime, stream);
    }

    /// Normalises every row by its mean and variance.
    pub fn layer_norm(&mut self, runtime: &mut CudaRuntime, stream: Option<Stream>)
        requires
            old(runtime).wf(),
            old(runtime).holds(*old(self)),
            row_blocks_fit(old(self).rows as int, old(self).cols as int),
        ensures
            *final(self) == *old(self),
            final(runtime).changed(*old(runtime), old(self).buffer.id, stream),
            final(runtime).matrix(*old(self)) == row_apply(
                RowFn::LayerNorm(F32 { bits: NORM_EPSILON_BITS }),
                old(runtime).matrix(*old(self)),
                old(self).cols as nat,
            ),
            final(runtime).confined(*old(runtime), Set::empty(), set![old(self).buffer.id]),
    {
        self.normalize_rows(RowFn::LayerNorm(F32 { bits: NORM_EPSILON_BITS }), runtime, stream);
    }

    /// Normalises every row by its root mean square.
    pub fn rms_norm(&mut self, runtime: &mut CudaRuntime, stream: Option<Stream>)
        requires
            old(runtime).wf(),
            old(runtime).holds(*old(self)),
            row_blocks_fit(old(self).rows as int, old(self).cols as int),
        ensures
            *final(self) == *old(self),
            final(runtime).changed(*old(runtime), old(self).buffer.id, stream),
            final(runtime).matrix(*old(self)) == row_apply(
                RowFn::RmsNorm(F32 { bits: NORM_EPSILON_BITS }),
                old(runtime).matrix(*old(self)),
                old(self).cols as nat,
            ),
            final(runtime).confined(*old(runtime), Set::empty(), set![old(self).buffer.id]),
    {
        self.normalize_rows(RowFn::RmsNorm(F32 { bits: NORM_EPSILON_BITS }), runtime, stream);
    }

    /// One block per row. Nothing is issued for an empty matrix.
    fn normalize_rows(&mut self, f: RowFn, runtime: &mut CudaRuntime, stream: Option<Stream>)
        requires
            old(runtime).wf(),
            old(runtime).holds(*old(self)),
            row_blocks_fit(old(self).rows as int, old(self).cols as int),
        ensures
            *final(self) == *old(self),
            final(runtime).changed(*old(runtime), old(self).buffer.id, stream),
            final(runtime).matrix(*old(self)) == row_apply(
                f,
                old(runtime).matrix(*old(self)),
                old(self).cols as nat,
            ),
            final(runtime).confined(*old(runtime), Set::empty(), set![old(self).buffer.id]),
    {
        proof {
            runtime.lemma_whole(self.buffer);
            runtime.lemma_ran_on_nothing(chosen(stream));
            runtime.lemma_confined_nothing(Set::empty(), set![self.buffer.id]);
        }
        if self.buffer.is_empty() {
            assert(runtime.matrix(*self) =~= row_apply(f, runtime.matrix(*self), self.cols as nat));
            return;
        }
        proof {
            assert(self.rows > 0 && self.cols > 0) by (nonlinear_arith)
                requires
                    self.rows * self.cols > 0,
                    self.rows >= 0,
                    self.cols >= 0,
            ;
        }
        self.assign_rows(f, 1024, runtime, stream);
    }
}

impl CudaRuntime {
    /// The input gradient of a softmax, from its output.
    pub fn softmax_rows_backward(&mut self, probabilities: &Matrix, output_gradient: &Matrix, stream: Option<Stream>) -> (r:
        Matrix)
        requires
            old(self).wf(),
            old(self).holds(*probabilities),
            old(self).holds(*output_gradient),
            probabilities.rows == output_gradient.rows,
            probabilities.cols == output_gradient.cols,
            row_blocks_fit(probabilities.rows as int, probabilities.cols as int),
        ensures
            final(self).grown(*old(self), r.buffer.id, stream),
            final(self).holds(r),
            r.rows == probabilities.rows,
            r.cols == probabilities.cols,
            final(self).matrix(r) == row_gradient(
                RowFn::Softmax,
                old(self).matrix(*probabilities),
                old(self).matrix(*output_gradient),
                probabilities.cols as nat,
            ),
    {
        self.rows_backward(RowFn::Softmax, probabilities, output_gradient, stream)
    }

    /// The input gradient of a layer normalisation.
    pub fn layer_norm_backward(&mut self, input: &Matrix, output_gradient: &Matrix, stream: Option<Stream>) -> (r:
        Matrix)
        requires
            old(self).wf(),
            old(self).holds(*input),
            old(self).holds(*output_gradient),
            input.rows == output_gradient.rows,
            input.cols == output_gradient.cols,
            row_blocks_fit(input.rows as int, input.cols as int),
        ensures
            final(self).grown(*old(self), r.buffer.id, stream),
            final(self).holds(r),
            r.rows == input.rows,
            r.cols == input.cols,
            final(self).matrix(r) == row_gradient(
                RowFn::LayerNorm(F32 { bits: NORM_EPSILON_BITS }),
                old(self).matrix(*input),
                old(self).matrix(*output_gradient),
                input.cols as nat,
            ),
    {
        self.rows_backward(RowFn::LayerNorm(F32 { bits: NORM_EPSILON_BITS }), input, output_gradient, stream)
    }

    /// The input gradient of a root-mean-square normalisation.
    pub fn rms_norm_backward(&mut self, input: &Matrix, output_gradient: &Matrix, stream: Option<Stream>) -> (r:
        Matrix)
        requires
            old(self).wf(),
            old(self).holds(*input),
            old(self).holds(*output_gradient),
            input.rows == output_gradient.rows,
            input.cols == output_gradient.cols,
            row_blocks_fit(input.rows as int, input.cols as int),
        ensures
            final(self).grown(*old(self), r.buffer.id, stream),
            final(self).holds(r),
            r.rows == input.rows,
            r.cols == input.cols,
            final(self).matrix(r) == row_gradient(
                RowFn::RmsNorm(F32 { bits: NORM_EPSILON_BITS }),
                old(self).matrix(*input),
                old(self).matrix(*output_gradient),
                input.cols as nat,
            ),
    {
        self.rows_backward(RowFn::RmsNorm(F32 { bits: NORM_EPSILON_BITS }), input, output_gradient, stream)
    }

    /// One block per row. Nothing is launched for an empty matrix.
    fn rows_backward(&mut self, f: RowFn, input: &Matrix, gradient: &Matrix, stream: Option<Stream>) -> (r:
        Matrix)
        requires
            old(self).wf(),
            old(self).holds(*input),
            old(self).holds(*gradient),
            input.rows == gradient.rows,
            input.cols == gradient.cols,
            row_blocks_fit(input.rows as int, input.cols as int),
        ensures
            final(self).grown(*old(self), r.buffer.id, stream),
            final(self).holds(r),
            r.rows == input.rows,
            r.cols == input.cols,
            final(self).matrix(r) == row_gradient(
                f,
                old(self).matrix(*input),
                old(self).matrix(*gradient),
                input.cols as nat,
            ),
    {
        let ghost before = *self;
        proof {
            self.lemma_whole(input.buffer);
            self.lemma_whole(gradient.buffer);
        }
        let mut result = self.new_uninit_matrix(input.rows, input.cols);
        assert(self.grown(before, result.buffer.id, stream));
        proof {
            self.lemma_whole(input.buffer);
            self.lemma_whole(gradient.buffer);
            self.lemma_whole(result.buffer);
        }
        if result.buffer.is_empty() {
            assert(self.matrix(result) =~= row_gradient(
                f,
                before.matrix(*input),
                before.matrix(*gradient),
                input.cols as nat,
            ));
            return result;
        }
        let config = LaunchConfig::new_1d(input.rows as u32, 1024, 0);
        let source = DeviceSpan::from_buffer(&input.buffer, 0, input.buffer.len());
        let upstream = DeviceSpan::from_buffer(&gradient.buffer, 0, gradient.buffer.len());
        let len: usize = result.buffer.len();
        let output = DeviceSpanMut::from_buffer(&mut result.buffer, 0, len);
        self.enqueue(
            Kernel::RowGradient {
                input: source.descriptor(),
                gradient: upstream.descriptor(),
                result: output.descriptor(),
                cols: input.cols,
                f,
            },
            config,
            stream,
        );
        assert(self.matrix(result) =~= row_gradient(
            f,
            before.matrix(*input),
            before.matrix(*gradient),
            input.cols as nat,
        ));
        result
    }
}

} // verus!
