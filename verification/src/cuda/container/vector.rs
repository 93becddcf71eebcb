//! Operations on owned vectors.

use vstd::prelude::*;

use super::{whole, Vector};
use crate::cuda::algebra::{apply, literals, zip, Term};
use crate::cuda::arith::{div_ceil, lemma_ceil_div};
use crate::cuda::command::{Command, DeviceSliceDescriptor, Kernel, LaunchConfig, Stream};
use crate::cuda::elementwise::{elementwise_config, elementwise_share};
use crate::cuda::exact::vectors::{
    brought, greatest, law_maxima_are_greatest, law_reduced_products_are_sums,
    law_reduced_sums_are_sums, takes_maxima,
};
use crate::cuda::exact::{lemma_sum_equal, sum, Exact};
use crate::cuda::meaning::Reading;
use crate::cuda::ops::{BinaryFn, MapFn};
use crate::cuda::order::belongs;
use crate::cuda::runtime::{chosen, entry, CudaRuntime, DeviceBuffer, DEFAULT_BLOCK_SIZE};
use crate::cuda::scalar::{Scalar, F32, NEGATIVE_INFINITY_BITS, ONE_BITS};
use crate::cuda::span::{DeviceSpan, DeviceSpanMut};

verus! {

broadcast use crate::cuda::runtime::group_streams;

/// The elements of a softmax of `a` whose maximum and sum are the downloads
/// with the numbers `first` and `first + 1`.
pub open spec fn softmax_steps(a: Seq<Term>, first: nat) -> Seq<Term> {
    apply(
        MapFn::Scale(
            Scalar::Quotient(
                Box::new(Scalar::Literal(F32 { bits: ONE_BITS })),
                Box::new(Scalar::Downloaded((first + 1) as usize)),
            ),
        ),
        softmax_exponentials(a, first),
    )
}

/// The exponentials of `a` shifted by its maximum.
pub open spec fn softmax_exponentials(a: Seq<Term>, first: nat) -> Seq<Term> {
    apply(MapFn::ExpShifted(Scalar::Downloaded(first as usize)), a)
}

/// The maximum and the sum that a softmax of `a` brings to the host.
pub open spec fn softmax_downloads(a: Seq<Term>, first: nat) -> Seq<Seq<Term>> {
    seq![
        seq![
            Term::Reduce(
                MapFn::Identity,
                BinaryFn::Max,
                F32 { bits: NEGATIVE_INFINITY_BITS },
                a,
            ),
        ],
        seq![
            Term::Reduce(
                MapFn::Identity,
                BinaryFn::Add,
                F32 { bits: 0 },
                softmax_exponentials(a, first),
            ),
        ],
    ]
}

/// A copy of host values.
pub(crate) fn copy_values(values: &Vec<F32>) -> (r: Vec<F32>)
    ensures
        r@ == values@,
{
    let mut copied: Vec<F32> = Vec::new();
    let mut i: usize = 0;
    while i < values.len()
        invariant
            i <= values@.len(),
            copied@ == values@.take(i as int),
        decreases values@.len() - i,
    {
        copied.push(values[i]);
        i = i + 1;
        assert(copied@ =~= values@.take(i as int));
    }
    assert(copied@ =~= values@);
    copied
}

impl CudaRuntime {
    /// Replaces a buffer's contents by host values.
    pub(crate) fn upload(&mut self, buffer: &DeviceBuffer, values: &Vec<F32>, stream: Option<Stream>)
        requires
            old(self).wf(),
            old(self).owns(*buffer),
            values@.len() == buffer.len,
        ensures
            final(self).changed(*old(self), buffer.id, stream),
            final(self).mem(buffer.id) == literals(values@),
            final(self).issued@.drop_last() == old(self).issued@ + entry(stream),
            final(self).issued@.len() > 0,
            final(self).issued@.last() matches Command::Upload { buffer: b, values: v, stream: s }
                && b == buffer.id && v@ == values@ && s == chosen(stream),
    {
        let ghost before = *self;
        let s = self.execution_stream(stream);
        let ghost middle = *self;
        let copied = copy_values(values);
        let ghost command = Command::Upload { buffer: buffer.id, values: copied, stream: s };
        self.issue(Command::Upload { buffer: buffer.id, values: copied, stream: s });
        proof {
            before.lemma_whole(*buffer);
            assert(belongs(command, s));
            assert(self.ran_on(before, s));
            assert(self.issued@.drop_last() =~= middle.issued@);
            assert(self.mem(buffer.id) =~= literals(values@));
        }
    }
}

impl Vector {
    /// Number of elements.
    pub fn len(&self) -> (r: usize)
        ensures
            r == self.buffer.len,
    {
        self.buffer.len()
    }

    /// All elements.
    pub fn as_span(&self) -> (r: DeviceSpan<'_>)
        ensures
            r.descriptor == whole(self.buffer),
    {
        DeviceSpan::from_buffer(&self.buffer, 0, self.buffer.len())
    }

    /// A range of elements.
    pub fn span(&self, offset: usize, len: usize) -> (r: DeviceSpan<'_>)
        requires
            offset + len <= self.buffer.len,
        ensures
            r.descriptor == (DeviceSliceDescriptor { buffer: self.buffer.id, offset, len }),
    {
        DeviceSpan::from_buffer(&self.buffer, offset, len)
    }

    /// Brings the elements to the host and returns the download's number.
    pub fn to_host(&self, runtime: &mut CudaRuntime, stream: Option<Stream>) -> (r: usize)
        requires
            old(runtime).wf(),
            old(runtime).holds_vector(*self),
        ensures
            r == old(runtime).device@.downloads.len(),
            final(runtime).fetched(*old(runtime), old(runtime).vector(*self), stream),
    {
        runtime.download(&self.buffer, stream)
    }

    /// Replaces this vector's contents without reallocating its device buffer.
    pub fn copy_from_host(&mut self, values: &Vec<F32>, runtime: &mut CudaRuntime, stream: Option<Stream>)
        requires
            old(runtime).wf(),
            old(runtime).holds_vector(*old(self)),
            values@.len() == old(self).buffer.len,
        ensures
            *final(self) == *old(self),
            final(runtime).changed(*old(runtime), old(self).buffer.id, stream),
            final(runtime).vector(*old(self)) == literals(values@),
    {
        runtime.upload(&self.buffer, values, stream);
    }

    /// Applies a function to every element.
    pub fn for_each(&mut self, runtime: &mut CudaRuntime, f: MapFn, stream: Option<Stream>)
        requires
            old(runtime).wf(),
            old(runtime).holds_vector(*old(self)),
        ensures
            *final(self) == *old(self),
            final(runtime).changed(*old(runtime), old(self).buffer.id, stream),
            final(runtime).vector(*old(self)) == apply(f, old(runtime).vector(*old(self))),
            old(self).buffer.len == 0 ==> *final(runtime) == *old(runtime),
            old(self).buffer.len > 0 ==> final(runtime).launched(
                *old(runtime),
                Kernel::SliceForEach {
                    target: whole(old(self).buffer),
                    elements_per_thread: elementwise_share(old(self).buffer.len),
                    f,
                },
                elementwise_config(old(self).buffer.len),
                stream,
            ),
    {
        proof {
            runtime.lemma_whole(self.buffer);
        }
        let len: usize = self.buffer.len();
        let mut span = DeviceSpanMut::from_buffer(&mut self.buffer, 0, len);
        span.for_each(runtime, f, stream);
    }

    /// Adds a value to every element.
    pub fn add_scalar(&mut self, value: Scalar, runtime: &mut CudaRuntime, stream: Option<Stream>)
        requires
            old(runtime).wf(),
            old(runtime).holds_vector(*old(self)),
        ensures
            *final(self) == *old(self),
            final(runtime).changed(*old(runtime), old(self).buffer.id, stream),
            final(runtime).vector(*old(self)) == apply(
                MapFn::Shift(value),
                old(runtime).vector(*old(self)),
            ),
            old(self).buffer.len == 0 ==> *final(runtime) == *old(runtime),
            forall|c: Exact, i: int|
                0 <= i < old(self).buffer.len ==> #[trigger] c.value(
                    final(runtime).vector(*old(self))[i],
                ) == c.value(old(runtime).vector(*old(self))[i]) + c.scalar(value),
    {
        self.for_each(runtime, MapFn::Shift(value), stream);
    }

    /// Multiplies every element.
    pub fn scale(&mut self, value: Scalar, runtime: &mut CudaRuntime, stream: Option<Stream>)
        requires
            old(runtime).wf(),
            old(runtime).holds_vector(*old(self)),
        ensures
            *final(self) == *old(self),
            final(runtime).changed(*old(runtime), old(self).buffer.id, stream),
            final(runtime).vector(*old(self)) == apply(
                MapFn::Scale(value),
                old(runtime).vector(*old(self)),
            ),
            old(self).buffer.len == 0 ==> *final(runtime) == *old(runtime),
            forall|c: Exact, i: int|
                0 <= i < old(self).buffer.len ==> #[trigger] c.value(
                    final(runtime).vector(*old(self))[i],
                ) == c.value(old(runtime).vector(*old(self))[i]) * c.scalar(value),
    {
        self.for_each(runtime, MapFn::Scale(value), stream);
    }

    /// The sum of the elements.
    pub fn sum(&self, runtime: &mut CudaRuntime, stream: Option<Stream>) -> (r: Scalar)
        requires
            old(runtime).wf(),
            old(runtime).holds_vector(*self),
        ensures
            final(runtime).reduced(
                *old(runtime),
                r,
                F32 { bits: 0 },
                MapFn::Identity,
                BinaryFn::Add,
                old(runtime).vector(*self),
                stream,
            ),
            forall|c: Exact|
                brought(c, final(runtime).device@.downloads) ==> #[trigger] c.scalar(r) == sum(
                    old(runtime).vector(*self).len(),
                    |i: int| c.value(old(runtime).vector(*self)[i]),
                ),
    {
        let ghost before = *runtime;
        let ghost items = before.vector(*self);
        let r = self.map_reduce(runtime, F32 { bits: 0 }, MapFn::Identity, BinaryFn::Add, stream);
        proof {
            assert forall|c: Exact|
                brought(c, runtime.device@.downloads) implies #[trigger] c.scalar(r) == sum(
                items.len(),
                |i: int| c.value(items[i]),
            ) by {
                law_reduced_sums_are_sums(
                    c,
                    before,
                    *runtime,
                    r,
                    MapFn::Identity,
                    items,
                    stream,
                );
                lemma_sum_equal(
                    items.len(),
                    |i: int| c.applied(MapFn::Identity, c.value(items[i])),
                    |i: int| c.value(items[i]),
                );
            }
        }
        r
    }

    /// The largest element, or negative infinity if there is none.
    pub fn max(&self, runtime: &mut CudaRuntime, stream: Option<Stream>) -> (r: Scalar)
        requires
            old(runtime).wf(),
            old(runtime).holds_vector(*self),
        ensures
            final(runtime).reduced(
                *old(runtime),
                r,
                F32 { bits: NEGATIVE_INFINITY_BITS },
                MapFn::Identity,
                BinaryFn::Max,
                old(runtime).vector(*self),
                stream,
            ),
            forall|reading: Reading<Option<real>>|
                old(runtime).vector(*self).len() > 0 && takes_maxima(reading)
                    ==> #[trigger] greatest(
                    reading,
                    final(runtime).device@.downloads.last()[0],
                    old(runtime).vector(*self),
                ),
    {
        let ghost items = old(runtime).vector(*self);
        let r = self.map_reduce(
            runtime,
            F32 { bits: NEGATIVE_INFINITY_BITS },
            MapFn::Identity,
            BinaryFn::Max,
            stream,
        );
        proof {
            assert forall|reading: Reading<Option<real>>|
                items.len() > 0 && takes_maxima(reading) implies #[trigger] greatest(
                reading,
                runtime.device@.downloads.last()[0],
                items,
            ) by {
                law_maxima_are_greatest(reading, items);
            }
        }
        r
    }

    /// The sum of the mapped elements.
    pub fn map_sum(&self, runtime: &mut CudaRuntime, map: MapFn, stream: Option<Stream>) -> (r:
        Scalar)
        requires
            old(runtime).wf(),
            old(runtime).holds_vector(*self),
        ensures
            final(runtime).reduced(
                *old(runtime),
                r,
                F32 { bits: 0 },
                map,
                BinaryFn::Add,
                old(runtime).vector(*self),
                stream,
            ),
            forall|c: Exact|
                brought(c, final(runtime).device@.downloads) ==> #[trigger] c.scalar(r) == sum(
                    old(runtime).vector(*self).len(),
                    |i: int| c.applied(map, c.value(old(runtime).vector(*self)[i])),
                ),
    {
        let ghost before = *runtime;
        let ghost items = before.vector(*self);
        let ghost made = map;
        let r = self.map_reduce(runtime, F32 { bits: 0 }, map, BinaryFn::Add, stream);
        proof {
            assert forall|c: Exact|
                brought(c, runtime.device@.downloads) implies #[trigger] c.scalar(r) == sum(
                items.len(),
                |i: int| c.applied(made, c.value(items[i])),
            ) by {
                law_reduced_sums_are_sums(c, before, *runtime, r, made, items, stream);
            }
        }
        r
    }

    /// Folds the mapped elements.
    pub fn map_reduce(
        &self,
        runtime: &mut CudaRuntime,
        identity: F32,
        map: MapFn,
        reduce: BinaryFn,
        stream: Option<Stream>,
    ) -> (r: Scalar)
        requires
            old(runtime).wf(),
            old(runtime).holds_vector(*self),
        ensures
            final(runtime).reduced(
                *old(runtime),
                r,
                identity,
                map,
                reduce,
                old(runtime).vector(*self),
                stream,
            ),
    {
        proof {
            runtime.lemma_whole(self.buffer);
        }
        self.as_span().map_reduce(runtime, identity, map, reduce, stream)
    }

    /// Folds the mapped pairs of elements.
    pub fn zip_map_reduce(
        &self,
        rhs: &Vector,
        runtime: &mut CudaRuntime,
        identity: F32,
        map: BinaryFn,
        reduce: BinaryFn,
        stream: Option<Stream>,
    ) -> (r: Scalar)
        requires
            old(runtime).wf(),
            old(runtime).holds_vector(*self),
            old(runtime).holds_vector(*rhs),
            self.buffer.len == rhs.buffer.len,
        ensures
            final(runtime).zip_reduced(
                *old(runtime),
                r,
                identity,
                map,
                reduce,
                old(runtime).vector(*self),
                old(runtime).vector(*rhs),
                stream,
            ),
    {
        proof {
            runtime.lemma_whole(self.buffer);
            runtime.lemma_whole(rhs.buffer);
        }
        self.as_span().zip_map_reduce(&rhs.as_span(), runtime, identity, map, reduce, stream)
    }

    /// Replaces every element by the exponential of its distance to `offset`.
    pub fn exp_shifted(&mut self, offset: Scalar, runtime: &mut CudaRuntime, stream: Option<Stream>)
        requires
            old(runtime).wf(),
            old(runtime).holds_vector(*old(self)),
        ensures
            *final(self) == *old(self),
            final(runtime).changed(*old(runtime), old(self).buffer.id, stream),
            final(runtime).vector(*old(self)) == apply(
                MapFn::ExpShifted(offset),
                old(runtime).vector(*old(self)),
            ),
            old(self).buffer.len == 0 ==> *final(runtime) == *old(runtime),
            forall|c: Exact, i: int|
                0 <= i < old(self).buffer.len ==> #[trigger] c.value(
                    final(runtime).vector(*old(self))[i],
                ) == (c.exp)(c.value(old(runtime).vector(*old(self))[i]) - c.scalar(offset)),
    {
        self.for_each(runtime, MapFn::ExpShifted(offset), stream);
    }

    /// Applies the numerically stable logistic sigmoid in place.
    pub fn sigmoid(&mut self, runtime: &mut CudaRuntime, stream: Option<Stream>)
        requires
            old(runtime).wf(),
            old(runtime).holds_vector(*old(self)),
        ensures
            *final(self) == *old(self),
            final(runtime).changed(*old(runtime), old(self).buffer.id, stream),
            final(runtime).vector(*old(self)) == apply(
                MapFn::Sigmoid,
                old(runtime).vector(*old(self)),
            ),
            forall|c: Exact, i: int|
                0 <= i < old(self).buffer.len ==> #[trigger] c.value(
                    final(runtime).vector(*old(self))[i],
                ) == (c.sigmoid)(c.value(old(runtime).vector(*old(self))[i])),
    {
        self.for_each(runtime, MapFn::Sigmoid, stream);
    }

    /// Replaces the elements by their softmax. The maximum and the sum pass
    /// through the host.
    pub fn softmax(&mut self, runtime: &mut CudaRuntime, stream: Option<Stream>)
        requires
            old(runtime).wf(),
            old(runtime).holds_vector(*old(self)),
        ensures
            *final(self) == *old(self),
            final(runtime).wf(),
            final(runtime).live@ == old(runtime).live@,
            final(runtime).keeps(*old(runtime), set![old(self).buffer.id]),
            final(runtime).ran_on(*old(runtime), chosen(stream)),
            old(self).buffer.len > 0 ==> final(runtime).vector(*old(self)) == softmax_steps(
                old(runtime).vector(*old(self)),
                old(runtime).device@.downloads.len(),
            ) && final(runtime).device@.downloads == old(runtime).device@.downloads
                + softmax_downloads(
                old(runtime).vector(*old(self)),
                old(runtime).device@.downloads.len(),
            ),
            old(self).buffer.len == 0 ==> *final(runtime) == *old(runtime),
    {
        let ghost before = *runtime;
        let ghost n = before.device@.downloads.len();
        proof {
            runtime.lemma_whole(self.buffer);
            runtime.lemma_ran_on_nothing(chosen(stream));
        }
        let max = self.max(runtime, stream);
        let ghost first = *runtime;
        self.exp_shifted(max, runtime, stream);
        let ghost second = *runtime;
        let sum = self.sum(runtime, stream);
        let ghost third = *runtime;
        self.scale(
            Scalar::Quotient(
                Box::new(Scalar::Literal(F32 { bits: ONE_BITS })),
                Box::new(sum),
            ),
            runtime,
            stream,
        );
        proof {
            if self.buffer.len > 0 {
                assert(first.vector(*self) == before.vector(*self));
                assert(third.vector(*self) == second.vector(*self));
                assert(runtime.device@.downloads =~= before.device@.downloads + softmax_downloads(
                    before.vector(*self),
                    n,
                ));
            }
        }
    }

    /// Combines every element with its counterpart.
    pub fn binary_assign(&mut self, rhs: &Vector, runtime: &mut CudaRuntime, f: BinaryFn, stream: Option<Stream>)
        requires
            old(runtime).wf(),
            old(runtime).holds_vector(*old(self)),
            old(runtime).holds_vector(*rhs),
            old(self).buffer.len == rhs.buffer.len,
        ensures
            *final(self) == *old(self),
            final(runtime).changed(*old(runtime), old(self).buffer.id, stream),
            final(runtime).vector(*old(self)) == zip(
                f,
                old(runtime).vector(*old(self)),
                old(runtime).vector(*rhs),
            ),
            final(runtime).launched(
                *old(runtime),
                Kernel::SliceBinaryAssign {
                    target: whole(old(self).buffer),
                    rhs: whole(rhs.buffer),
                    elements_per_thread: elementwise_share(old(self).buffer.len),
                    f,
                },
                elementwise_config(old(self).buffer.len),
                stream,
            ),
    {
        proof {
            runtime.lemma_whole(self.buffer);
            runtime.lemma_whole(rhs.buffer);
        }
        let len: usize = self.buffer.len();
        let span = DeviceSpanMut::from_buffer(&mut self.buffer, 0, len);
        let rhs_span = DeviceSpan::from_buffer(&rhs.buffer, 0, len);
        runtime.combine_each(span.descriptor(), rhs_span.descriptor(), f, stream);
    }

    /// The inner product.
    pub fn dot(&self, rhs: &Vector, runtime: &mut CudaRuntime, stream: Option<Stream>) -> (r: Scalar)
        requires
            old(runtime).wf(),
            old(runtime).holds_vector(*self),
            old(runtime).holds_vector(*rhs),
            self.buffer.len == rhs.buffer.len,
        ensures
            final(runtime).zip_reduced(
                *old(runtime),
                r,
                F32 { bits: 0 },
                BinaryFn::Mul,
                BinaryFn::Add,
                old(runtime).vector(*self),
                old(runtime).vector(*rhs),
                stream,
            ),
            forall|c: Exact|
                brought(c, final(runtime).device@.downloads) ==> #[trigger] c.scalar(r) == sum(
                    old(runtime).vector(*self).len(),
                    |i: int|
                        c.value(old(runtime).vector(*self)[i]) * c.value(
                            old(runtime).vector(*rhs)[i],
                        ),
                ),
    {
        let ghost before = *runtime;
        let ghost a = before.vector(*self);
        let ghost b = before.vector(*rhs);
        proof {
            before.lemma_whole(self.buffer);
            before.lemma_whole(rhs.buffer);
        }
        let r = self.zip_map_reduce(
            rhs,
            runtime,
            F32 { bits: 0 },
            BinaryFn::Mul,
            BinaryFn::Add,
            stream,
        );
        proof {
            assert forall|c: Exact|
                brought(c, runtime.device@.downloads) implies #[trigger] c.scalar(r) == sum(
                a.len(),
                |i: int| c.value(a[i]) * c.value(b[i]),
            ) by {
                law_reduced_products_are_sums(c, before, *runtime, r, a, b, stream);
            }
        }
        r
    }

    /// Whether the word that a comparison brought to the host says that all elements agree.
    pub fn agreed(word: u32) -> (r: bool)
        ensures
            r == (word != 0),
    {
        word != 0
    }

    /// Compares two vectors. The returned download holds one word, from which
    /// [`Vector::agreed`] tells whether all elements agree.
    pub fn equals(&self, rhs: &Vector, runtime: &mut CudaRuntime, stream: Option<Stream>) -> (r: usize)
        requires
            old(runtime).wf(),
            old(runtime).holds_vector(*self),
            old(runtime).holds_vector(*rhs),
            self.buffer.len == rhs.buffer.len,
        ensures
            r == old(runtime).device@.downloads.len(),
            final(runtime).fetched(
                *old(runtime),
                seq![Term::Same(old(runtime).vector(*self), old(runtime).vector(*rhs))],
                stream,
            ),
    {
        let ghost before = *runtime;
        proof {
            runtime.lemma_whole(self.buffer);
            runtime.lemma_whole(rhs.buffer);
        }
        let config = LaunchConfig::new_1d(1, 1024, 0);
        let per_thread: usize = div_ceil(self.len(), DEFAULT_BLOCK_SIZE);
        let mut result = runtime.get_u32_uninit_buffer(1);
        assert(runtime.grown(before, result.id, stream));
        let ghost allocated = *runtime;
        let view = DeviceSpanMut::from_buffer(&mut result, 0, 1);
        runtime.enqueue(
            Kernel::CompareVectors {
                lhs: self.as_span().descriptor(),
                rhs: rhs.as_span().descriptor(),
                elements_per_thread: per_thread,
                result: view.descriptor(),
            },
            config,
            stream,
        );
        let ghost compared = *runtime;
        proof {
            lemma_ceil_div(self.buffer.len as int, 1024);
            assert(config.block_x * per_thread >= self.buffer.len) by (nonlinear_arith)
                requires
                    config.block_x == 1024,
                    per_thread * 1024 >= self.buffer.len,
            ;
            assert(allocated.mem(self.buffer.id) == before.mem(self.buffer.id));
            assert(allocated.mem(rhs.buffer.id) == before.mem(rhs.buffer.id));
            assert(compared.mem(result.id) =~= seq![
                Term::Same(before.vector(*self), before.vector(*rhs)),
            ]);
        }
        let index: usize = runtime.download(&result, stream);
        let ghost loaded = *runtime;
        runtime.drop_buffer(result);
        proof {
            assert(runtime.ran_on(loaded, chosen(stream)));
            assert(runtime.live@ =~= before.live@);
        }
        index
    }
}

} // verus!
