//! Operations on borrowed vectors.

use vstd::prelude::*;

use super::vector::{softmax_downloads, softmax_exponentials, softmax_steps};
use super::VectorView;
use crate::cuda::algebra::apply;
use crate::cuda::command::Stream;
use crate::cuda::exact::vectors::{
    brought, greatest, law_maxima_are_greatest, law_reduced_sums_are_sums, takes_maxima,
};
use crate::cuda::exact::{lemma_sum_equal, sum, Exact};
use crate::cuda::launch::spliced;
use crate::cuda::meaning::Reading;
use crate::cuda::ops::{BinaryFn, MapFn};
use crate::cuda::runtime::{chosen, CudaRuntime};
use crate::cuda::scalar::{Scalar, F32, NEGATIVE_INFINITY_BITS, ONE_BITS};
use crate::cuda::span::DeviceSpanMut;

verus! {

broadcast use crate::cuda::runtime::group_streams;

impl<'a> VectorView<'a> {
    /// Views a span as a vector.
    pub fn new(span: DeviceSpanMut<'a>) -> (r: Self)
        ensures
            r.span == span,
    {
        VectorView { span }
    }

    /// Number of elements.
    pub fn len(&self) -> (r: usize)
        ensures
            r == self.span.descriptor.len,
    {
        self.span.len()
    }

    /// Applies a function to every element.
    pub fn for_each(&mut self, runtime: &mut CudaRuntime, f: MapFn, stream: Option<Stream>)
        requires
            old(runtime).wf(),
            old(runtime).spans(old(self).span.descriptor),
        ensures
            *final(self) == *old(self),
            old(self).span.descriptor.len == 0 ==> *final(runtime) == *old(runtime),
            final(runtime).changed(*old(runtime), old(self).span.descriptor.buffer, stream),
            final(runtime).mem(old(self).span.descriptor.buffer) == spliced(
                old(runtime).mem(old(self).span.descriptor.buffer),
                old(self).span.descriptor.offset as int,
                apply(f, old(runtime).device@.read(old(self).span.descriptor)),
            ),
    {
        self.span.for_each(runtime, f, stream);
    }

    /// Adds a value to every element.
    pub fn add_scalar(&mut self, value: Scalar, runtime: &mut CudaRuntime, stream: Option<Stream>)
        requires
            old(runtime).wf(),
            old(runtime).spans(old(self).span.descriptor),
        ensures
            *final(self) == *old(self),
            final(runtime).changed(*old(runtime), old(self).span.descriptor.buffer, stream),
            final(runtime).mem(old(self).span.descriptor.buffer) == spliced(
                old(runtime).mem(old(self).span.descriptor.buffer),
                old(self).span.descriptor.offset as int,
                apply(MapFn::Shift(value), old(runtime).device@.read(old(self).span.descriptor)),
            ),
    {
        self.span.for_each(runtime, MapFn::Shift(value), stream);
    }

    /// Multiplies every element.
    pub fn scale(&mut self, value: Scalar, runtime: &mut CudaRuntime, stream: Option<Stream>)
        requires
            old(runtime).wf(),
            old(runtime).spans(old(self).span.descriptor),
        ensures
            *final(self) == *old(self),
            final(runtime).changed(*old(runtime), old(self).span.descriptor.buffer, stream),
            final(runtime).mem(old(self).span.descriptor.buffer) == spliced(
                old(runtime).mem(old(self).span.descriptor.buffer),
                old(self).span.descriptor.offset as int,
                apply(MapFn::Scale(value), old(runtime).device@.read(old(self).span.descriptor)),
            ),
    {
        self.span.for_each(runtime, MapFn::Scale(value), stream);
    }

    /// The sum of the elements.
    pub fn sum(&self, runtime: &mut CudaRuntime, stream: Option<Stream>) -> (r: Scalar)
        requires
            old(runtime).wf(),
            old(runtime).spans(self.span.descriptor),
        ensures
            final(runtime).reduced(
                *old(runtime),
                r,
                F32 { bits: 0 },
                MapFn::Identity,
                BinaryFn::Add,
                old(runtime).device@.read(self.span.descriptor),
                stream,
            ),
            forall|c: Exact|
                brought(c, final(runtime).device@.downloads) ==> #[trigger] c.scalar(r) == sum(
                    old(runtime).device@.read(self.span.descriptor).len(),
                    |i: int| c.value(old(runtime).device@.read(self.span.descriptor)[i]),
                ),
    {
        let ghost before = *runtime;
        let ghost items = before.device@.read(self.span.descriptor);
        let r = self.map_reduce(runtime, F32 { bits: 0 }, MapFn::Identity, BinaryFn::Add, stream);
        proof {
            assert forall|c: Exact|
                brought(c, runtime.device@.downloads) implies #[trigger] c.scalar(r) == sum(
                items.len(),
                |i: int| c.value(items[i]),
            ) by {
                law_reduced_sums_are_sums(
                    c,
                    before,
                    *runtime,
                    r,
                    MapFn::Identity,
                    items,
                    stream,
                );
                lemma_sum_equal(
                    items.len(),
                    |i: int| c.applied(MapFn::Identity, c.value(items[i])),
                    |i: int| c.value(items[i]),
                );
            }
        }
        r
    }

    /// The largest element, or negative infinity if there is none.
    pub fn max(&self, runtime: &mut CudaRuntime, stream: Option<Stream>) -> (r: Scalar)
        requires
            old(runtime).wf(),
            old(runtime).spans(self.span.descriptor),
        ensures
            final(runtime).reduced(
                *old(runtime),
                r,
                F32 { bits: NEGATIVE_INFINITY_BITS },
                MapFn::Identity,
                BinaryFn::Max,
                old(runtime).device@.read(self.span.descriptor),
                stream,
            ),
            forall|reading: Reading<Option<real>>|
                old(runtime).device@.read(self.span.descriptor).len() > 0 && takes_maxima(reading)
                    ==> #[trigger] greatest(
                    reading,
                    final(runtime).device@.downloads.last()[0],
                    old(runtime).device@.read(self.span.descriptor),
                ),
    {
        let ghost items = old(runtime).device@.read(self.span.descriptor);
        let r = self.map_reduce(
            runtime,
            F32 { bits: NEGATIVE_INFINITY_BITS },
            MapFn::Identity,
            BinaryFn::Max,
            stream,
        );
        proof {
            assert forall|reading: Reading<Option<real>>|
                items.len() > 0 && takes_maxima(reading) implies #[trigger] greatest(
                reading,
                runtime.device@.downloads.last()[0],
                items,
            ) by {
                law_maxima_are_greatest(reading, items);
            }
        }
        r
    }

    /// The sum of the mapped elements.
    pub fn map_sum(&self, runtime: &mut CudaRuntime, map: MapFn, stream: Option<Stream>) -> (r:
        Scalar)
        requires
            old(runtime).wf(),
            old(runtime).spans(self.span.descriptor),
        ensures
            final(runtime).reduced(
                *old(runtime),
                r,
                F32 { bits: 0 },
                map,
                BinaryFn::Add,
                old(runtime).device@.read(self.span.descriptor),
                stream,
            ),
            forall|c: Exact|
                brought(c, final(runtime).device@.downloads) ==> #[trigger] c.scalar(r) == sum(
                    old(runtime).device@.read(self.span.descriptor).len(),
                    |i: int| c.applied(map, c.value(old(runtime).device@.read(self.span.descriptor)[i])),
                ),
    {
        let ghost before = *runtime;
        let ghost items = before.device@.read(self.span.descriptor);
        let ghost made = map;
        let r = self.map_reduce(runtime, F32 { bits: 0 }, map, BinaryFn::Add, stream);
        proof {
            assert forall|c: Exact|
                brought(c, runtime.device@.downloads) implies #[trigger] c.scalar(r) == sum(
                items.len(),
                |i: int| c.applied(made, c.value(items[i])),
            ) by {
                law_reduced_sums_are_sums(c, before, *runtime, r, made, items, stream);
            }
        }
        r
    }

    /// Folds the mapped elements.
    pub fn map_reduce(
        &self,
        runtime: &mut CudaRuntime,
        identity: F32,
        map: MapFn,
        reduce: BinaryFn,
        stream: Option<Stream>,
    ) -> (r: Scalar)
        requires
            old(runtime).wf(),
            old(runtime).spans(self.span.descriptor),
        ensures
            final(runtime).reduced(
                *old(runtime),
                r,
                identity,
                map,
                reduce,
                old(runtime).device@.read(self.span.descriptor),
                stream,
            ),
    {
        self.span.map_reduce(runtime, identity, map, reduce, stream)
    }

    /// Folds the mapped pairs of elements.
    pub fn zip_map_reduce(
        &self,
        rhs: &VectorView<'_>,
        runtime: &mut CudaRuntime,
        identity: F32,
        map: BinaryFn,
        reduce: BinaryFn,
        stream: Option<Stream>,
    ) -> (r: Scalar)
        requires
            old(runtime).wf(),
            old(runtime).spans(self.span.descriptor),
            old(runtime).spans(rhs.span.descriptor),
            self.span.descriptor.len == rhs.span.descriptor.len,
        ensures
            final(runtime).zip_reduced(
                *old(runtime),
                r,
                identity,
                map,
                reduce,
                old(runtime).device@.read(self.span.descriptor),
                old(runtime).device@.read(rhs.span.descriptor),
                stream,
            ),
    {
        self.span.zip_map_reduce(&rhs.span, runtime, identity, map, reduce, stream)
    }

    /// Replaces the elements by their softmax. The maximum and the sum pass
    /// through the host.
    pub fn softmax(&mut self, runtime: &mut CudaRuntime, stream: Option<Stream>)
        requires
            old(runtime).wf(),
            old(runtime).spans(old(self).span.descriptor),
        ensures
            *final(self) == *old(self),
            final(runtime).wf(),
            final(runtime).live@ == old(runtime).live@,
            final(runtime).keeps(*old(runtime), set![old(self).span.descriptor.buffer]),
            final(runtime).ran_on(*old(runtime), chosen(stream)),
            old(self).span.descriptor.len > 0 ==> final(runtime).mem(
                old(self).span.descriptor.buffer,
            ) == spliced(
                old(runtime).mem(old(self).span.descriptor.buffer),
                old(self).span.descriptor.offset as int,
                softmax_steps(
                    old(runtime).device@.read(old(self).span.descriptor),
                    old(runtime).device@.downloads.len(),
                ),
            ) && final(runtime).device@.downloads == old(runtime).device@.downloads
                + softmax_downloads(
                old(runtime).device@.read(old(self).span.descriptor),
                old(runtime).device@.downloads.len(),
            ),
            old(self).span.descriptor.len == 0 ==> *final(runtime) == *old(runtime),
    {
        let ghost before = *runtime;
        let ghost d = self.span.descriptor;
        let ghost n = before.device@.downloads.len();
        proof {
            runtime.lemma_ran_on_nothing(chosen(stream));
            assert(before.mem(d.buffer).len() == before.buffers@[d.buffer as int]);
        }
        let max = self.span.max(runtime, stream);
        let ghost first = *runtime;
        self.span.for_each(runtime, MapFn::ExpShifted(max), stream);
        let ghost second = *runtime;
        let sum = self.span.sum(runtime, stream);
        let ghost third = *runtime;
        self.span.scale(
            Scalar::Quotient(
                Box::new(Scalar::Literal(F32 { bits: ONE_BITS })),
                Box::new(sum),
            ),
            runtime,
            stream,
        );
        proof {
            if d.len > 0 {
                let a = before.device@.read(d);
                assert(first.mem(d.buffer) == before.mem(d.buffer));
                assert(third.mem(d.buffer) == second.mem(d.buffer));
                assert(second.device@.read(d) =~= softmax_exponentials(a, n));
                assert(runtime.mem(d.buffer) =~= spliced(
                    before.mem(d.buffer),
                    d.offset as int,
                    softmax_steps(a, n),
                ));
                assert(runtime.device@.downloads =~= before.device@.downloads + softmax_downloads(
                    a,
                    n,
                ));
            }
        }
    }
}

} // verus!
