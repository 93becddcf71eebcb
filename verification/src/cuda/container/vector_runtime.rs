//! Making and combining vectors.

use vstd::prelude::*;

use super::Vector;
use crate::cuda::algebra::{apply, initial, literals, zip, Term};
use crate::cuda::command::Stream;
use crate::cuda::launch::spliced;
use crate::cuda::exact::Exact;
use crate::cuda::meaning::{can_be, number_of};
use crate::cuda::ops::{BinaryFn, InitFn, MapFn};
use crate::cuda::runtime::{
    addressable, chosen, lemma_accounted_kept, CudaRuntime, DeviceBuffer, InitType,
};
use crate::cuda::scalar::F32;
use crate::cuda::span::{DeviceSpan, DeviceSpanMut};

verus! {

broadcast use crate::cuda::runtime::group_streams;

/// Fills count: a sequence from zero up by one, its reverse from the length down by one, and
/// zeros stay.
pub proof fn law_fills_count_up_and_down(len: usize, draw: usize, i: int)
    ensures
        number_of(Term::Init(InitType::Sequence.fill(len, draw), 0)) == Some(0int as real),
        number_of(Term::Init(InitType::Sequence.fill(len, draw), i + 1))->0 == number_of(
            Term::Init(InitType::Sequence.fill(len, draw), i),
        )->0 + 1int as real,
        number_of(Term::Init(InitType::Reverse.fill(len, draw), 0)) == Some(len as int as real),
        number_of(Term::Init(InitType::Reverse.fill(len, draw), i + 1))->0 == number_of(
            Term::Init(InitType::Reverse.fill(len, draw), i),
        )->0 - 1int as real,
        number_of(Term::Init(InitType::Zero.fill(len, draw), i)) == Some(0int as real),
        number_of(Term::Init(InitType::Random.fill(len, draw), i)) is None,
{
}

impl InitType {
    /// The fill for a span of this length, as the given random draw.
    pub open spec fn fill(self, len: usize, draw: usize) -> InitFn {
        match self {
            InitType::Sequence => InitFn::Sequence,
            InitType::Reverse => InitFn::Reverse(len),
            InitType::Random => InitFn::Random(draw),
            InitType::Zero => InitFn::Zero,
        }
    }

    /// Fills a span.
    pub(crate) fn initialize(
        self,
        span: &mut DeviceSpanMut<'_>,
        runtime: &mut CudaRuntime,
        stream: Option<Stream>,
    )
        requires
            old(runtime).wf(),
            old(runtime).spans(old(span).descriptor),
        ensures
            *final(span) == *old(span),
            final(runtime).changed(*old(runtime), old(span).descriptor.buffer, stream),
            final(runtime).mem(old(span).descriptor.buffer) == spliced(
                old(runtime).mem(old(span).descriptor.buffer),
                old(span).descriptor.offset as int,
                initial(
                    self.fill(old(span).descriptor.len, old(runtime).draws@.len() as usize),
                    old(span).descriptor.len as nat,
                ),
            ),
            final(runtime).draws@ == if self is Random {
                old(runtime).draws@.push(old(span).descriptor.buffer)
            } else {
                old(runtime).draws@
            },
    {
        let ghost before = *runtime;
        let f = match self {
            InitType::Sequence => InitFn::Sequence,
            InitType::Reverse => InitFn::Reverse(span.len()),
            InitType::Random => {
                let draw: usize = runtime.draws.len();
                runtime.draws.push(span.descriptor().buffer);
                InitFn::Random(draw)
            },
            InitType::Zero => InitFn::Zero,
        };
        proof {
            assert(runtime.issued@.take(before.issued@.len() as int) =~= before.issued@);
            lemma_accounted_kept(before, *runtime);
            assert(runtime.wf());
            assert(runtime.ran_on(before, chosen(stream))) by {
                reveal(CudaRuntime::ran_on);
                assert(runtime.issued@.take(before.issued@.len() as int) =~= before.issued@);
            }
        }
        span.set(runtime, f, stream);
    }
}

impl CudaRuntime {
    /// A vector of host values.
    pub fn vector_from_host(&mut self, values: &Vec<F32>, stream: Option<Stream>) -> (r: Vector)
        requires
            old(self).wf(),
            addressable(values@.len() as int),
        ensures
            final(self).grown(*old(self), r.buffer.id, stream),
            final(self).holds_vector(r),
            r.buffer.len == values@.len(),
            final(self).vector(r) == literals(values@),
    {
        let ghost before = *self;
        let buffer = self.allocate_uninit_buffer(values.len());
        assert(self.grown(before, buffer.id, stream));
        self.upload(&buffer, values, stream);
        Vector { buffer }
    }

    /// Applies a function to every element of a vector.
    pub(crate) fn map_vector(&mut self, target: &Vector, f: MapFn, stream: Option<Stream>)
        requires
            old(self).wf(),
            old(self).holds_vector(*target),
        ensures
            final(self).changed(*old(self), target.buffer.id, stream),
            final(self).vector(*target) == apply(f, old(self).vector(*target)),
    {
        proof {
            self.lemma_whole(target.buffer);
            self.lemma_ran_on_nothing(chosen(stream));
        }
        if target.buffer.is_empty() {
            assert(self.vector(*target) =~= apply(f, self.vector(*target)));
            return;
        }
        self.assign_each(target.as_span().descriptor(), f, stream);
    }

    /// Combines every element of a vector with its counterpart in another.
    pub(crate) fn combine_vector(
        &mut self,
        target: &Vector,
        rhs: &Vector,
        f: BinaryFn,
        stream: Option<Stream>,
    )
        requires
            old(self).wf(),
            old(self).holds_vector(*target),
            old(self).holds_vector(*rhs),
            target.buffer.len == rhs.buffer.len,
        ensures
            final(self).changed(*old(self), target.buffer.id, stream),
            final(self).vector(*target) == zip(
                f,
                old(self).vector(*target),
                old(self).vector(*rhs),
            ),
    {
        proof {
            self.lemma_whole(target.buffer);
            self.lemma_whole(rhs.buffer);
        }
        self.combine_each(
            target.as_span().descriptor(),
            rhs.as_span().descriptor(),
            f,
            stream,
        );
    }

    /// Consumes a vector and returns its allocation to the runtime pool.
    pub fn recycle_vector(&mut self, vector: Vector)
        requires
            old(self).wf(),
            old(self).holds_vector(vector),
        ensures
            final(self).shrunk(*old(self), vector.buffer.id),
            vector.buffer.len > 0 ==> final(self).pooled(vector.buffer.len) == old(self).pooled(
                vector.buffer.len,
            ).push(vector.buffer),
    {
        self.recycle_buffer(vector.buffer);
    }

    /// Consumes a vector and frees its allocation.
    pub(crate) fn drop_vector(&mut self, vector: Vector)
        requires
            old(self).wf(),
            old(self).holds_vector(vector),
        ensures
            final(self).shrunk(*old(self), vector.buffer.id),
    {
        self.drop_buffer(vector.buffer);
    }

    /// A vector around a buffer.
    pub fn create_vector(&self, buffer: DeviceBuffer) -> (r: Vector)
        ensures
            r.buffer == buffer,
    {
        Vector { buffer }
    }

    /// A new filled vector.
    pub fn new_vector(&mut self, init_type: InitType, size: usize, stream: Option<Stream>) -> (r: Vector)
        requires
            old(self).wf(),
            addressable(size as int),
        ensures
            final(self).grown(*old(self), r.buffer.id, stream),
            final(self).holds_vector(r),
            r.buffer.len == size,
            final(self).vector(r) == initial(
                init_type.fill(size, old(self).draws@.len() as usize),
                size as nat,
            ),
            final(self).draws@ == if init_type is Random {
                old(self).draws@.push(r.buffer.id)
            } else {
                old(self).draws@
            },
            forall|i: int|
                0 <= i < size as int ==> (init_type.number(size as int, i) matches Some(n)
                    ==> #[trigger] number_of(final(self).vector(r)[i]) == Some(n as real)),
            forall|i: int, x: real|
                #![trigger can_be(final(self).vector(r)[i], x)]
                0 <= i < size as int && can_be(final(self).vector(r)[i], x) ==> {
                    &&& init_type is Random ==> 0int as real <= x && x <= 1int as real
                    &&& init_type.number(size as int, i) matches Some(n) ==> x == n as real
                },
    {
        let ghost before = *self;
        let mut buffer = self.get_uninit_buffer(size);
        assert(self.grown(before, buffer.id, stream));
        proof {
            self.lemma_whole(buffer);
        }
        let mut span = DeviceSpanMut::from_buffer(&mut buffer, 0, size);
        init_type.initialize(&mut span, self, stream);
        proof {
            assert forall|i: int, x: real|
                #![trigger can_be(self.mem(buffer.id)[i], x)]
                0 <= i < size as int && can_be(self.mem(buffer.id)[i], x) && init_type is Random implies 0int as real
                <= x && x <= 1int as real by {
                init_type.fill(size, before.draws@.len() as usize).lemma_draws(i, x);
            }
        }
        Vector { buffer }
    }

    /// A copy of a vector.
    pub fn clone_vector(&mut self, vec: &Vector, stream: Option<Stream>) -> (r: Vector)
        requires
            old(self).wf(),
            old(self).holds_vector(*vec),
        ensures
            final(self).grown(*old(self), r.buffer.id, stream),
            final(self).holds_vector(r),
            r.buffer.len == vec.buffer.len,
            final(self).vector(r) == old(self).vector(*vec),
    {
        let buffer = self.clone_buffer_on(&vec.buffer, stream);
        Vector { buffer }
    }

    /// The sum of two vectors.
    pub fn vector_add(&mut self, vec1: &Vector, vec2: &Vector, stream: Option<Stream>) -> (r:
        Vector)
        requires
            old(self).wf(),
            old(self).holds_vector(*vec1),
            old(self).holds_vector(*vec2),
            vec1.buffer.len == vec2.buffer.len,
        ensures
            final(self).grown(*old(self), r.buffer.id, stream),
            final(self).holds_vector(r),
            r.buffer.len == vec1.buffer.len,
            final(self).vector(r) == zip(
                BinaryFn::Add,
                old(self).vector(*vec1),
                old(self).vector(*vec2),
            ),
            forall|c: Exact, i: int|
                0 <= i < vec1.buffer.len ==> #[trigger] c.value(final(self).vector(r)[i])
                    == c.value(old(self).vector(*vec1)[i]) + c.value(
                    old(self).vector(*vec2)[i],
                ),
    {
        self.vector_binary(vec1, vec2, BinaryFn::Add, stream)
    }

    /// The difference of two vectors.
    pub fn vector_sub(&mut self, vec1: &Vector, vec2: &Vector, stream: Option<Stream>) -> (r:
        Vector)
        requires
            old(self).wf(),
            old(self).holds_vector(*vec1),
            old(self).holds_vector(*vec2),
            vec1.buffer.len == vec2.buffer.len,
        ensures
            final(self).grown(*old(self), r.buffer.id, stream),
            final(self).holds_vector(r),
            r.buffer.len == vec1.buffer.len,
            final(self).vector(r) == zip(
                BinaryFn::Sub,
                old(self).vector(*vec1),
                old(self).vector(*vec2),
            ),
            forall|c: Exact, i: int|
                0 <= i < vec1.buffer.len ==> #[trigger] c.value(final(self).vector(r)[i])
                    == c.value(old(self).vector(*vec1)[i]) - c.value(
                    old(self).vector(*vec2)[i],
                ),
    {
        self.vector_binary(vec1, vec2, BinaryFn::Sub, stream)
    }

    /// The element-wise product of two vectors.
    pub fn vector_mul(&mut self, vec1: &Vector, vec2: &Vector, stream: Option<Stream>) -> (r:
        Vector)
        requires
            old(self).wf(),
            old(self).holds_vector(*vec1),
            old(self).holds_vector(*vec2),
            vec1.buffer.len == vec2.buffer.len,
        ensures
            final(self).grown(*old(self), r.buffer.id, stream),
            final(self).holds_vector(r),
            r.buffer.len == vec1.buffer.len,
            final(self).vector(r) == zip(
                BinaryFn::Mul,
                old(self).vector(*vec1),
                old(self).vector(*vec2),
            ),
            forall|c: Exact, i: int|
                0 <= i < vec1.buffer.len ==> #[trigger] c.value(final(self).vector(r)[i])
                    == c.value(old(self).vector(*vec1)[i]) * c.value(
                    old(self).vector(*vec2)[i],
                ),
    {
        self.vector_binary(vec1, vec2, BinaryFn::Mul, stream)
    }

    /// The element-wise quotient of two vectors.
    pub fn vector_div(&mut self, vec1: &Vector, vec2: &Vector, stream: Option<Stream>) -> (r:
        Vector)
        requires
            old(self).wf(),
            old(self).holds_vector(*vec1),
            old(self).holds_vector(*vec2),
            vec1.buffer.len == vec2.buffer.len,
        ensures
            final(self).grown(*old(self), r.buffer.id, stream),
            final(self).holds_vector(r),
            r.buffer.len == vec1.buffer.len,
            final(self).vector(r) == zip(
                BinaryFn::Div,
                old(self).vector(*vec1),
                old(self).vector(*vec2),
            ),
            forall|c: Exact, i: int|
                0 <= i < vec1.buffer.len ==> #[trigger] c.value(final(self).vector(r)[i])
                    == c.value(old(self).vector(*vec1)[i]) / c.value(
                    old(self).vector(*vec2)[i],
                ),
    {
        self.vector_binary(vec1, vec2, BinaryFn::Div, stream)
    }

    /// Combines two vectors element by element.
    pub fn vector_binary(&mut self, vec1: &Vector, vec2: &Vector, f: BinaryFn, stream: Option<Stream>) -> (r:
        Vector)
        requires
            old(self).wf(),
            old(self).holds_vector(*vec1),
            old(self).holds_vector(*vec2),
            vec1.buffer.len == vec2.buffer.len,
        ensures
            final(self).grown(*old(self), r.buffer.id, stream),
            final(self).holds_vector(r),
            r.buffer.len == vec1.buffer.len,
            final(self).vector(r) == zip(f, old(self).vector(*vec1), old(self).vector(*vec2)),
    {
        let ghost before = *self;
        proof {
            self.lemma_whole(vec1.buffer);
            self.lemma_whole(vec2.buffer);
        }
        let mut buffer = self.get_uninit_buffer(vec1.buffer.len());
        assert(self.grown(before, buffer.id, stream));
        proof {
            self.lemma_whole(vec1.buffer);
            self.lemma_whole(vec2.buffer);
            self.lemma_whole(buffer);
        }
        let lhs = DeviceSpan::from_buffer(&vec1.buffer, 0, vec1.buffer.len());
        let rhs = DeviceSpan::from_buffer(&vec2.buffer, 0, vec2.buffer.len());
        let len: usize = buffer.len();
        let output = DeviceSpanMut::from_buffer(&mut buffer, 0, len);
        self.combine_into(lhs.descriptor(), rhs.descriptor(), output.descriptor(), f, stream);
        Vector { buffer }
    }
}

} // verus!
