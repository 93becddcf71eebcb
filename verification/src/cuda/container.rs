//! Vectors and matrices in device memory.

pub mod convert;
pub mod matrix;
pub mod norm;
pub mod rows;
pub mod vector;
pub mod vector_runtime;
pub mod vector_view;

use vstd::prelude::*;

use super::algebra::Term;
use super::command::{DeviceSliceDescriptor, Stream};
use super::launch::spliced;
use super::runtime::{chosen, CudaRuntime, DeviceBuffer};
use super::span::DeviceSpanMut;

verus! {

/// An owned vector.
#[derive(Debug, PartialEq, Eq)]
pub struct Vector {
    pub buffer: DeviceBuffer,
}

/// An exclusively borrowed vector.
pub struct VectorView<'a> {
    pub span: DeviceSpanMut<'a>,
}

/// An owned row-major matrix.
#[derive(Debug, PartialEq, Eq)]
pub struct Matrix {
    pub buffer: DeviceBuffer,
    pub rows: usize,
    pub cols: usize,
}

/// The whole of a buffer.
pub open spec fn whole(buffer: DeviceBuffer) -> DeviceSliceDescriptor {
    DeviceSliceDescriptor { buffer: buffer.id, offset: 0, len: buffer.len }
}

/// The buffers of matrices.
pub open spec fn ids(ms: Seq<Matrix>) -> Set<usize> {
    Set::new(|id: usize| exists|k: int| 0 <= k < ms.len() && (#[trigger] ms[k]).buffer.id == id)
}

/// The buffers of a list with one matrix more.
pub proof fn lemma_ids_push(ms: Seq<Matrix>, m: Matrix)
    ensures
        forall|id: usize| #[trigger]
            ids(ms.push(m)).contains(id) <==> ids(ms).contains(id) || id == m.buffer.id,
{
    let all = ms.push(m);
    assert forall|id: usize| #[trigger] ids(all).contains(id) <==> ids(ms).contains(id) || id
        == m.buffer.id by {
        assert(all[ms.len() as int] == m);
        if ids(ms).contains(id) {
            let k = choose|k: int| 0 <= k < ms.len() && (#[trigger] ms[k]).buffer.id == id;
            assert(all[k].buffer.id == id);
        }
        if ids(all).contains(id) && id != m.buffer.id {
            let k = choose|k: int| 0 <= k < all.len() && (#[trigger] all[k]).buffer.id == id;
            assert(ms[k].buffer.id == id);
        }
    }
}

/// What matrices hold.
pub open spec fn values_of(runtime: CudaRuntime, ms: Seq<Matrix>) -> Seq<Seq<Term>> {
    Seq::new(ms.len(), |k: int| runtime.matrix(ms[k]))
}

/// The buffers of vectors.
pub open spec fn vector_ids(vs: Seq<Vector>) -> Set<usize> {
    Set::new(|id: usize| exists|k: int| 0 <= k < vs.len() && (#[trigger] vs[k]).buffer.id == id)
}

/// No two matrices share a buffer.
pub open spec fn distinct(ms: Seq<Matrix>) -> bool {
    forall|i: int, j: int|
        #![trigger ms[i], ms[j]]
        0 <= i < j < ms.len() ==> ms[i].buffer.id != ms[j].buffer.id
}

/// No two vectors share a buffer.
pub open spec fn vectors_distinct(vs: Seq<Vector>) -> bool {
    forall|i: int, j: int|
        #![trigger vs[i], vs[j]]
        0 <= i < j < vs.len() ==> vs[i].buffer.id != vs[j].buffer.id
}

impl CudaRuntime {
    /// A later state that differs only by new matrices.
    pub open spec fn grown_by(self, before: CudaRuntime, ms: Seq<Matrix>, stream: Option<Stream>) -> bool {
        &&& self.wf()
        &&& distinct(ms)
        &&& forall|k: int|
            #![trigger ms[k]]
            0 <= k < ms.len() ==> self.holds(ms[k]) && !before.live@.contains(ms[k].buffer.id)
        &&& forall|id: usize|
            #![trigger self.live@.contains(id)]
            self.live@.contains(id) <==> before.live@.contains(id) || ids(ms).contains(id)
        &&& self.keeps(before, Set::empty())
        &&& self.device@.downloads == before.device@.downloads
        &&& self.ran_on(before, chosen(stream))
    }

    /// The same with new vectors.
    pub open spec fn grown_by_vectors(
        self,
        before: CudaRuntime,
        vs: Seq<Vector>,
        stream: Option<Stream>,
    ) -> bool {
        &&& self.wf()
        &&& vectors_distinct(vs)
        &&& forall|k: int|
            #![trigger vs[k]]
            0 <= k < vs.len() ==> self.holds_vector(vs[k]) && !before.live@.contains(
                vs[k].buffer.id,
            )
        &&& forall|id: usize|
            #![trigger self.live@.contains(id)]
            self.live@.contains(id) <==> before.live@.contains(id) || vector_ids(vs).contains(id)
        &&& self.keeps(before, Set::empty())
        &&& self.device@.downloads == before.device@.downloads
        &&& self.ran_on(before, chosen(stream))
    }

    /// One more matrix.
    pub proof fn lemma_grown_by_push(
        self,
        middle: CudaRuntime,
        before: CudaRuntime,
        ms: Seq<Matrix>,
        m: Matrix,
        stream: Option<Stream>,
    )
        requires
            middle.grown_by(before, ms, stream),
            self.grown(middle, m.buffer.id, stream),
            self.holds(m),
            self.ran_on(before, chosen(stream)),
        ensures
            self.grown_by(before, ms.push(m), stream),
            forall|k: int|
                0 <= k < ms.len() ==> self.matrix(#[trigger] ms[k]) == middle.matrix(ms[k]),
    {
        let all = ms.push(m);
        assert(all[ms.len() as int] == m);
        assert forall|k: int| 0 <= k < ms.len() implies #[trigger] all[k] == ms[k]
            && middle.live@.contains(ms[k].buffer.id) by {
            assert(ids(ms).contains(ms[k].buffer.id));
        }
        assert forall|id: usize| #[trigger]
            ids(all).contains(id) <==> ids(ms).contains(id) || id == m.buffer.id by {
            if ids(ms).contains(id) {
                let k = choose|k: int| 0 <= k < ms.len() && (#[trigger] ms[k]).buffer.id == id;
                assert(all[k].buffer.id == id);
            }
            if ids(all).contains(id) && id != m.buffer.id {
                let k = choose|k: int| 0 <= k < all.len() && (#[trigger] all[k]).buffer.id == id;
                assert(ms[k].buffer.id == id);
            }
        }
        assert forall|i: int, j: int| 0 <= i < j < all.len() implies (#[trigger] all[i]).buffer.id
            != (#[trigger] all[j]).buffer.id by {
            if j == ms.len() {
                assert(middle.live@.contains(ms[i].buffer.id));
            } else {
                assert(ms[i].buffer.id != ms[j].buffer.id);
            }
        }
        assert forall|k: int| 0 <= k < all.len() implies self.holds(#[trigger] all[k])
            && !before.live@.contains(all[k].buffer.id) by {
            if k < ms.len() {
                assert(middle.holds(ms[k]));
                assert(self.buffers@[ms[k].buffer.id as int] == ms[k].buffer.len);
                assert(self.live@.contains(ms[k].buffer.id));
            } else {
                assert(!middle.live@.contains(m.buffer.id));
            }
        }
        assert forall|id: usize|
            #![trigger self.live@.contains(id)]
            self.live@.contains(id) <==> before.live@.contains(id) || ids(all).contains(id) by {
            assert(middle.live@.contains(id) <==> before.live@.contains(id) || ids(ms).contains(id));
        }
    }

    /// One more vector.
    pub proof fn lemma_grown_by_vectors_push(
        self,
        middle: CudaRuntime,
        before: CudaRuntime,
        vs: Seq<Vector>,
        v: Vector,
        stream: Option<Stream>,
    )
        requires
            middle.grown_by_vectors(before, vs, stream),
            self.grown(middle, v.buffer.id, stream),
            self.holds_vector(v),
            self.ran_on(before, chosen(stream)),
        ensures
            self.grown_by_vectors(before, vs.push(v), stream),
            forall|k: int|
                0 <= k < vs.len() ==> self.vector(#[trigger] vs[k]) == middle.vector(vs[k]),
    {
        let all = vs.push(v);
        assert(all[vs.len() as int] == v);
        assert forall|k: int| 0 <= k < vs.len() implies #[trigger] all[k] == vs[k]
            && middle.live@.contains(vs[k].buffer.id) by {
            assert(vector_ids(vs).contains(vs[k].buffer.id));
        }
        assert forall|id: usize| #[trigger]
            vector_ids(all).contains(id) <==> vector_ids(vs).contains(id) || id == v.buffer.id by {
            if vector_ids(vs).contains(id) {
                let k = choose|k: int| 0 <= k < vs.len() && (#[trigger] vs[k]).buffer.id == id;
                assert(all[k].buffer.id == id);
            }
            if vector_ids(all).contains(id) && id != v.buffer.id {
                let k = choose|k: int| 0 <= k < all.len() && (#[trigger] all[k]).buffer.id == id;
                assert(vs[k].buffer.id == id);
            }
        }
        assert forall|i: int, j: int| 0 <= i < j < all.len() implies (#[trigger] all[i]).buffer.id
            != (#[trigger] all[j]).buffer.id by {
            if j == vs.len() {
                assert(middle.live@.contains(vs[i].buffer.id));
            } else {
                assert(vs[i].buffer.id != vs[j].buffer.id);
            }
        }
        assert forall|k: int| 0 <= k < all.len() implies self.holds_vector(#[trigger] all[k])
            && !before.live@.contains(all[k].buffer.id) by {
            if k < vs.len() {
                assert(middle.holds_vector(vs[k]));
                assert(self.buffers@[vs[k].buffer.id as int] == vs[k].buffer.len);
                assert(self.live@.contains(vs[k].buffer.id));
            } else {
                assert(!middle.live@.contains(v.buffer.id));
            }
        }
        assert forall|id: usize|
            #![trigger self.live@.contains(id)]
            self.live@.contains(id) <==> before.live@.contains(id) || vector_ids(all).contains(id) by {
            assert(middle.live@.contains(id) <==> before.live@.contains(id) || vector_ids(vs).contains(id));
        }
    }

    /// Whether a vector is alive here.
    pub open spec fn holds_vector(self, v: Vector) -> bool {
        self.owns(v.buffer)
    }

    /// Whether a matrix is alive here and has a buffer of its shape.
    pub open spec fn holds(self, m: Matrix) -> bool {
        &&& self.owns(m.buffer)
        &&& m.rows * m.cols == m.buffer.len
    }

    /// The elements of a vector.
    #[verifier::inline]
    pub open spec fn vector(self, v: Vector) -> Seq<Term> {
        self.mem(v.buffer.id)
    }

    /// The elements of a matrix, row by row.
    #[verifier::inline]
    pub open spec fn matrix(self, m: Matrix) -> Seq<Term> {
        self.mem(m.buffer.id)
    }

    /// Reading and replacing the whole of a buffer.
    pub proof fn lemma_whole(self, buffer: DeviceBuffer)
        requires
            self.wf(),
            self.owns(buffer),
        ensures
            self.spans(whole(buffer)),
            self.mem(buffer.id).len() == buffer.len,
            self.device@.read(whole(buffer)) == self.mem(buffer.id),
            forall|new: Seq<Term>|
                new.len() == buffer.len ==> #[trigger] spliced(self.mem(buffer.id), 0, new) == new,
            super::runtime::addressable(buffer.len as int),
    {
        assert(self.mem(buffer.id).len() == self.buffers@[buffer.id as int]);
        assert(self.device@.read(whole(buffer)) =~= self.mem(buffer.id));
        assert forall|new: Seq<Term>| new.len() == buffer.len implies #[trigger] spliced(
            self.mem(buffer.id),
            0,
            new,
        ) == new by {
            assert(spliced(self.mem(buffer.id), 0, new) =~= new);
        }
    }
}

} // verus!
