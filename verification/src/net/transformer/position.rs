//! Positional encodings.

use vstd::prelude::*;

use crate::cuda::algebra::{zip, Term};
use crate::cuda::container::Matrix;
use crate::cuda::exact::Exact;
use crate::cuda::ops::BinaryFn;
use crate::cuda::runtime::{chosen, CudaRuntime};
use crate::net::linear::{loaded, took};
use crate::net::metadata::{
    range_holds, HostDataCursor, HostRead, MatrixMetadata, MetadataCursor, SCALAR_BYTES,
};

verus! {

broadcast use crate::cuda::runtime::group_streams;

/// The place of a positional encoding in a checkpoint.
#[derive(Clone, Copy, Debug, PartialEq, Eq, Structural)]
pub enum PositionEncodingMetadata {
    Identity,
    Additive { values: MatrixMetadata },
}

/// Positional encoding owned by a transformer.
///
/// Both variants have an identity input derivative, so no training cache or
/// dedicated graph node is required.
pub enum PositionEncoding {
    Identity,
    Additive(Matrix),
}

impl Default for PositionEncoding {
    fn default() -> (r: PositionEncoding)
        ensures
            r is Identity,
    {
        PositionEncoding::Identity
    }
}

impl PositionEncodingMetadata {
    /// Whether this describes an encoding whose values start here.
    pub open spec fn describes(self, encoding: PositionEncoding, start: int) -> bool {
        match (self, encoding) {
            (PositionEncodingMetadata::Identity, PositionEncoding::Identity) => true,
            (
                PositionEncodingMetadata::Additive { values },
                PositionEncoding::Additive(matrix),
            ) => {
                &&& values.rows == matrix.rows
                &&& values.cols == matrix.cols
                &&& values.byte_start == start
                &&& range_holds(
                    values.byte_start as int,
                    values.byte_end as int,
                    matrix.rows * matrix.cols,
                )
            },
            _ => false,
        }
    }
}

impl PositionEncoding {
    /// Whether the values, if there are any, are alive.
    pub open spec fn wf(self, runtime: CudaRuntime) -> bool {
        self matches PositionEncoding::Additive(values) ==> runtime.holds(values)
    }

    /// Whether a buffer belongs to the encoding.
    pub open spec fn owns(self, id: usize) -> bool {
        self matches PositionEncoding::Additive(values) && values.buffer.id == id
    }

    /// The parameters: the values, if there are any.
    pub open spec fn parameters(self, runtime: CudaRuntime) -> Seq<Seq<Term>> {
        match self {
            PositionEncoding::Identity => Seq::empty(),
            PositionEncoding::Additive(values) => seq![runtime.matrix(values)],
        }
    }

    /// The sizes of the parameters.
    pub open spec fn parameter_sizes(self) -> Seq<usize> {
        match self {
            PositionEncoding::Identity => Seq::empty(),
            PositionEncoding::Additive(values) => seq![values.buffer.len],
        }
    }

    /// Bytes of all parameters.
    pub open spec fn byte_len(self) -> int {
        match self {
            PositionEncoding::Identity => 0,
            PositionEncoding::Additive(values) => values.rows * values.cols * SCALAR_BYTES,
        }
    }

    /// What the encoding makes of a matrix.
    pub open spec fn image(self, runtime: CudaRuntime, x: Seq<Term>) -> Seq<Term> {
        match self {
            PositionEncoding::Identity => x,
            PositionEncoding::Additive(values) => zip(BinaryFn::Add, x, runtime.matrix(values)),
        }
    }

    /// Whether the shape of an input fits.
    pub open spec fn accepts(self, rows: usize, cols: usize) -> bool {
        self matches PositionEncoding::Additive(values) ==> values.rows == rows && values.cols
            == cols
    }

    /// Bytes are counted from zero up.
    pub proof fn lemma_byte_len(self)
        ensures
            self.byte_len() >= 0,
    {
        match self {
            PositionEncoding::Identity => {},
            PositionEncoding::Additive(values) => {
                assert(values.rows * values.cols * 4 >= 0) by (nonlinear_arith);
            },
        }
    }

    /// The values stay alive while their buffer does.
    pub proof fn lemma_wf_kept(self, before: CudaRuntime, after: CudaRuntime)
        requires
            before.wf(),
            self.wf(before),
            before.buffers@.len() <= after.buffers@.len(),
            forall|id: usize|
                #![trigger after.buffers@[id as int]]
                id < before.buffers@.len() ==> after.buffers@[id as int]
                    == before.buffers@[id as int],
            forall|id: usize| #[trigger] self.owns(id) ==> after.live@.contains(id),
        ensures
            self.wf(after),
    {
        match self {
            PositionEncoding::Identity => {},
            PositionEncoding::Additive(values) => {
                assert(self.owns(values.buffer.id));
                assert(after.buffers@[values.buffer.id as int] == values.buffer.len);
            },
        }
    }

    /// The values stay while their buffer does.
    pub proof fn lemma_kept(self, before: CudaRuntime, after: CudaRuntime)
        requires
            forall|id: usize| #[trigger] self.owns(id) ==> after.mem(id) == before.mem(id),
        ensures
            self.parameters(after) == self.parameters(before),
            forall|x: Seq<Term>| #[trigger] self.image(after, x) == self.image(before, x),
    {
        match self {
            PositionEncoding::Identity => {},
            PositionEncoding::Additive(values) => {
                assert(self.owns(values.buffer.id));
            },
        }
        assert(self.parameters(after) =~= self.parameters(before));
    }

    pub fn identity() -> (r: PositionEncoding)
        ensures
            r is Identity,
    {
        PositionEncoding::Identity
    }

    pub fn additive(values: Matrix) -> (r: PositionEncoding)
        ensures
            r == PositionEncoding::Additive(values),
    {
        PositionEncoding::Additive(values)
    }

    /// Reserves the encoding's place in a checkpoint.
    pub fn get_meta_data(&self, cursor: &mut MetadataCursor) -> (r: PositionEncodingMetadata)
        requires
            self matches PositionEncoding::Additive(values) ==> values.rows * values.cols
                <= usize::MAX,
            old(cursor).position + self.byte_len() <= u64::MAX,
        ensures
            r.describes(*self, old(cursor).position as int),
            final(cursor).position == old(cursor).position + self.byte_len(),
    {
        match self {
            PositionEncoding::Identity => PositionEncodingMetadata::Identity,
            PositionEncoding::Additive(values) => PositionEncodingMetadata::Additive {
                values: cursor.matrix(values.rows(), values.cols()),
            },
        }
    }

    /// Brings the values to the host.
    pub fn get_data(&self, runtime: &mut CudaRuntime) -> (r: Vec<HostRead>)
        requires
            old(runtime).wf(),
            self.wf(*old(runtime)),
        ensures
            final(runtime).read_out(*old(runtime), r@, self.parameters(*old(runtime))),
    {
        let ghost before = *runtime;
        let mut data: Vec<HostRead> = Vec::new();
        proof {
            runtime.lemma_ran_on_nothing(chosen(None));
            assert(before.device@.downloads + Seq::<Seq<Term>>::empty()
                =~= before.device@.downloads);
        }
        if let PositionEncoding::Additive(values) = self {
            proof {
                before.lemma_whole(values.buffer);
            }
            let download: usize = values.to_host(runtime, None);
            data.push(HostRead { download, len: values.buffer.len });
            proof {
                assert(runtime.device@.downloads =~= before.device@.downloads + self.parameters(
                    before,
                ));
            }
        }
        data
    }

    /// Whether a source goes on with the values.
    pub open spec fn fits(self, source: HostDataCursor) -> bool {
        &&& source.wf()
        &&& source.data@.len() >= self.parameter_sizes().len()
        &&& forall|k: int|
            0 <= k < self.parameter_sizes().len() ==> (#[trigger] source.data@[k]).values@.len()
                == self.parameter_sizes()[k]
    }

    /// Replaces the values by the next ones of a source.
    pub fn set_data(&mut self, data: &mut HostDataCursor, runtime: &mut CudaRuntime)
        requires
            old(runtime).wf(),
            old(self).wf(*old(runtime)),
            old(self).fits(*old(data)),
        ensures
            *final(self) == *old(self),
            took(
                *old(runtime),
                *final(runtime),
                *old(data),
                *final(data),
                old(self).parameter_sizes().len(),
                |id: usize| old(self).owns(id),
            ),
            old(self).parameters(*final(runtime)) == loaded(
                old(data).data@,
                old(self).parameter_sizes().len(),
            ),
    {
        let ghost before = *runtime;
        let ghost source = *data;
        let ghost start = *self;
        proof {
            runtime.lemma_ran_on_nothing(chosen(None));
            assert(source.data@.skip(0) =~= source.data@);
        }
        if let PositionEncoding::Additive(values) = self {
            let host = data.take();
            proof {
                assert(source.data@.drop_first() =~= source.data@.skip(1));
                assert(host == source.data@[0]);
            }
            values.copy_from_host(&host.values, runtime, None);
        }
        proof {
            assert(start.parameters(*runtime) =~= loaded(
                source.data@,
                start.parameter_sizes().len(),
            ));
        }
    }

    /// Adds the encoding to a matrix.
    pub fn forward(&self, input: &Matrix, runtime: &mut CudaRuntime) -> (r: Matrix)
        requires
            old(runtime).wf(),
            self.wf(*old(runtime)),
            old(runtime).holds(*input),
            self.accepts(input.rows, input.cols),
        ensures
            final(runtime).grown(*old(runtime), r.buffer.id, None),
            final(runtime).holds(r),
            r.rows == input.rows,
            r.cols == input.cols,
            final(runtime).matrix(r) == self.image(*old(runtime), old(runtime).matrix(*input)),
            forall|c: Exact, i: int|
                0 <= i < old(runtime).matrix(*input).len() ==> #[trigger] c.value(
                    final(runtime).matrix(r)[i],
                ) == c.value(old(runtime).matrix(*input)[i]) + (match *self {
                    PositionEncoding::Identity => 0int as real,
                    PositionEncoding::Additive(values) => c.value(old(runtime).matrix(values)[i]),
                }),
    {
        match self {
            PositionEncoding::Identity => runtime.clone_matrix(input, None),
            PositionEncoding::Additive(values) => runtime.matrix_add(input, values, None),
        }
    }
}

} // verus!
