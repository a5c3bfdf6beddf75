//! Flat vector storage: vectors of one dimension laid out back to back, and
//! the header of the on-disk storage file.
//!
//! On disk: magic number, vector count and dimension (little-endian `u64`
//! each, 24 bytes in all), then the vector data, four bytes per element.

use crate::error::{HeaderFault, VectorIndexError};
use crate::wire::{put_u64, read_u64, u64_at};
use vstd::bytes::*;
use vstd::prelude::*;

verus! {

/// Magic number of storage files ("VECRSTOR").
pub const STORAGE_MAGIC: u64 = 0x5645_4352_5354_4F52;

/// Size of the storage file header in bytes.
pub const STORAGE_HEADER_SIZE: usize = 24;

/// Bytes per stored element.
pub const ELEMENT_BYTES: u64 = 4;

/// The header of a storage file holding `num_vectors` vectors of `dimension`.
pub open spec fn enc_storage_header(num_vectors: u64, dimension: u64) -> Seq<u8> {
    spec_u64_to_le_bytes(STORAGE_MAGIC) + spec_u64_to_le_bytes(num_vectors) + spec_u64_to_le_bytes(
        dimension,
    )
}

/// A storage file made of the header for `num_vectors` vectors of
/// `dimension` elements followed by at least their data opens with that
/// layout (for files whose length fits the `u64` size field).
pub proof fn lemma_storage_file_roundtrip(num_vectors: u64, dimension: u64, data: Seq<u8>)
    requires
        num_vectors <= usize::MAX,
        dimension <= usize::MAX,
        data.len() >= num_vectors * dimension * ELEMENT_BYTES,
        STORAGE_HEADER_SIZE + data.len() <= u64::MAX,
    ensures
        spec_open_storage(enc_storage_header(num_vectors, dimension) + data) == Ok::<
            StorageLayout,
            VectorIndexError,
        >(StorageLayout { num_vectors: num_vectors as usize, dimension: dimension as usize }),
{
    lemma_auto_spec_u64_to_from_le_bytes();
    let b = enc_storage_header(num_vectors, dimension) + data;
    assert(b.subrange(0, 8) =~= spec_u64_to_le_bytes(STORAGE_MAGIC));
    assert(b.subrange(8, 16) =~= spec_u64_to_le_bytes(num_vectors));
    assert(b.subrange(16, 24) =~= spec_u64_to_le_bytes(dimension));
    assert(u64_at(b, 0) == STORAGE_MAGIC);
    assert(u64_at(b, 8) == num_vectors);
    assert(u64_at(b, 16) == dimension);
    assert(b.len() == STORAGE_HEADER_SIZE + data.len());
    assert(spec_expected_file_size(num_vectors, dimension) <= b.len());
}

/// Writes the header of a storage file.
pub fn storage_header(num_vectors: u64, dimension: u64) -> (out: Vec<u8>)
    ensures
        out@ == enc_storage_header(num_vectors, dimension),
{
    let mut out: Vec<u8> = Vec::new();
    put_u64(&mut out, STORAGE_MAGIC);
    put_u64(&mut out, num_vectors);
    put_u64(&mut out, dimension);
    assert(out@ =~= enc_storage_header(num_vectors, dimension));
    out
}

/// Vector count and dimension of an opened storage file.
#[derive(Debug, Clone, Copy, PartialEq, Eq, Structural)]
pub struct StorageLayout {
    pub num_vectors: usize,
    pub dimension: usize,
}

/// Size in bytes that a file with this header must have at least: the
/// header plus four bytes per element, or `u64::MAX` when that does not fit.
pub open spec fn spec_expected_file_size(num_vectors: u64, dimension: u64) -> u64 {
    let need = STORAGE_HEADER_SIZE + num_vectors * dimension * ELEMENT_BYTES;
    if need <= u64::MAX {
        need as u64
    } else {
        u64::MAX
    }
}

/// What opening a storage file of these bytes gives: too small a file, a
/// wrong magic number, or a file shorter than its header declares are
/// refused.
pub open spec fn spec_open_storage(b: Seq<u8>) -> Result<StorageLayout, VectorIndexError> {
    if b.len() < STORAGE_HEADER_SIZE {
        Err(
            VectorIndexError::InvalidHeader {
                reason: HeaderFault::FileTooSmall { size: b.len() as u64 },
            },
        )
    } else if u64_at(b, 0) != STORAGE_MAGIC {
        Err(VectorIndexError::InvalidHeader { reason: HeaderFault::StorageMagic { found: u64_at(b, 0) } })
    } else if (b.len() as u64) < spec_expected_file_size(u64_at(b, 8), u64_at(b, 16)) {
        Err(
            VectorIndexError::FileSizeMismatch {
                expected: spec_expected_file_size(u64_at(b, 8), u64_at(b, 16)),
                got: b.len() as u64,
            },
        )
    } else {
        Ok(
            StorageLayout {
                num_vectors: u64_at(b, 8) as usize,
                dimension: u64_at(b, 16) as usize,
            },
        )
    }
}

/// Validates the header of a mapped storage file, `bytes` being the whole file.
pub fn open_storage(bytes: &[u8]) -> (r: Result<StorageLayout, VectorIndexError>)
    ensures
        r == spec_open_storage(bytes@),
{
    let len = bytes.len();
    if len < STORAGE_HEADER_SIZE {
        return Err(
            VectorIndexError::InvalidHeader {
                reason: HeaderFault::FileTooSmall { size: len as u64 },
            },
        );
    }
    let magic = read_u64(bytes, 0).unwrap();
    if magic != STORAGE_MAGIC {
        return Err(
            VectorIndexError::InvalidHeader { reason: HeaderFault::StorageMagic { found: magic } },
        );
    }
    let n = read_u64(bytes, 8).unwrap();
    let d = read_u64(bytes, 16).unwrap();
    let expected: u64 = match n.checked_mul(d) {
        Some(nd) => match nd.checked_mul(ELEMENT_BYTES) {
            Some(data) => match data.checked_add(STORAGE_HEADER_SIZE as u64) {
                Some(total) => total,
                None => u64::MAX,
            },
            None => u64::MAX,
        },
        None => u64::MAX,
    };
    proof {
        let need = STORAGE_HEADER_SIZE + n * d * ELEMENT_BYTES;
        if n * d > u64::MAX {
            assert(n * d * ELEMENT_BYTES > u64::MAX) by (nonlinear_arith)
                requires
                    n * d > u64::MAX,
            ;
        }
        assert(expected == spec_expected_file_size(n, d));
    }
    if (len as u64) < expected {
        return Err(VectorIndexError::FileSizeMismatch { expected, got: len as u64 });
    }
    Ok(StorageLayout { num_vectors: n as usize, dimension: d as usize })
}

/// Checks that every vector has `dimension` elements; the first one that
/// does not is reported with its length.
pub fn check_dimensions<T>(vectors: &[&[T]], dimension: usize) -> (r: Result<(), VectorIndexError>)
    ensures
        r is Ok <==> forall|i: int| 0 <= i < vectors@.len() ==> (#[trigger] vectors@[i])@.len()
            == dimension,
        r is Err ==> exists|i: int|
            0 <= i < vectors@.len() && (forall|j: int|
                0 <= j < i ==> (#[trigger] vectors@[j])@.len() == dimension) && (
            #[trigger] vectors@[i])@.len() != dimension && r == Err::<(), VectorIndexError>(
                VectorIndexError::DimensionMismatch { expected: dimension, got: vectors@[i]@.len() as usize },
            ),
{
    let mut i: usize = 0;
    while i < vectors.len()
        invariant
            0 <= i <= vectors@.len(),
            forall|j: int| 0 <= j < i ==> (#[trigger] vectors@[j])@.len() == dimension,
        decreases vectors@.len() - i,
    {
        let got = vectors[i].len();
        if got != dimension {
            return Err(VectorIndexError::DimensionMismatch { expected: dimension, got });
        }
        i += 1;
    }
    Ok(())
}

/// Number of vectors in a flat buffer of `len` elements; refused when `len`
/// is not a multiple of `dimension`, reporting the remainder.
pub fn flat_vector_count(len: usize, dimension: usize) -> (r: Result<usize, VectorIndexError>)
    requires
        dimension > 0,
    ensures
        len % dimension == 0 ==> r == Ok::<usize, VectorIndexError>(len / dimension),
        len % dimension != 0 ==> r == Err::<usize, VectorIndexError>(
            VectorIndexError::DimensionMismatch { expected: dimension, got: len % dimension },
        ),
{
    if len % dimension != 0 {
        Err(VectorIndexError::DimensionMismatch { expected: dimension, got: len % dimension })
    } else {
        Ok(len / dimension)
    }
}

/// Element range `[id * dimension, (id + 1) * dimension)` of vector `id`.
pub fn vector_range(id: u32, num_vectors: usize, dimension: usize) -> (r: (usize, usize))
    requires
        id < num_vectors,
        num_vectors * dimension <= usize::MAX,
    ensures
        r.0 == id * dimension,
        r.1 == id * dimension + dimension,
        r.1 <= num_vectors * dimension,
{
    let idx = id as usize;
    assert(idx * dimension + dimension <= num_vectors * dimension) by (nonlinear_arith)
        requires
            idx < num_vectors,
    ;
    (idx * dimension, idx * dimension + dimension)
}

/// Vectors of one dimension in a single buffer, back to back.
#[derive(Debug, Clone)]
pub struct HeapStorage<T> {
    data: Vec<T>,
    dimension: usize,
    num_vectors: usize,
}

impl<T: Copy> HeapStorage<T> {
    /// The buffer holds exactly `num_vectors` vectors of `dimension > 0`.
    pub closed spec fn wf(&self) -> bool {
        &&& self.dimension > 0
        &&& self.data@.len() == self.num_vectors * self.dimension
    }

    /// All elements, vector after vector.
    pub closed spec fn elements(&self) -> Seq<T> {
        self.data@
    }

    pub closed spec fn spec_dimension(&self) -> nat {
        self.dimension as nat
    }

    pub closed spec fn spec_len(&self) -> nat {
        self.num_vectors as nat
    }

    /// Vector `id`.
    pub open spec fn vector(&self, id: int) -> Seq<T> {
        self.elements().subrange(id * self.spec_dimension(), (id + 1) * self.spec_dimension())
    }

    /// Creates an empty storage for vectors of `dimension > 0`.
    pub fn new(dimension: usize) -> (s: Self)
        requires
            dimension > 0,
        ensures
            s.wf(),
            s.spec_dimension() == dimension,
            s.spec_len() == 0,
            s.elements() == Seq::<T>::empty(),
    {
        HeapStorage { data: Vec::new(), dimension, num_vectors: 0 }
    }

    /// Creates an empty storage with room for `capacity` vectors.
    pub fn with_capacity(dimension: usize, capacity: usize) -> (s: Self)
        requires
            dimension > 0,
            dimension * capacity <= usize::MAX,
        ensures
            s.wf(),
            s.spec_dimension() == dimension,
            s.spec_len() == 0,
            s.elements() == Seq::<T>::empty(),
    {
        HeapStorage { data: Vec::with_capacity(dimension * capacity), dimension, num_vectors: 0 }
    }

    /// Takes a flat buffer of whole vectors; refused when `dimension` is 0 or
    /// does not divide the buffer length.
    pub fn from_raw(data: Vec<T>, dimension: usize) -> (r: Result<Self, VectorIndexError>)
        ensures
            dimension == 0 ==> r == Err::<Self, VectorIndexError>(
                VectorIndexError::DimensionMismatch { expected: 1, got: 0 },
            ),
            dimension > 0 && data@.len() % (dimension as nat) != 0 ==> r == Err::<
                Self,
                VectorIndexError,
            >(
                VectorIndexError::DimensionMismatch {
                    expected: dimension,
                    got: (data@.len() % (dimension as nat)) as usize,
                },
            ),
            dimension > 0 && data@.len() % (dimension as nat) == 0 ==> r is Ok && r->Ok_0.wf()
                && r->Ok_0.elements() == data@ && r->Ok_0.spec_dimension() == dimension
                && r->Ok_0.spec_len() == data@.len() / (dimension as nat),
    {
        if dimension == 0 {
            return Err(VectorIndexError::DimensionMismatch { expected: 1, got: 0 });
        }
        let len = data.len();
        if len % dimension != 0 {
            return Err(VectorIndexError::DimensionMismatch { expected: dimension, got: len % dimension });
        }
        let num_vectors = len / dimension;
        assert(num_vectors * dimension == len) by (nonlinear_arith)
            requires
                dimension > 0,
                len % dimension == 0,
                num_vectors == len / dimension,
        ;
        Ok(HeapStorage { data, dimension, num_vectors })
    }

    /// Appends all elements of `s` to the buffer.
    fn append(data: &mut Vec<T>, s: &[T])
        ensures
            final(data)@ == old(data)@ + s@,
    {
        let ghost start = data@;
        let mut i: usize = 0;
        while i < s.len()
            invariant
                0 <= i <= s@.len(),
                data@ == start + s@.subrange(0, i as int),
            decreases s@.len() - i,
        {
            data.push(s[i]);
            i += 1;
            assert(s@.subrange(0, i as int) == s@.subrange(0, i - 1 as int).push(s@[i - 1]));
        }
        assert(s@.subrange(0, s@.len() as int) == s@);
    }

    /// Appends a vector; refused when its length is not the dimension.
    pub fn push(&mut self, vector: &[T]) -> (r: Result<(), VectorIndexError>)
        requires
            old(self).wf(),
        ensures
            final(self).wf(),
            final(self).spec_dimension() == old(self).spec_dimension(),
            vector@.len() != old(self).spec_dimension() ==> r == Err::<(), VectorIndexError>(
                VectorIndexError::DimensionMismatch {
                    expected: old(self).spec_dimension() as usize,
                    got: vector@.len() as usize,
                },
            ) && *final(self) == *old(self),
            vector@.len() == old(self).spec_dimension() ==> r is Ok && final(self).elements()
                == old(self).elements() + vector@ && final(self).spec_len() == old(self).spec_len()
                + 1,
    {
        if vector.len() != self.dimension {
            return Err(
                VectorIndexError::DimensionMismatch { expected: self.dimension, got: vector.len() },
            );
        }
        let ghost old_len = self.data@.len();
        Self::append(&mut self.data, vector);
        let _total = self.data.len();
        assert(self.data@.len() == (self.num_vectors + 1) * self.dimension) by (nonlinear_arith)
            requires
                self.data@.len() == old_len + self.dimension,
                old_len == self.num_vectors * self.dimension,
        ;
        assert(self.num_vectors + 1 <= self.data@.len()) by (nonlinear_arith)
            requires
                self.data@.len() == (self.num_vectors + 1) * self.dimension,
                self.dimension > 0,
        ;
        self.num_vectors = self.num_vectors + 1;
        Ok(())
    }

    /// Appends whole vectors from a flat buffer; refused when its length is
    /// not a multiple of the dimension.
    pub fn extend_from_flat(&mut self, flat_data: &[T]) -> (r: Result<(), VectorIndexError>)
        requires
            old(self).wf(),
        ensures
            final(self).wf(),
            final(self).spec_dimension() == old(self).spec_dimension(),
            flat_data@.len() % old(self).spec_dimension() != 0 ==> r == Err::<(), VectorIndexError>(
                VectorIndexError::DimensionMismatch {
                    expected: old(self).spec_dimension() as usize,
                    got: (flat_data@.len() % old(self).spec_dimension()) as usize,
                },
            ) && *final(self) == *old(self),
            flat_data@.len() % old(self).spec_dimension() == 0 ==> r is Ok && final(self).elements()
                == old(self).elements() + flat_data@ && final(self).spec_len() == old(self).spec_len()
                + flat_data@.len() / old(self).spec_dimension(),
    {
        let len = flat_data.len();
        if len % self.dimension != 0 {
            return Err(
                VectorIndexError::DimensionMismatch {
                    expected: self.dimension,
                    got: len % self.dimension,
                },
            );
        }
        let count = len / self.dimension;
        let ghost old_len = self.data@.len();
        Self::append(&mut self.data, flat_data);
        let _total = self.data.len();
        assert(self.data@.len() == (self.num_vectors + count) * self.dimension) by (nonlinear_arith)
            requires
                self.data@.len() == old_len + len,
                old_len == self.num_vectors * self.dimension,
                len % self.dimension == 0,
                count == len / self.dimension,
                self.dimension > 0,
        ;
        assert(self.num_vectors + count <= self.data@.len()) by (nonlinear_arith)
            requires
                self.data@.len() == (self.num_vectors + count) * self.dimension,
                self.dimension > 0,
        ;
        self.num_vectors = self.num_vectors + count;
        Ok(())
    }

    /// Dimension of the vectors.
    pub fn dimension(&self) -> (d: usize)
        ensures
            d == self.spec_dimension(),
    {
        self.dimension
    }

    /// Number of vectors.
    pub fn len(&self) -> (n: usize)
        ensures
            n == self.spec_len(),
    {
        self.num_vectors
    }

    /// Whether the storage holds no vector.
    pub fn is_empty(&self) -> (b: bool)
        ensures
            b == (self.spec_len() == 0),
    {
        self.num_vectors == 0
    }

    /// After a vector is appended, reading the new last id gives that vector
    /// back and every earlier id still reads as before.
    pub proof fn lemma_push_reads_back(before: Self, after: Self, v: Seq<T>)
        requires
            before.wf(),
            after.wf(),
            after.spec_dimension() == before.spec_dimension(),
            v.len() == before.spec_dimension(),
            after.elements() == before.elements() + v,
            after.spec_len() == before.spec_len() + 1,
        ensures
            after.vector(before.spec_len() as int) == v,
            forall|id: int| 0 <= id < before.spec_len() ==> #[trigger] after.vector(id) == before.vector(id),
    {
        let d = before.spec_dimension();
        let n = before.spec_len();
        assert(before.elements().len() == n * d);
        assert((n + 1) * d == n * d + d) by (nonlinear_arith);
        assert(after.vector(n as int) =~= v);
        assert forall|id: int| 0 <= id < n implies #[trigger] after.vector(id) == before.vector(id) by {
            assert((id + 1) * d <= n * d) by (nonlinear_arith)
                requires
                    id < n,
            ;
            assert(id * d >= 0) by (nonlinear_arith)
                requires
                    id >= 0,
            ;
            assert((id + 1) * d == id * d + d) by (nonlinear_arith);
            assert forall|j: int| 0 <= j < d implies #[trigger] after.elements()[id * d + j]
                == before.elements()[id * d + j] by {
                assert(id * d + j < n * d) by (nonlinear_arith)
                    requires
                        id < n,
                        0 <= j < d,
                ;
            }
            assert(after.vector(id) =~= before.vector(id));
        }
    }

    /// The elements of vector `id`.
    pub fn get(&self, id: u32) -> (v: &[T])
        requires
            self.wf(),
            id < self.spec_len(),
        ensures
            v@ == self.vector(id as int),
    {
        let _total = self.data.len();
        let (start, end) = vector_range(id, self.num_vectors, self.dimension);
        assert((id + 1) * self.dimension == id * self.dimension + self.dimension) by (nonlinear_arith);
        vstd::slice::slice_subrange(self.data.as_slice(), start, end)
    }

    /// All elements, vector after vector.
    pub fn as_raw_slice(&self) -> (s: &[T])
        ensures
            s@ == self.elements(),
    {
        self.data.as_slice()
    }
}

} // verus!
