//! The struct-of-arrays store that keeps every vector with its id, in
//! insertion order, and its binary snapshot format.
//!
//! A snapshot is the length of the metadata as a little-endian `u64`, the
//! metadata (bincode's encoding of `(dimension, ids)`), then every
//! coordinate of every vector as a little-endian `u32` bit pattern.
use vstd::prelude::*;
use crate::codec::{
    lemma_u32s_le_len, lemma_u32s_roundtrip, lemma_u64_le_roundtrip, lemma_u64s_le_len,
    lemma_u64s_roundtrip, push_u32s_le, push_u64_le, read_u32s_le, read_u64_le, u32s_from_le,
    u32s_le, u64_from_le, u64_le, u64s_from_le, u64s_le,
};
use crate::error::ParsecError;
use crate::types::VectorId;

verus! {

/// The error type of bincode's encoding functions.
#[verifier::external_type_specification]
#[verifier::external_body]
pub struct ExBincodeErrorKind(bincode::ErrorKind);

/// bincode's encoding of the pair `(dimension, ids)` with its default
/// options (fixed-width little-endian integers, sequence length as `u64`).
pub open spec fn meta_bytes(dimension: u64, ids: Seq<u64>) -> Seq<u8> {
    u64_le(dimension) + u64_le(ids.len() as u64) + u64s_le(ids)
}

/// The number of ids that the metadata `m` announces.
pub open spec fn meta_count(m: Seq<u8>) -> u64 {
    u64_from_le(m.subrange(8, 16))
}

/// bincode can decode `m` as a pair `(usize, Vec<u64>)`: it holds the two
/// length fields and all the ids they announce, and both numbers fit in a
/// `usize`. Bytes after the ids are ignored.
pub open spec fn meta_decodes(m: Seq<u8>) -> bool {
    &&& m.len() >= 16
    &&& u64_from_le(m.take(8)) <= usize::MAX
    &&& meta_count(m) <= usize::MAX
    &&& 16 + 8 * meta_count(m) <= m.len()
}

/// The ids that the metadata `m` holds.
pub open spec fn meta_ids(m: Seq<u8>) -> Seq<u64> {
    u64s_from_le(m.subrange(16, 16 + 8 * meta_count(m)))
}

/// Calls `bincode::serialize(&(dimension, ids))`. With bincode's default
/// function options (fixed-width little-endian integers, no size limit)
/// the pair is written as the `u64` dimension, the `u64` number of ids,
/// then each id; writing into a `Vec<u8>` cannot fail, so the call returns
/// `Ok` with exactly those bytes.
#[verifier::external_body]
fn bincode_serialize_meta(dimension: usize, ids: &Vec<u64>) -> (r: Result<
    Vec<u8>,
    Box<bincode::ErrorKind>,
>)
    ensures
        match r {
            Ok(bytes) => bytes@ == meta_bytes(dimension as u64, ids@),
            Err(_) => false,
        },
{
    bincode::serialize(&(dimension, ids))
}

/// Calls `bincode::deserialize::<(usize, Vec<u64>)>(bytes)`. With bincode's
/// default function options it reads the `u64` dimension, the `u64` number
/// of ids and that many `u64` ids, little-endian, and allows trailing
/// bytes; it fails when the bytes run out or a number does not fit in a
/// `usize`.
#[verifier::external_body]
fn bincode_deserialize_meta(bytes: &[u8]) -> (r: Result<(usize, Vec<u64>), Box<bincode::ErrorKind>>)
    ensures
        match r {
            Ok((dimension, ids)) => {
                &&& meta_decodes(bytes@)
                &&& dimension == u64_from_le(bytes@.take(8))
                &&& ids@ == meta_ids(bytes@)
            },
            Err(_) => !meta_decodes(bytes@),
        },
{
    bincode::deserialize::<(usize, Vec<u64>)>(bytes)
}

/// The mathematical content of a `SoABuffer`: its dimension, and the ids
/// and vectors in insertion order.
pub struct BufferView {
    pub dimension: nat,
    pub ids: Seq<u64>,
    pub vectors: Seq<Seq<u32>>,
}

impl BufferView {
    /// One id per vector, and every vector has `dimension` coordinates.
    pub open spec fn wf(self) -> bool {
        &&& self.ids.len() == self.vectors.len()
        &&& forall|i: int| 0 <= i < self.vectors.len() ==> #[trigger] self.vectors[i].len() == self.dimension
    }

    pub open spec fn len(self) -> nat {
        self.ids.len()
    }
}

/// The bytes of the coordinates of `vs`, vector after vector.
pub open spec fn vectors_bytes(vs: Seq<Seq<u32>>) -> Seq<u8>
    decreases vs.len(),
{
    if vs.len() == 0 {
        Seq::empty()
    } else {
        u32s_le(vs[0]) + vectors_bytes(vs.drop_first())
    }
}

/// `n` vectors of `dimension` coordinates read from the front of `b`.
pub open spec fn split_vectors(b: Seq<u8>, dimension: nat, n: nat) -> Seq<Seq<u32>>
    decreases n,
{
    if n == 0 {
        Seq::empty()
    } else {
        seq![u32s_from_le(b.take(4 * dimension as int))] + split_vectors(
            b.skip(4 * dimension as int),
            dimension,
            (n - 1) as nat,
        )
    }
}

/// The snapshot bytes of a buffer whose content is `v`.
pub open spec fn snapshot_bytes(v: BufferView) -> Seq<u8> {
    let meta = meta_bytes(v.dimension as u64, v.ids);
    u64_le(meta.len() as u64) + meta + vectors_bytes(v.vectors)
}

/// Why snapshot bytes could not be read back into a buffer.
#[derive(Debug, PartialEq, Eq, Structural, Clone, Copy)]
pub enum SnapshotError {
    /// The bytes end before the snapshot does.
    UnexpectedEof,
    /// The metadata is not bincode's encoding of `(dimension, ids)`.
    CorruptMetadata,
}

/// What reading a buffer snapshot from the front of `b` gives: the buffer's
/// content and the number of bytes it took.
pub open spec fn parse_snapshot(b: Seq<u8>) -> Result<(BufferView, nat), SnapshotError> {
    if b.len() < 8 {
        Err(SnapshotError::UnexpectedEof)
    } else {
        let ml = u64_from_le(b.take(8));
        if b.len() - 8 < ml {
            Err(SnapshotError::UnexpectedEof)
        } else {
            let m = b.subrange(8, 8 + ml);
            if !meta_decodes(m) {
                Err(SnapshotError::CorruptMetadata)
            } else {
                let d = u64_from_le(m.take(8)) as nat;
                let ids = meta_ids(m);
                let start = 8 + ml;
                let need = 4 * d * ids.len();
                if b.len() - start < need {
                    Err(SnapshotError::UnexpectedEof)
                } else {
                    Ok(
                        (
                            BufferView {
                                dimension: d,
                                ids,
                                vectors: split_vectors(b.skip(start), d, ids.len()),
                            },
                            (start + need) as nat,
                        ),
                    )
                }
            }
        }
    }
}

/// A store of vectors of one dimension, each with its id, in insertion
/// order. Coordinates are held as `f32` bit patterns.
#[derive(Debug)]
pub struct SoABuffer {
    dimension: usize,
    ids: Vec<VectorId>,
    vectors: Vec<Vec<u32>>,
}

impl View for SoABuffer {
    type V = BufferView;

    closed spec fn view(&self) -> BufferView {
        BufferView {
            dimension: self.dimension as nat,
            ids: self.ids@,
            vectors: self.vectors@.map_values(|v: Vec<u32>| v@),
        }
    }
}

impl SoABuffer {
    /// Every stored vector has the buffer's dimension, and each has an id.
    pub open spec fn wf(&self) -> bool {
        self@.wf()
    }

    /// The number of stored vectors fits in a `usize`.
    pub proof fn lemma_len_bounded(&self)
        ensures
            self@.len() <= usize::MAX,
            self@.vectors.len() <= usize::MAX,
    {
        assert(self.ids@.len() == self.ids.len());
        assert(self.vectors@.len() == self.vectors.len());
    }

    proof fn lemma_view(&self)
        ensures
            self@.dimension == self.dimension,
            self@.ids == self.ids@,
            self@.vectors.len() == self.vectors@.len(),
            forall|i: int| 0 <= i < self.vectors@.len() ==> #[trigger] self@.vectors[i] == self.vectors@[i]@,
    {
    }

    /// An empty buffer for vectors of `dimension` coordinates, with room
    /// for `capacity` of them.
    pub fn new(dimension: usize, capacity: usize) -> (b: Self)
        ensures
            b.wf(),
            b@ == (BufferView { dimension: dimension as nat, ids: Seq::empty(), vectors: Seq::empty() }),
    {
        let b = SoABuffer {
            dimension,
            ids: Vec::with_capacity(capacity),
            vectors: Vec::with_capacity(capacity),
        };
        assert(b@.vectors =~= Seq::<Seq<u32>>::empty());
        b
    }

    /// Appends `vector` under `id`; a vector of another dimension is
    /// refused and leaves the buffer unchanged.
    pub fn insert(&mut self, id: VectorId, vector: &[u32]) -> (r: Result<(), ParsecError>)
        requires
            old(self).wf(),
        ensures
            final(self).wf(),
            vector@.len() != old(self)@.dimension ==> {
                &&& r == Err::<(), ParsecError>(
                    ParsecError::DimensionMismatch {
                        expected: old(self)@.dimension as usize,
                        found: vector@.len() as usize,
                    },
                )
                &&& final(self)@ == old(self)@
            },
            vector@.len() == old(self)@.dimension ==> {
                &&& r is Ok
                &&& final(self)@ == old(self)@.inserted(id, vector@)
            },
    {
        if vector.len() != self.dimension {
            return Err(ParsecError::DimensionMismatch { expected: self.dimension, found: vector.len() });
        }
        self.ids.push(id);
        let v = vstd::slice::slice_to_vec(vector);
        self.vectors.push(v);
        assert(self@.vectors =~= old(self)@.vectors.push(vector@));
        Ok(())
    }

    /// The vector stored at position `index`, if there is one.
    pub fn get_vector(&self, index: usize) -> (r: Option<&[u32]>)
        requires
            self.wf(),
        ensures
            index < self@.len() ==> (r matches Some(v) && v@ == self@.vectors[index as int]),
            index >= self@.len() ==> r is None,
    {
        if index >= self.ids.len() {
            return None;
        }
        Some(self.vectors[index].as_slice())
    }

    /// The number of stored vectors.
    pub fn len(&self) -> (n: usize)
        requires
            self.wf(),
        ensures
            n == self@.len(),
    {
        self.ids.len()
    }

    /// Whether no vector is stored.
    pub fn is_empty(&self) -> (b: bool)
        requires
            self.wf(),
        ensures
            b == (self@.len() == 0),
    {
        self.ids.len() == 0
    }

    /// The number of coordinates of every vector.
    pub fn dimension(&self) -> (d: usize)
        ensures
            d == self@.dimension,
    {
        self.dimension
    }

    /// The id of the vector at position `index`, if there is one.
    pub fn get_id(&self, index: usize) -> (r: Option<VectorId>)
        ensures
            index < self@.ids.len() ==> r == Some(self@.ids[index as int]),
            index >= self@.ids.len() ==> r is None,
    {
        if index < self.ids.len() {
            Some(self.ids[index])
        } else {
            None
        }
    }

    /// The snapshot bytes of the buffer.
    pub fn encode(&self) -> (bytes: Vec<u8>)
        requires
            self.wf(),
        ensures
            bytes@ == snapshot_bytes(self@),
    {
        let meta = match bincode_serialize_meta(self.dimension, &self.ids) {
            Ok(m) => m,
            Err(_) => {
                proof {
                    assert(false);
                }
                Vec::new()
            },
        };
        let mut bytes: Vec<u8> = Vec::new();
        push_u64_le(&mut bytes, meta.len() as u64);
        let mut i: usize = 0;
        while i < meta.len()
            invariant
                0 <= i <= meta@.len(),
                bytes@ == u64_le(meta@.len() as u64) + meta@.take(i as int),
            decreases meta@.len() - i,
        {
            bytes.push(meta[i]);
            assert(meta@.take(i + 1) =~= meta@.take(i as int).push(meta@[i as int]));
            i = i + 1;
        }
        assert(meta@.take(i as int) =~= meta@);
        let ghost prefix = bytes@;
        let mut j: usize = 0;
        while j < self.vectors.len()
            invariant
                0 <= j <= self.vectors@.len(),
                self.wf(),
                bytes@ == prefix + vectors_bytes(self@.vectors.take(j as int)),
            decreases self.vectors@.len() - j,
        {
            proof {
                self.lemma_view();
                lemma_vectors_bytes_push(self@.vectors.take(j as int), self@.vectors[j as int]);
                assert(self@.vectors.take(j + 1) =~= self@.vectors.take(j as int).push(
                    self@.vectors[j as int],
                ));
            }
            push_u32s_le(&mut bytes, self.vectors[j].as_slice());
            j = j + 1;
        }
        proof {
            self.lemma_view();
            assert(self@.vectors.take(j as int) =~= self@.vectors);
        }
        bytes
    }

    /// Reads a buffer snapshot from the front of `bytes`, giving the buffer
    /// and the number of bytes it took.
    pub fn decode(bytes: &[u8]) -> (r: Result<(SoABuffer, usize), SnapshotError>)
        ensures
            match r {
                Ok((b, used)) => b.wf() && parse_snapshot(bytes@) == Ok::<(BufferView, nat), SnapshotError>(
                    (b@, used as nat),
                ),
                Err(e) => parse_snapshot(bytes@) == Err::<(BufferView, nat), SnapshotError>(e),
            },
    {
        let len = bytes.len();
        if len < 8 {
            return Err(SnapshotError::UnexpectedEof);
        }
        let ml64 = read_u64_le(bytes, 0);
        assert(bytes@.subrange(0, 8) =~= bytes@.take(8));
        if ((len - 8) as u64) < ml64 {
            return Err(SnapshotError::UnexpectedEof);
        }
        let ml = ml64 as usize;
        let meta = vstd::slice::slice_subrange(bytes, 8, 8 + ml);
        let (dimension, ids) = match bincode_deserialize_meta(meta) {
            Ok(pair) => pair,
            Err(_) => {
                return Err(SnapshotError::CorruptMetadata);
            },
        };
        assert(meta@ =~= bytes@.subrange(8, 8 + ml));
        let start = 8 + ml;
        let n = ids.len();
        let ghost d = dimension as nat;
        let vbs = match dimension.checked_mul(4) {
            Some(x) => x,
            None => {
                proof {
                    if n == 0 {
                        assert(4 * d * n == 0) by (nonlinear_arith)
                            requires n == 0;
                        assert(split_vectors(bytes@.skip(start as int), d, 0) =~= Seq::<Seq<u32>>::empty());
                    } else {
                        assert(4 * d * n >= 4 * d) by (nonlinear_arith)
                            requires n >= 1, d >= 0;
                    }
                }
                return Self::decode_oversized(bytes, dimension, ids, start);
            },
        };
        let need = match vbs.checked_mul(n) {
            Some(x) => x,
            None => {
                proof {
                    assert(4 * d * n == (4 * d) * n) by (nonlinear_arith);
                }
                return Err(SnapshotError::UnexpectedEof);
            },
        };
        assert(need == 4 * d * n) by (nonlinear_arith)
            requires need == vbs * n, vbs == d * 4;
        if len - start < need {
            return Err(SnapshotError::UnexpectedEof);
        }
        let ghost seg = bytes@.skip(start as int);
        let mut vectors: Vec<Vec<u32>> = Vec::with_capacity(n);
        let mut pos = start;
        let mut i: usize = 0;
        let mut left = need;
        while i < n
            invariant
                len == bytes@.len(),
                0 <= i <= n,
                n == ids@.len(),
                vbs == 4 * dimension,
                d == dimension,
                left == vbs * (n - i),
                pos + left == start + need,
                start + need <= len,
                start <= pos,
                seg == bytes@.skip(start as int),
                vectors@.len() == i,
                forall|t: int| 0 <= t < i ==> #[trigger] vectors@[t]@.len() == dimension,
                split_vectors(seg, d, n as nat) == vectors@.map_values(|v: Vec<u32>| v@) + split_vectors(
                    bytes@.skip(pos as int),
                    d,
                    (n - i) as nat,
                ),
            decreases n - i,
        {
            assert(vbs * (n - i) == vbs + vbs * (n - i - 1)) by (nonlinear_arith)
                requires i < n;
            assert(vbs * (n - i - 1) >= 0) by (nonlinear_arith)
                requires i < n, vbs >= 0;
            let v = read_u32s_le(bytes, pos, dimension);
            let ghost old_vectors = vectors@;
            let ghost rest = bytes@.skip(pos as int);
            vectors.push(v);
            proof {
                assert(left >= vbs);
                assert(pos + vbs <= len);
                assert(4 * d == vbs);
                assert(rest.take(4 * d as int) =~= bytes@.subrange(pos as int, pos + 4 * dimension));
                assert(rest.skip(4 * d as int) =~= bytes@.skip(pos + vbs));
                assert(split_vectors(rest, d, (n - i) as nat) == seq![v@] + split_vectors(
                    rest.skip(4 * d as int),
                    d,
                    (n - i - 1) as nat,
                ));
                assert(vectors@.map_values(|w: Vec<u32>| w@) =~= old_vectors.map_values(
                    |w: Vec<u32>| w@,
                ).push(v@));
                assert(old_vectors.map_values(|w: Vec<u32>| w@) + (seq![v@] + split_vectors(
                    rest.skip(4 * d as int),
                    d,
                    (n - i - 1) as nat,
                )) =~= vectors@.map_values(|w: Vec<u32>| w@) + split_vectors(
                    bytes@.skip(pos + vbs),
                    d,
                    (n - i - 1) as nat,
                ));
            }
            pos = pos + vbs;
            left = left - vbs;
            i = i + 1;
        }
        let b = SoABuffer { dimension, ids, vectors };
        proof {
            assert(split_vectors(bytes@.skip(pos as int), d, 0) =~= Seq::<Seq<u32>>::empty());
            assert(b@.vectors =~= split_vectors(seg, d, n as nat));
            assert(meta@ =~= bytes@.subrange(8, 8 + ml));
        }
        Ok((b, start + need))
    }

    /// The case of a dimension whose byte size does not fit in a `usize`:
    /// only a snapshot without vectors can be read then.
    fn decode_oversized(bytes: &[u8], dimension: usize, ids: Vec<u64>, start: usize) -> (r: Result<
        (SoABuffer, usize),
        SnapshotError,
    >)
        requires
            dimension > usize::MAX / 4,
            start <= bytes@.len(),
        ensures
            ids@.len() == 0 ==> (r matches Ok((b, used)) && b.wf() && b@ == (BufferView {
                dimension: dimension as nat,
                ids: ids@,
                vectors: Seq::empty(),
            }) && used == start),
            ids@.len() > 0 ==> r == Err::<(SoABuffer, usize), SnapshotError>(
                SnapshotError::UnexpectedEof,
            ),
    {
        if ids.len() == 0 {
            let b = SoABuffer { dimension, ids, vectors: Vec::new() };
            assert(b@.vectors =~= Seq::<Seq<u32>>::empty());
            Ok((b, start))
        } else {
            Err(SnapshotError::UnexpectedEof)
        }
    }
}

/// Appending a vector appends its bytes.
pub proof fn lemma_vectors_bytes_push(vs: Seq<Seq<u32>>, v: Seq<u32>)
    ensures
        vectors_bytes(vs.push(v)) == vectors_bytes(vs) + u32s_le(v),
    decreases vs.len(),
{
    let w = vs.push(v);
    if vs.len() == 0 {
        assert(w.drop_first() =~= Seq::<Seq<u32>>::empty());
        assert(w[0] == v);
        assert(vectors_bytes(w.drop_first()) == Seq::<u8>::empty());
        assert(vectors_bytes(w) == u32s_le(v) + Seq::<u8>::empty());
        assert(vectors_bytes(vs) == Seq::<u8>::empty());
        assert(vectors_bytes(w) =~= vectors_bytes(vs) + u32s_le(v));
    } else {
        lemma_vectors_bytes_push(vs.drop_first(), v);
        assert(w.drop_first() =~= vs.drop_first().push(v));
        assert(w[0] == vs[0]);
        assert(vectors_bytes(w) == u32s_le(vs[0]) + vectors_bytes(vs.drop_first().push(v)));
        assert(vectors_bytes(w) =~= vectors_bytes(vs) + u32s_le(v));
    }
}

/// Every vector of `vs` has `dimension` coordinates.
pub open spec fn all_of_dimension(vs: Seq<Seq<u32>>, dimension: nat) -> bool {
    forall|i: int| 0 <= i < vs.len() ==> #[trigger] vs[i].len() == dimension
}

pub proof fn lemma_vectors_bytes_len(vs: Seq<Seq<u32>>, dimension: nat)
    requires
        all_of_dimension(vs, dimension),
    ensures
        vectors_bytes(vs).len() == 4 * dimension * vs.len(),
    decreases vs.len(),
{
    if vs.len() > 0 {
        assert(all_of_dimension(vs.drop_first(), dimension)) by {
            assert forall|i: int| 0 <= i < vs.drop_first().len() implies #[trigger] vs.drop_first()[i].len()
                == dimension by {
                assert(vs.drop_first()[i] == vs[i + 1]);
            }
        }
        lemma_vectors_bytes_len(vs.drop_first(), dimension);
        lemma_u32s_le_len(vs[0]);
        let n = vs.len();
        assert(4 * dimension + 4 * dimension * (n - 1) == 4 * dimension * n) by (nonlinear_arith);
    } else {
        assert(4 * dimension * vs.len() == 0) by (nonlinear_arith)
            requires vs.len() == 0;
    }
}

pub proof fn lemma_split_vectors_roundtrip(vs: Seq<Seq<u32>>, dimension: nat, tail: Seq<u8>)
    requires
        all_of_dimension(vs, dimension),
    ensures
        split_vectors(vectors_bytes(vs) + tail, dimension, vs.len()) == vs,
    decreases vs.len(),
{
    if vs.len() == 0 {
        assert(split_vectors(vectors_bytes(vs) + tail, dimension, 0) =~= vs);
    } else {
        let rest = vs.drop_first();
        assert(all_of_dimension(rest, dimension)) by {
            assert forall|i: int| 0 <= i < rest.len() implies #[trigger] rest[i].len() == dimension by {
                assert(rest[i] == vs[i + 1]);
            }
        }
        lemma_split_vectors_roundtrip(rest, dimension, tail);
        lemma_u32s_le_len(vs[0]);
        lemma_u32s_roundtrip(vs[0]);
        let b = vectors_bytes(vs) + tail;
        let k = 4 * dimension as int;
        assert(vs[0].len() == dimension);
        assert(b.take(k) =~= u32s_le(vs[0]));
        assert(b.skip(k) =~= vectors_bytes(rest) + tail);
        assert(seq![vs[0]] + rest =~= vs);
    }
}

/// Reading back the snapshot bytes of a buffer gives the same buffer, and
/// takes exactly those bytes, whatever follows them.
pub proof fn lemma_snapshot_roundtrip(v: BufferView, tail: Seq<u8>)
    requires
        v.wf(),
        v.dimension <= usize::MAX,
        v.ids.len() <= usize::MAX,
        16 + 8 * v.ids.len() <= u64::MAX,
    ensures
        parse_snapshot(snapshot_bytes(v) + tail) == Ok::<(BufferView, nat), SnapshotError>(
            (v, snapshot_bytes(v).len()),
        ),
{
    let meta = meta_bytes(v.dimension as u64, v.ids);
    let n = v.ids.len();
    let d = v.dimension;
    lemma_u64s_le_len(v.ids);
    assert(meta.len() == 16 + 8 * n);
    let ml = meta.len() as u64;
    lemma_u64_le_roundtrip(ml);
    lemma_u64_le_roundtrip(v.dimension as u64);
    lemma_u64_le_roundtrip(n as u64);
    lemma_u64s_roundtrip(v.ids);
    assert(all_of_dimension(v.vectors, d));
    lemma_vectors_bytes_len(v.vectors, d);
    lemma_split_vectors_roundtrip(v.vectors, d, tail);
    let vb = vectors_bytes(v.vectors);
    let b = snapshot_bytes(v) + tail;
    assert(b =~= u64_le(ml) + meta + (vb + tail));
    assert(b.take(8) =~= u64_le(ml));
    let m = b.subrange(8, 8 + ml);
    assert(m =~= meta);
    assert(m.take(8) =~= u64_le(v.dimension as u64));
    assert(m.subrange(8, 16) =~= u64_le(n as u64));
    assert(meta_count(m) == n);
    assert(m.subrange(16, 16 + 8 * meta_count(m)) =~= u64s_le(v.ids));
    assert(meta_ids(m) == v.ids);
    assert(b.skip(8 + ml) =~= vb + tail);
    let bv = BufferView { dimension: d, ids: v.ids, vectors: v.vectors };
    assert(bv == v);
    assert(snapshot_bytes(v).len() == 8 + ml + 4 * d * n);
}

impl BufferView {
    /// The content after appending `vector` under `id`.
    pub open spec fn inserted(self, id: u64, vector: Seq<u32>) -> BufferView {
        BufferView { dimension: self.dimension, ids: self.ids.push(id), vectors: self.vectors.push(vector) }
    }
}

/// Reading position `len` after an insert gives back the inserted vector
/// and id, every earlier position is unchanged, and the content stays well
/// formed.
pub proof fn lemma_insert_then_get(v: BufferView, id: u64, vector: Seq<u32>)
    requires
        v.wf(),
        vector.len() == v.dimension,
    ensures
        v.inserted(id, vector).wf(),
        v.inserted(id, vector).len() == v.len() + 1,
        v.inserted(id, vector).vectors[v.len() as int] == vector,
        v.inserted(id, vector).ids[v.len() as int] == id,
        forall|i: int| 0 <= i < v.len() ==> #[trigger] v.inserted(id, vector).vectors[i] == v.vectors[i]
            && v.inserted(id, vector).ids[i] == v.ids[i],
{
    let w = v.inserted(id, vector);
    assert forall|i: int| 0 <= i < w.vectors.len() implies #[trigger] w.vectors[i].len() == w.dimension by {
        if i < v.vectors.len() {
            assert(w.vectors[i] == v.vectors[i]);
        }
    }
}

} // verus!
