//! The write-ahead log format: every mutation is appended to the log as a
//! record before it reaches memory, and the log is replayed on boot.
//!
//! A record is the magic byte `0xAB`, a type byte (`0x01` insert,
//! `0x02` delete), the vector id as a little-endian `u64`, and for an
//! insert the coordinates as little-endian `u32` bit patterns.
use vstd::prelude::*;
use crate::codec::{
    lemma_u32s_le_len, lemma_u32s_roundtrip, lemma_u64_le_roundtrip, push_u32s_le, push_u64_le,
    read_u32s_le, read_u64_le, u32s_from_le, u32s_le, u64_from_le, u64_le,
};
use crate::types::VectorId;

verus! {

pub const MAGIC_NUMBER: u8 = 0xAB;
pub const TYPE_INSERT: u8 = 0x01;
pub const TYPE_DELETE: u8 = 0x02;

/// A recovered operation, as replayed from the log on boot.
#[derive(Debug)]
pub enum WalEntry {
    Insert { id: VectorId, vector: Vec<u32> },
    Delete { id: VectorId },
}

/// The mathematical content of a `WalEntry`.
pub enum WalRecord {
    Insert { id: u64, vector: Seq<u32> },
    Delete { id: u64 },
}

impl View for WalEntry {
    type V = WalRecord;

    open spec fn view(&self) -> WalRecord {
        match self {
            WalEntry::Insert { id, vector } => WalRecord::Insert { id: *id, vector: vector@ },
            WalEntry::Delete { id } => WalRecord::Delete { id: *id },
        }
    }
}

/// Why a log could not be replayed.
#[derive(Debug, PartialEq, Eq, Structural, Clone, Copy)]
pub enum WalError {
    /// The log ends inside a record, after its two header bytes.
    UnexpectedEof,
    /// A record does not start with the magic byte.
    MissingMagicNumber,
    /// A record's type byte is neither insert nor delete.
    UnknownEntryType,
}

/// The bytes that one record occupies in the log.
pub open spec fn record_bytes(r: WalRecord) -> Seq<u8> {
    match r {
        WalRecord::Insert { id, vector } =>
            seq![MAGIC_NUMBER, TYPE_INSERT] + u64_le(id) + u32s_le(vector),
        WalRecord::Delete { id } => seq![MAGIC_NUMBER, TYPE_DELETE] + u64_le(id),
    }
}

/// The bytes of a log that holds the records `rs`, in order.
pub open spec fn log_bytes(rs: Seq<WalRecord>) -> Seq<u8>
    decreases rs.len(),
{
    if rs.len() == 0 {
        Seq::empty()
    } else {
        record_bytes(rs[0]) + log_bytes(rs.drop_first())
    }
}

/// Every insert record of `rs` holds `dimension` coordinates.
pub open spec fn records_fit(rs: Seq<WalRecord>, dimension: nat) -> bool {
    forall|i: int| 0 <= i < rs.len() ==> match #[trigger] rs[i] {
        WalRecord::Insert { vector, .. } => vector.len() == dimension,
        WalRecord::Delete { .. } => true,
    }
}

pub open spec fn prepend_record(r: WalRecord, rest: Result<Seq<WalRecord>, WalError>) -> Result<
    Seq<WalRecord>,
    WalError,
> {
    match rest {
        Ok(rs) => Ok(seq![r] + rs),
        Err(e) => Err(e),
    }
}

/// What replaying the log `b` gives, for vectors of `dimension`
/// coordinates. A log that ends cleanly, or with fewer than two bytes of
/// a further record, replays to the records before; any other damage is
/// an error.
pub open spec fn replay(b: Seq<u8>, dimension: nat) -> Result<Seq<WalRecord>, WalError>
    decreases b.len(),
{
    if b.len() < 2 {
        Ok(Seq::empty())
    } else if b[0] != MAGIC_NUMBER {
        Err(WalError::MissingMagicNumber)
    } else if b.len() < 10 {
        Err(WalError::UnexpectedEof)
    } else {
        let id = u64_from_le(b.subrange(2, 10));
        if b[1] == TYPE_INSERT {
            if b.len() < 10 + 4 * dimension {
                Err(WalError::UnexpectedEof)
            } else {
                prepend_record(
                    WalRecord::Insert {
                        id,
                        vector: u32s_from_le(b.subrange(10, 10 + 4 * dimension as int)),
                    },
                    replay(b.skip(10 + 4 * dimension as int), dimension),
                )
            }
        } else if b[1] == TYPE_DELETE {
            prepend_record(WalRecord::Delete { id }, replay(b.skip(10), dimension))
        } else {
            Err(WalError::UnknownEntryType)
        }
    }
}

/// The log record of inserting `vector` under `id`.
pub fn insert_record(id: VectorId, vector: &[u32]) -> (bytes: Vec<u8>)
    ensures
        bytes@ == record_bytes(WalRecord::Insert { id, vector: vector@ }),
{
    let mut bytes: Vec<u8> = Vec::new();
    bytes.push(MAGIC_NUMBER);
    bytes.push(TYPE_INSERT);
    push_u64_le(&mut bytes, id);
    push_u32s_le(&mut bytes, vector);
    assert(bytes@ =~= seq![MAGIC_NUMBER, TYPE_INSERT] + u64_le(id) + u32s_le(vector@));
    bytes
}

/// The log record of deleting `id`.
pub fn delete_record(id: VectorId) -> (bytes: Vec<u8>)
    ensures
        bytes@ == record_bytes(WalRecord::Delete { id }),
{
    let mut bytes: Vec<u8> = Vec::new();
    bytes.push(MAGIC_NUMBER);
    bytes.push(TYPE_DELETE);
    push_u64_le(&mut bytes, id);
    assert(bytes@ =~= seq![MAGIC_NUMBER, TYPE_DELETE] + u64_le(id));
    bytes
}

pub open spec fn entries_view(es: Seq<WalEntry>) -> Seq<WalRecord> {
    es.map_values(|e: WalEntry| e@)
}

/// Replays the log `bytes`, whose insert records hold `dimension`
/// coordinates each, into the timeline of operations it records.
pub fn recover(bytes: &[u8], dimension: usize) -> (result: Result<Vec<WalEntry>, WalError>)
    requires
        dimension <= usize::MAX / 4,
    ensures
        match result {
            Ok(es) => replay(bytes@, dimension as nat) == Ok::<Seq<WalRecord>, WalError>(
                entries_view(es@),
            ),
            Err(e) => replay(bytes@, dimension as nat) == Err::<Seq<WalRecord>, WalError>(e),
        },
{
    let vector_byte_size = dimension * 4;
    let len = bytes.len();
    let mut entries: Vec<WalEntry> = Vec::new();
    let mut pos: usize = 0;
    proof {
        assert(bytes@.skip(0) =~= bytes@);
        match replay(bytes@, dimension as nat) {
            Ok(rest) => {
                assert(entries_view(entries@) + rest =~= rest);
            },
            Err(_) => {},
        }
    }
    while pos < len
        invariant
            len == bytes@.len(),
            pos <= len,
            vector_byte_size == 4 * dimension,
            dimension <= usize::MAX / 4,
            replay(bytes@, dimension as nat) == match replay(bytes@.skip(pos as int), dimension as nat) {
                Ok(rest) => Ok(entries_view(entries@) + rest),
                Err(e) => Err(e),
            },
        ensures
            len - pos < 2,
            replay(bytes@, dimension as nat) == match replay(bytes@.skip(pos as int), dimension as nat) {
                Ok(rest) => Ok(entries_view(entries@) + rest),
                Err(e) => Err(e),
            },
        decreases len - pos,
    {
        let ghost b = bytes@.skip(pos as int);
        let remaining = len - pos;
        if remaining < 2 {
            break;
        }
        if bytes[pos] != MAGIC_NUMBER {
            return Err(WalError::MissingMagicNumber);
        }
        if remaining < 10 {
            return Err(WalError::UnexpectedEof);
        }
        let id = read_u64_le(bytes, pos + 2);
        assert(b.subrange(2, 10) =~= bytes@.subrange(pos + 2, pos + 10));
        let kind = bytes[pos + 1];
        if kind == TYPE_INSERT {
            if remaining - 10 < vector_byte_size {
                return Err(WalError::UnexpectedEof);
            }
            let vector = read_u32s_le(bytes, pos + 10, dimension);
            assert(b.subrange(10, 10 + 4 * dimension) =~= bytes@.subrange(
                pos + 10,
                pos + 10 + 4 * dimension,
            ));
            let ghost old_entries = entries@;
            entries.push(WalEntry::Insert { id, vector });
            proof {
                assert(b.skip(10 + 4 * dimension) =~= bytes@.skip(pos + 10 + 4 * dimension));
                assert(entries_view(entries@) =~= entries_view(old_entries) + seq![
                    WalRecord::Insert { id, vector: vector@ },
                ]);
                match replay(b.skip(10 + 4 * dimension), dimension as nat) {
                    Ok(rest) => {
                        assert(entries_view(old_entries) + (seq![
                            WalRecord::Insert { id, vector: vector@ },
                        ] + rest) =~= entries_view(entries@) + rest);
                    },
                    Err(_) => {},
                }
            }
            pos = pos + 10 + vector_byte_size;
        } else if kind == TYPE_DELETE {
            let ghost old_entries = entries@;
            entries.push(WalEntry::Delete { id });
            proof {
                assert(b.skip(10) =~= bytes@.skip(pos + 10));
                assert(entries_view(entries@) =~= entries_view(old_entries) + seq![
                    WalRecord::Delete { id },
                ]);
                match replay(b.skip(10), dimension as nat) {
                    Ok(rest) => {
                        assert(entries_view(old_entries) + (seq![WalRecord::Delete { id }] + rest)
                            =~= entries_view(entries@) + rest);
                    },
                    Err(_) => {},
                }
            }
            pos = pos + 10;
        } else {
            return Err(WalError::UnknownEntryType);
        }
    }
    proof {
        let b = bytes@.skip(pos as int);
        assert(b.len() < 2);
        assert(entries_view(entries@) + Seq::<WalRecord>::empty() =~= entries_view(entries@));
    }
    Ok(entries)
}

/// Replaying a log gives back exactly the records that were appended to
/// it, in the order they were appended, when every insert record holds
/// the log's dimension of coordinates.
pub proof fn lemma_replay_log_bytes(rs: Seq<WalRecord>, dimension: nat)
    requires
        records_fit(rs, dimension),
    ensures
        replay(log_bytes(rs), dimension) == Ok::<Seq<WalRecord>, WalError>(rs),
    decreases rs.len(),
{
    if rs.len() == 0 {
        assert(log_bytes(rs).len() == 0);
        assert(rs =~= Seq::<WalRecord>::empty());
    } else {
        let r = rs[0];
        let rest = rs.drop_first();
        assert(records_fit(rest, dimension)) by {
            assert forall|i: int| 0 <= i < rest.len() implies match #[trigger] rest[i] {
                WalRecord::Insert { vector, .. } => vector.len() == dimension,
                WalRecord::Delete { .. } => true,
            } by {
                assert(rest[i] == rs[i + 1]);
            }
        }
        lemma_replay_log_bytes(rest, dimension);
        let b = log_bytes(rs);
        let tail = log_bytes(rest);
        assert(b == record_bytes(r) + tail);
        match r {
            WalRecord::Insert { id, vector } => {
                assert(vector.len() == dimension) by {
                    assert(rs[0] == r);
                }
                lemma_u64_le_roundtrip(id);
                lemma_u32s_le_len(vector);
                lemma_u32s_roundtrip(vector);
                let n: int = 10 + 4 * dimension as int;
                assert(b.subrange(2, 10) =~= u64_le(id));
                assert(b.subrange(10, n) =~= u32s_le(vector));
                assert(b.skip(n) =~= tail);
                assert(b[0] == MAGIC_NUMBER);
                assert(b[1] == TYPE_INSERT);
                assert(seq![r] + rest =~= rs);
            },
            WalRecord::Delete { id } => {
                lemma_u64_le_roundtrip(id);
                assert(b.subrange(2, 10) =~= u64_le(id));
                assert(b.skip(10) =~= tail);
                assert(b[0] == MAGIC_NUMBER);
                assert(b[1] == TYPE_DELETE);
                assert(seq![r] + rest =~= rs);
            },
        }
    }
}

} // verus!
