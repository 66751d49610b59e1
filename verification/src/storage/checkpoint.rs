//! Crash-safe checkpoint metadata of the persistent current store: the WAL
//! and commit frontier already materialized there.
use vstd::prelude::*;
use crate::ids::{CommitTs, Lsn};
use crate::le::{get64, le64, lemma_le_roundtrip};
use crate::metafile::{open_envelope, read_envelope, seal_envelope, write_envelope, Envelope, lemma_envelope_roundtrip};
use crate::serial::{bincode_decode_u64, bincode_encode_u64};
use crate::storage::error::StorageError;

verus! {

/// Declares `std::path::PathBuf` so that stores can remember their file.
#[verifier::external_type_specification]
#[verifier::external_body]
pub struct ExPathBuf(std::path::PathBuf);

/// "ADBCK101".
pub open spec fn checkpoint_magic() -> Seq<u8> {
    seq![65u8, 68u8, 66u8, 67u8, 75u8, 49u8, 48u8, 49u8]
}

fn checkpoint_magic_bytes() -> (r: Vec<u8>)
    ensures
        r@ == checkpoint_magic(),
{
    let r = vec![65u8, 68u8, 66u8, 67u8, 75u8, 49u8, 48u8, 49u8];
    proof {
        assert(r@ =~= checkpoint_magic());
    }
    r
}

/// Records the WAL/commit frontier already materialized in the persistent
/// current store.
#[derive(Debug, Clone, Copy, Default, PartialEq, Eq, Structural)]
pub struct Checkpoint {
    /// Commit-record LSN through which current state is durable.
    pub last_applied_commit_lsn: u64,
    /// Highest commit timestamp represented by the checkpoint.
    pub last_commit_ts: u64,
}

impl Checkpoint {
    /// Returns the checkpoint WAL LSN.
    pub fn lsn(&self) -> (r: Lsn)
        ensures
            r.0 == self.last_applied_commit_lsn,
    {
        Lsn(self.last_applied_commit_lsn)
    }

    /// Returns the checkpoint commit timestamp.
    pub fn commit_ts(&self) -> (r: CommitTs)
        ensures
            r.0 == self.last_commit_ts,
    {
        CommitTs(self.last_commit_ts)
    }
}

/// What decoding a checkpoint file yields.
pub enum CheckpointDecode {
    Valid(Checkpoint),
    Corrupt,
    /// The payload is too short for two `u64` fields.
    Serialization,
}

/// The checkpoint a payload encodes (two little-endian `u64`), if it is long
/// enough.
pub open spec fn checkpoint_payload(p: Seq<u8>) -> CheckpointDecode {
    if p.len() >= 16 {
        CheckpointDecode::Valid(Checkpoint { last_applied_commit_lsn: get64(p, 0), last_commit_ts: get64(p, 8) })
    } else {
        CheckpointDecode::Serialization
    }
}

/// Decoding of a checkpoint file: the checksummed envelope, or a legacy file
/// of exactly sixteen payload bytes.
pub open spec fn decoded_checkpoint(b: Seq<u8>) -> CheckpointDecode {
    match open_envelope(b, checkpoint_magic()) {
        Envelope::Legacy => if b.len() != 16 { CheckpointDecode::Corrupt } else { checkpoint_payload(b) },
        Envelope::Corrupt => CheckpointDecode::Corrupt,
        Envelope::Payload(p) => checkpoint_payload(p),
    }
}

/// The payload that encodes `cp`.
pub open spec fn checkpoint_bytes(cp: Checkpoint) -> Seq<u8> {
    le64(cp.last_applied_commit_lsn) + le64(cp.last_commit_ts)
}

/// Decodes two bincode `u64` fields.
fn decode_payload(p: &[u8]) -> (r: Result<Checkpoint, StorageError>)
    ensures
        match checkpoint_payload(p@) {
            CheckpointDecode::Valid(cp) => r == Ok::<Checkpoint, StorageError>(cp),
            _ => r is Err && r->Err_0 is Serialization,
        },
{
    let lsn = match bincode_decode_u64(p) {
        Ok(v) => v,
        Err(e) => return Err(StorageError::Serialization(e)),
    };
    let rest = vstd::slice::slice_subrange(p, 8, p.len());
    let ts = match bincode_decode_u64(rest) {
        Ok(v) => v,
        Err(e) => return Err(StorageError::Serialization(e)),
    };
    proof {
        assert(rest@.subrange(0, 8) =~= p@.subrange(8, 16));
    }
    Ok(Checkpoint { last_applied_commit_lsn: lsn, last_commit_ts: ts })
}

/// Decodes and validates the bytes of a checkpoint file.
pub fn decode_checkpoint(bytes: &[u8]) -> (r: Result<Checkpoint, StorageError>)
    ensures
        match decoded_checkpoint(bytes@) {
            CheckpointDecode::Valid(cp) => r == Ok::<Checkpoint, StorageError>(cp),
            CheckpointDecode::Corrupt => r is Err && r->Err_0 is Corrupt,
            CheckpointDecode::Serialization => r is Err && r->Err_0 is Serialization,
        },
{
    let magic = checkpoint_magic_bytes();
    match read_envelope(bytes, magic.as_slice()) {
        Ok(None) => {
            if bytes.len() != 16 {
                return Err(StorageError::Corrupt("bad checkpoint header".to_owned()));
            }
            decode_payload(bytes)
        },
        Ok(Some(payload)) => decode_payload(payload.as_slice()),
        Err(()) => Err(StorageError::Corrupt("invalid checkpoint envelope".to_owned())),
    }
}

/// Encodes a checkpoint as the bytes of a checkpoint file.
pub fn encode_checkpoint(checkpoint: Checkpoint) -> (r: Result<Vec<u8>, StorageError>)
    ensures
        r matches Ok(b) && b@ == seal_envelope(checkpoint_magic(), checkpoint_bytes(checkpoint)),
{
    let mut payload = match bincode_encode_u64(checkpoint.last_applied_commit_lsn) {
        Ok(b) => b,
        Err(e) => return Err(StorageError::Serialization(e)),
    };
    let mut second = match bincode_encode_u64(checkpoint.last_commit_ts) {
        Ok(b) => b,
        Err(e) => return Err(StorageError::Serialization(e)),
    };
    payload.append(&mut second);
    proof {
        lemma_le_roundtrip();
    }
    let magic = checkpoint_magic_bytes();
    match write_envelope(magic.as_slice(), payload.as_slice()) {
        Ok(b) => Ok(b),
        Err(()) => Err(StorageError::Corrupt("checkpoint payload too large".to_owned())),
    }
}

/// A saved checkpoint loads back unchanged.
pub proof fn lemma_checkpoint_roundtrip(cp: Checkpoint)
    ensures
        decoded_checkpoint(seal_envelope(checkpoint_magic(), checkpoint_bytes(cp))) == CheckpointDecode::Valid(cp),
{
    lemma_le_roundtrip();
    let p = checkpoint_bytes(cp);
    lemma_envelope_roundtrip(checkpoint_magic(), p);
    assert(p.subrange(0, 8) =~= le64(cp.last_applied_commit_lsn));
    assert(p.subrange(8, 16) =~= le64(cp.last_commit_ts));
}

/// Loads and atomically replaces CRC-protected checkpoint metadata kept in
/// one file.
pub struct CheckpointStore {
    path: std::path::PathBuf,
}

impl CheckpointStore {
    /// The file this store reads and replaces.
    pub closed spec fn file(&self) -> std::path::PathBuf {
        self.path
    }

    /// Creates a checkpoint store at the supplied path.
    pub fn new(path: std::path::PathBuf) -> (r: Self)
        ensures
            r.file() == path,
    {
        Self { path }
    }

    /// The file that holds the checkpoint.
    pub fn path(&self) -> (r: &std::path::PathBuf)
        ensures
            *r == self.file(),
    {
        &self.path
    }
}

/// A legacy checkpoint file, the two fields as little-endian `u64` and
/// nothing else, decodes to the checkpoint it holds.
pub proof fn lemma_legacy_checkpoint_decodes(cp: Checkpoint)
    ensures
        decoded_checkpoint(le64(cp.last_applied_commit_lsn) + le64(cp.last_commit_ts)) == CheckpointDecode::Valid(cp),
{
    lemma_le_roundtrip();
    let b = le64(cp.last_applied_commit_lsn) + le64(cp.last_commit_ts);
    assert(b.len() == 16);
    assert(b.subrange(0, 8) =~= le64(cp.last_applied_commit_lsn));
    assert(b.subrange(8, 16) =~= le64(cp.last_commit_ts));
}

} // verus!
