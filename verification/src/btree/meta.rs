//! Crash-safe B+Tree root metadata: the checksummed envelope around the
//! bincode encoding of the root page number.
use vstd::prelude::*;
use crate::btree::error::BTreeError;
use crate::ids::PageId;
use crate::le::{get64, le64, lemma_le_roundtrip};
use crate::metafile::{lemma_envelope_roundtrip, open_envelope, read_envelope, seal_envelope, write_envelope, Envelope};
use crate::serial::{bincode_decode_u64, bincode_encode_u64};

verus! {

/// "ADBTM101".
pub open spec fn meta_magic() -> Seq<u8> {
    seq![65u8, 68u8, 66u8, 84u8, 77u8, 49u8, 48u8, 49u8]
}

fn meta_magic_bytes() -> (r: Vec<u8>)
    ensures
        r@ == meta_magic(),
{
    let r = vec![65u8, 68u8, 66u8, 84u8, 77u8, 49u8, 48u8, 49u8];
    proof {
        assert(r@ =~= meta_magic());
    }
    r
}

/// What decoding a root-metadata file yields.
pub enum MetaDecode {
    Root(PageId),
    Corrupt,
    /// The payload is too short for a `u64`.
    Serialization,
}

pub open spec fn meta_payload(p: Seq<u8>) -> MetaDecode {
    if p.len() >= 8 {
        MetaDecode::Root(PageId(get64(p, 0)))
    } else {
        MetaDecode::Serialization
    }
}

/// Decoding of a root-metadata file: the checksummed envelope, or a legacy
/// file of exactly eight payload bytes.
pub open spec fn decoded_meta(b: Seq<u8>) -> MetaDecode {
    match open_envelope(b, meta_magic()) {
        Envelope::Legacy => if b.len() != 8 { MetaDecode::Corrupt } else { meta_payload(b) },
        Envelope::Corrupt => MetaDecode::Corrupt,
        Envelope::Payload(p) => meta_payload(p),
    }
}

/// Persists and validates the current B+Tree root in one file.
pub struct MetaStore {
    path: std::path::PathBuf,
}

impl MetaStore {
    /// The file this store reads and replaces.
    pub closed spec fn file(&self) -> std::path::PathBuf {
        self.path
    }

    /// Creates a root metadata store at the supplied path.
    pub fn new(path: std::path::PathBuf) -> (r: Self)
        ensures
            r.file() == path,
    {
        Self { path }
    }

    /// The file that holds the root metadata.
    pub fn path(&self) -> (r: &std::path::PathBuf)
        ensures
            *r == self.file(),
    {
        &self.path
    }
}

fn decode_root(p: &[u8]) -> (r: Result<PageId, BTreeError>)
    ensures
        match meta_payload(p@) {
            MetaDecode::Root(id) => r == Ok::<PageId, BTreeError>(id),
            _ => r is Err && r->Err_0 is Serialization,
        },
{
    match bincode_decode_u64(p) {
        Ok(v) => Ok(PageId(v)),
        Err(e) => Err(BTreeError::Serialization(e)),
    }
}

/// Decodes and validates the bytes of a root-metadata file.
pub fn decode_meta(bytes: &[u8]) -> (r: Result<PageId, BTreeError>)
    ensures
        match decoded_meta(bytes@) {
            MetaDecode::Root(id) => r == Ok::<PageId, BTreeError>(id),
            MetaDecode::Corrupt => r is Err && r->Err_0 is Corrupt,
            MetaDecode::Serialization => r is Err && r->Err_0 is Serialization,
        },
{
    let magic = meta_magic_bytes();
    match read_envelope(bytes, magic.as_slice()) {
        Ok(None) => {
            // Backward-compatible metadata was exactly one serialized u64.
            if bytes.len() != 8 {
                return Err(BTreeError::Corrupt("bad btree metadata header".to_owned()));
            }
            decode_root(bytes)
        },
        Ok(Some(payload)) => decode_root(payload.as_slice()),
        Err(()) => Err(BTreeError::Corrupt("invalid btree metadata envelope".to_owned())),
    }
}

/// Encodes a root page number as the bytes of a root-metadata file.
pub fn encode_meta(root: PageId) -> (r: Result<Vec<u8>, BTreeError>)
    ensures
        r matches Ok(b) && b@ == seal_envelope(meta_magic(), le64(root.0)),
{
    let payload = match bincode_encode_u64(root.0) {
        Ok(b) => b,
        Err(e) => return Err(BTreeError::Serialization(e)),
    };
    proof {
        lemma_le_roundtrip();
    }
    let magic = meta_magic_bytes();
    match write_envelope(magic.as_slice(), payload.as_slice()) {
        Ok(b) => Ok(b),
        Err(()) => Err(BTreeError::Corrupt("metadata payload too large".to_owned())),
    }
}

/// Saved root metadata loads back as the same root.
pub proof fn lemma_meta_roundtrip(root: PageId)
    ensures
        decoded_meta(seal_envelope(meta_magic(), le64(root.0))) == MetaDecode::Root(root),
{
    lemma_le_roundtrip();
    lemma_envelope_roundtrip(meta_magic(), le64(root.0));
    assert(le64(root.0).subrange(0, 8) =~= le64(root.0));
}

/// A legacy root-metadata file, the root page as a little-endian `u64` and
/// nothing else, decodes to that root.
pub proof fn lemma_legacy_meta_decodes(root: PageId)
    ensures
        decoded_meta(le64(root.0)) == MetaDecode::Root(root),
{
    lemma_le_roundtrip();
    assert(le64(root.0).subrange(0, 8) =~= le64(root.0));
}

} // verus!
