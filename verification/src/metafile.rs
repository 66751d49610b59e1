//! The checksummed metadata-file envelope shared by checkpoint and B+Tree
//! root metadata: magic (8 bytes), version u16, CRC-32 of the payload u32,
//! payload length u32, payload.
use vstd::prelude::*;
use crate::checksum::{crc32, crc32_of};
use crate::le::{get16, get32, le16, le32, lemma_le_roundtrip, read16, read32};

verus! {

pub const META_FORMAT_VERSION: u16 = 1;
pub const ENVELOPE_HEADER: usize = 18;
/// Largest payload the envelope accepts.
pub const MAX_META_PAYLOAD: usize = 1024;

/// What opening an envelope yields.
pub enum Envelope {
    /// The file is not an envelope (too short or wrong magic).
    Legacy,
    /// The envelope's version, length or checksum is wrong.
    Corrupt,
    /// A valid envelope with this payload.
    Payload(Seq<u8>),
}

/// Opens an envelope with the given magic.
pub open spec fn open_envelope(b: Seq<u8>, magic: Seq<u8>) -> Envelope {
    let len = get32(b, 14) as int;
    if b.len() < ENVELOPE_HEADER || b.take(8) != magic {
        Envelope::Legacy
    } else if get16(b, 8) != META_FORMAT_VERSION {
        Envelope::Corrupt
    } else if len > MAX_META_PAYLOAD || b.len() != ENVELOPE_HEADER + len {
        Envelope::Corrupt
    } else if crc32_of(b.skip(ENVELOPE_HEADER as int)) != get32(b, 10) {
        Envelope::Corrupt
    } else {
        Envelope::Payload(b.skip(ENVELOPE_HEADER as int))
    }
}

/// The envelope around `payload`.
pub open spec fn seal_envelope(magic: Seq<u8>, payload: Seq<u8>) -> Seq<u8> {
    magic + le16(META_FORMAT_VERSION) + le32(crc32_of(payload)) + le32(payload.len() as u32) + payload
}

/// Opens an envelope with the given magic.
pub fn read_envelope(b: &[u8], magic: &[u8]) -> (r: Result<Option<Vec<u8>>, ()>)
    requires
        magic@.len() == 8,
    ensures
        match open_envelope(b@, magic@) {
            Envelope::Legacy => r == Ok::<Option<Vec<u8>>, ()>(None),
            Envelope::Corrupt => r is Err,
            Envelope::Payload(p) => r is Ok && r->Ok_0 is Some && r->Ok_0->0@ == p,
        },
{
    let n = b.len();
    if n < ENVELOPE_HEADER || !bytes_eq(vstd::slice::slice_subrange(b, 0, 8), magic) {
        return Ok(None);
    }
    let version = read16(b, 8);
    if version != META_FORMAT_VERSION {
        return Err(());
    }
    let expected = read32(b, 10);
    let len = read32(b, 14) as usize;
    if len > MAX_META_PAYLOAD || n != ENVELOPE_HEADER + len {
        return Err(());
    }
    let payload = vstd::slice::slice_to_vec(vstd::slice::slice_subrange(b, ENVELOPE_HEADER, n));
    if crc32(payload.as_slice()) != expected {
        return Err(());
    }
    Ok(Some(payload))
}

/// Builds the envelope around `payload`.
pub fn write_envelope(magic: &[u8], payload: &[u8]) -> (r: Result<Vec<u8>, ()>)
    requires
        magic@.len() == 8,
    ensures
        match r {
            Ok(b) => payload@.len() <= u32::MAX && b@ == seal_envelope(magic@, payload@),
            Err(()) => payload@.len() > u32::MAX,
        },
{
    let crc = crc32(payload);
    if payload.len() > 0xffff_ffff {
        return Err(());
    }
    let len = payload.len() as u32;
    let mut out = vstd::slice::slice_to_vec(magic);
    let mut v = vstd::bytes::u16_to_le_bytes(META_FORMAT_VERSION);
    out.append(&mut v);
    let mut c = vstd::bytes::u32_to_le_bytes(crc);
    out.append(&mut c);
    let mut l = vstd::bytes::u32_to_le_bytes(len);
    out.append(&mut l);
    out.extend_from_slice(payload);
    proof {
        assert(out@ =~= seal_envelope(magic@, payload@));
    }
    Ok(out)
}

/// Compares two byte strings.
fn bytes_eq(a: &[u8], b: &[u8]) -> (r: bool)
    ensures
        r == (a@ == b@),
{
    if a.len() != b.len() {
        return false;
    }
    let mut i: usize = 0;
    while i < a.len()
        invariant
            a@.len() == b@.len(),
            i <= a@.len(),
            forall|j: int| 0 <= j < i ==> a@[j] == b@[j],
        decreases a@.len() - i,
    {
        if a[i] != b[i] {
            return false;
        }
        i = i + 1;
    }
    proof {
        assert(a@ =~= b@);
    }
    true
}

/// A sealed envelope opens to its payload.
pub proof fn lemma_envelope_roundtrip(magic: Seq<u8>, payload: Seq<u8>)
    requires
        magic.len() == 8,
        payload.len() <= MAX_META_PAYLOAD,
    ensures
        open_envelope(seal_envelope(magic, payload), magic) == Envelope::Payload(payload),
{
    lemma_le_roundtrip();
    let b = seal_envelope(magic, payload);
    assert(b.take(8) =~= magic);
    assert(b.subrange(8, 10) =~= le16(META_FORMAT_VERSION));
    assert(b.subrange(10, 14) =~= le32(crc32_of(payload)));
    assert(b.subrange(14, 18) =~= le32(payload.len() as u32));
    assert(b.skip(ENVELOPE_HEADER as int) =~= payload);
}

} // verus!
