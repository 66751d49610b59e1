//! Framing and positioning of appended WAL records.
use vstd::prelude::*;
use vstd::bytes::{u16_to_le_bytes, u32_to_le_bytes};
use crate::checksum::{crc32, crc32_of};
use crate::ids::Lsn;
use crate::le::{le16, le32, lemma_le_roundtrip};
use crate::wal::error::WalError;
use crate::wal::format::{encode_frame, parse_frame, scan, FrameParse, ScanResult, HEADER_LEN, MAX_WAL_RECORD_BYTES, WAL_MAGIC, WAL_VERSION};
use crate::wal::reader::WalReader;

verus! {

/// Builds the frame that stores `payload`.
pub fn frame_record(payload: &[u8]) -> (r: Result<Vec<u8>, WalError>)
    ensures
        match r {
            Ok(f) => payload@.len() <= MAX_WAL_RECORD_BYTES && f@ == encode_frame(payload@),
            Err(WalError::RecordTooLarge(n)) => payload@.len() > MAX_WAL_RECORD_BYTES && n == payload@.len(),
            Err(_) => false,
        },
{
    if payload.len() > MAX_WAL_RECORD_BYTES {
        return Err(WalError::RecordTooLarge(payload.len()));
    }
    let payload_len = payload.len() as u32;
    let checksum = crc32(payload);
    let mut out = u32_to_le_bytes(WAL_MAGIC);
    let mut v = u16_to_le_bytes(WAL_VERSION);
    out.append(&mut v);
    let mut l = u32_to_le_bytes(payload_len);
    out.append(&mut l);
    let mut c = u32_to_le_bytes(checksum);
    out.append(&mut c);
    out.extend_from_slice(payload);
    proof {
        assert(out@ =~= encode_frame(payload@));
    }
    Ok(out)
}

/// Tracks where the next WAL frame is appended.
pub struct WalWriter {
    next_lsn: u64,
}

impl WalWriter {
    /// The offset at which the next frame is appended.
    pub closed spec fn spec_position(&self) -> u64 {
        self.next_lsn
    }

    /// Resumes appending to an existing log image: appends continue where
    /// the valid frames end, so a torn tail left by a crash is overwritten
    /// (the caller truncates the file to `position()`).
    pub fn resume(existing: Vec<u8>) -> (r: Result<WalWriter, WalError>)
        ensures
            match scan(existing@, 0) {
                ScanResult::Frames { end, .. } => r is Ok && r->Ok_0.spec_position() == end,
                ScanResult::Corrupt => r is Err && r->Err_0 is Corrupt,
            },
    {
        let _n = existing.len();
        proof {
            lemma_scan_end_bounded(existing@, 0);
        }
        let valid_end = WalReader::new(existing).valid_end()?;
        Ok(WalWriter { next_lsn: valid_end })
    }

    /// Frames one serialized record; returns its LSN (the offset of its
    /// frame) and the frame bytes to append at that offset.
    pub fn append(&mut self, payload: &[u8]) -> (r: Result<(Lsn, Vec<u8>), WalError>)
        requires
            payload@.len() <= MAX_WAL_RECORD_BYTES ==> old(self).spec_position() + HEADER_LEN + payload@.len() <= u64::MAX,
        ensures
            match r {
                Ok((lsn, frame)) => {
                    &&& payload@.len() <= MAX_WAL_RECORD_BYTES
                    &&& lsn.0 == old(self).spec_position()
                    &&& frame@ == encode_frame(payload@)
                    &&& final(self).spec_position() == old(self).spec_position() + frame@.len()
                },
                Err(WalError::RecordTooLarge(n)) => {
                    &&& payload@.len() > MAX_WAL_RECORD_BYTES
                    &&& n == payload@.len()
                    &&& final(self).spec_position() == old(self).spec_position()
                },
                Err(_) => false,
            },
    {
        let frame = frame_record(payload)?;
        proof {
            lemma_le_roundtrip();
        }
        let lsn = Lsn(self.next_lsn);
        self.next_lsn = self.next_lsn + frame.len() as u64;
        Ok((lsn, frame))
    }

    /// The LSN at which the next WAL record would be appended.
    pub fn position(&self) -> (r: Lsn)
        ensures
            r.0 == self.spec_position(),
    {
        Lsn(self.next_lsn)
    }
}

/// The log image made of the frames of `ps`, in order.
pub open spec fn frames(ps: Seq<Seq<u8>>) -> Seq<u8>
    decreases ps.len(),
{
    if ps.len() == 0 {
        Seq::empty()
    } else {
        encode_frame(ps[0]) + frames(ps.drop_first())
    }
}

/// The records that reading `frames(ps)` placed at offset `off` yields.
pub open spec fn framed_records(ps: Seq<Seq<u8>>, off: int) -> Seq<(u64, Seq<u8>)>
    decreases ps.len(),
{
    if ps.len() == 0 {
        Seq::empty()
    } else {
        seq![(off as u64, ps[0])] + framed_records(ps.drop_first(), off + HEADER_LEN + ps[0].len())
    }
}

pub open spec fn all_fit(ps: Seq<Seq<u8>>) -> bool {
    forall|i: int| 0 <= i < ps.len() ==> #[trigger] ps[i].len() <= MAX_WAL_RECORD_BYTES
}

/// A scan ends inside the log.
pub proof fn lemma_scan_end_bounded(log: Seq<u8>, off: int)
    ensures
        scan(log, off) matches ScanResult::Frames { end, .. } ==> off <= end <= log.len(),
    decreases log.len() - off,
{
    if 0 <= off <= log.len() {
        if let FrameParse::Record { payload, next } = parse_frame(log, off) {
            if off < next <= log.len() {
                lemma_scan_end_bounded(log, next);
            }
        }
    }
}

/// A frame placed at `|a|` in `a + frame + rest` reads back as its payload.
proof fn lemma_parse_framed(a: Seq<u8>, p: Seq<u8>, rest: Seq<u8>)
    requires
        p.len() <= MAX_WAL_RECORD_BYTES,
    ensures
        parse_frame(a + encode_frame(p) + rest, a.len() as int)
            == (FrameParse::Record { payload: p, next: a.len() + HEADER_LEN + p.len() }),
{
    lemma_le_roundtrip();
    let f = encode_frame(p);
    let log = a + f + rest;
    let o = a.len() as int;
    assert(log.subrange(o, o + 4) =~= le32(WAL_MAGIC));
    assert(log.subrange(o + 4, o + 6) =~= le16(WAL_VERSION));
    assert(log.subrange(o + 6, o + 10) =~= le32(p.len() as u32));
    assert(log.subrange(o + 10, o + 14) =~= le32(crc32_of(p)));
    assert(log.subrange(o + HEADER_LEN, o + HEADER_LEN + p.len()) =~= p);
}

/// A strict prefix of a frame (a frame torn by a crash) reads as the end of
/// the log.
proof fn lemma_parse_torn(a: Seq<u8>, q: Seq<u8>, k: int)
    requires
        q.len() <= MAX_WAL_RECORD_BYTES,
        0 <= k < encode_frame(q).len(),
    ensures
        parse_frame(a + encode_frame(q).take(k), a.len() as int) == FrameParse::End,
{
    lemma_le_roundtrip();
    let f = encode_frame(q);
    let log = a + f.take(k);
    let o = a.len() as int;
    if k >= 4 {
        assert(log.subrange(o, o + 4) =~= le32(WAL_MAGIC));
    }
    if k >= 6 {
        assert(log.subrange(o + 4, o + 6) =~= le16(WAL_VERSION));
    }
    if k >= 10 {
        assert(log.subrange(o + 6, o + 10) =~= le32(q.len() as u32));
    }
}

/// What is appended is read back: a log made of the frames of `ps` (each
/// within the size limit), optionally followed by a frame torn by a crash,
/// reads back as exactly the payloads of `ps`, each with the LSN at which it
/// was appended, and its valid frames end where the torn tail begins. This is
/// why a writer that resumes at that end and truncates the tail loses no
/// committed record.
pub proof fn lemma_appended_frames_read_back(a: Seq<u8>, ps: Seq<Seq<u8>>, q: Seq<u8>, k: int)
    requires
        all_fit(ps),
        q.len() <= MAX_WAL_RECORD_BYTES,
        0 <= k < encode_frame(q).len(),
        a.len() + frames(ps).len() + k <= u64::MAX,
    ensures
        scan(a + frames(ps) + encode_frame(q).take(k), a.len() as int)
            == (ScanResult::Frames { records: framed_records(ps, a.len() as int), end: (a.len() + frames(ps).len()) as int }),
    decreases ps.len(),
{
    lemma_le_roundtrip();
    let t = encode_frame(q).take(k);
    if ps.len() == 0 {
        assert(a + frames(ps) + t =~= a + t);
        lemma_parse_torn(a, q, k);
    } else {
        let p = ps[0];
        let rest = ps.drop_first();
        assert(p.len() <= MAX_WAL_RECORD_BYTES);
        assert(all_fit(rest)) by {
            assert forall|i: int| 0 <= i < rest.len() implies #[trigger] rest[i].len() <= MAX_WAL_RECORD_BYTES by {
                assert(rest[i] == ps[i + 1]);
            }
        }
        let f = encode_frame(p);
        let log = a + frames(ps) + t;
        assert(log =~= a + f + (frames(rest) + t));
        lemma_parse_framed(a, p, frames(rest) + t);
        let a2 = a + f;
        assert(log =~= a2 + frames(rest) + t);
        lemma_appended_frames_read_back(a2, rest, q, k);
        assert(seq![(a.len() as u64, p)] + framed_records(rest, a2.len() as int) == framed_records(ps, a.len() as int));
    }
}

} // verus!
