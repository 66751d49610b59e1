//! Sequential reading of WAL frames, tolerating a torn tail.
use vstd::prelude::*;
use crate::checksum::crc32;
use crate::ids::Lsn;
use crate::le::{read16, read32};
use crate::wal::error::WalError;
use crate::wal::format::{parse_frame, scan, FrameParse, ScanResult, HEADER_LEN, MAX_WAL_RECORD_BYTES, WAL_MAGIC, WAL_VERSION};

verus! {

/// The records of a read, as LSNs and payload bytes.
pub open spec fn records_view(v: Seq<(Lsn, Vec<u8>)>) -> Seq<(u64, Seq<u8>)> {
    v.map_values(|e: (Lsn, Vec<u8>)| ((e.0).0, e.1@))
}

/// `prefix` followed by the outcome of a scan.
pub open spec fn prepend(prefix: Seq<(u64, Seq<u8>)>, r: ScanResult) -> ScanResult {
    match r {
        ScanResult::Frames { records, end } => ScanResult::Frames { records: prefix + records, end },
        ScanResult::Corrupt => ScanResult::Corrupt,
    }
}

/// Reads the frames of a WAL image from a position on.
pub struct WalReader {
    data: Vec<u8>,
    offset: u64,
}

impl WalReader {
    /// The log image being read.
    pub closed spec fn log(&self) -> Seq<u8> {
        self.data@
    }

    /// The offset of the next frame to read.
    pub closed spec fn position(&self) -> int {
        self.offset as int
    }

    pub open spec fn wf(&self) -> bool {
        0 <= self.position() <= self.log().len()
    }

    /// A reader positioned at the start of the log image `data`.
    pub fn new(data: Vec<u8>) -> (r: Self)
        ensures
            r.wf(),
            r.log() == data@,
            r.position() == 0,
    {
        WalReader { data, offset: 0 }
    }

    /// Reads every remaining record; a torn final frame ends the log.
    pub fn read_all(self) -> (r: Result<Vec<(Lsn, Vec<u8>)>, WalError>)
        requires
            self.wf(),
        ensures
            match scan(self.log(), self.position()) {
                ScanResult::Frames { records, .. } => r is Ok && records_view(r->Ok_0@) == records,
                ScanResult::Corrupt => r is Err && r->Err_0 is Corrupt,
            },
    {
        let mut this = self;
        let ghost d = this.data@;
        let ghost start = this.offset as int;
        let mut out: Vec<(Lsn, Vec<u8>)> = Vec::new();
        loop
            invariant
                this.wf(),
                this.data@ == d,
                d == self.log(),
                start == self.position(),
                scan(d, start) == prepend(records_view(out@), scan(d, this.offset as int)),
            decreases d.len() - this.offset,
        {
            let ghost before = this.offset as int;
            match this.next_record() {
                Ok(Some(item)) => {
                    proof {
                        let old_out = records_view(out@);
                        let x = ((item.0).0, item.1@);
                        assert(records_view(out@.push(item)) =~= old_out + seq![x]);
                        assert(old_out + (seq![x] + match scan(d, this.offset as int) {
                            ScanResult::Frames { records, .. } => records,
                            ScanResult::Corrupt => Seq::empty(),
                        }) =~= (old_out + seq![x]) + match scan(d, this.offset as int) {
                            ScanResult::Frames { records, .. } => records,
                            ScanResult::Corrupt => Seq::empty(),
                        });
                    }
                    out.push(item);
                },
                Ok(None) => {
                    proof {
                        assert(records_view(out@) + Seq::<(u64, Seq<u8>)>::empty() =~= records_view(out@));
                    }
                    return Ok(out);
                },
                Err(e) => return Err(e),
            }
        }
    }

    /// The offset where the valid frames end.
    pub fn valid_end(self) -> (r: Result<u64, WalError>)
        requires
            self.wf(),
        ensures
            match scan(self.log(), self.position()) {
                ScanResult::Frames { end, .. } => r == Ok::<u64, WalError>(end as u64),
                ScanResult::Corrupt => r is Err && r->Err_0 is Corrupt,
            },
    {
        let mut this = self;
        let ghost d = this.data@;
        let ghost start = this.offset as int;
        let ghost mut seen: Seq<(u64, Seq<u8>)> = Seq::empty();
        loop
            invariant
                this.wf(),
                this.data@ == d,
                d == self.log(),
                start == self.position(),
                scan(d, start) == prepend(seen, scan(d, this.offset as int)),
            decreases d.len() - this.offset,
        {
            match this.next_record() {
                Ok(Some(item)) => {
                    proof {
                        let x = ((item.0).0, item.1@);
                        assert(seen + (seq![x] + match scan(d, this.offset as int) {
                            ScanResult::Frames { records, .. } => records,
                            ScanResult::Corrupt => Seq::empty(),
                        }) =~= (seen + seq![x]) + match scan(d, this.offset as int) {
                            ScanResult::Frames { records, .. } => records,
                            ScanResult::Corrupt => Seq::empty(),
                        });
                        seen = seen + seq![x];
                    }
                },
                Ok(None) => return Ok(this.offset),
                Err(e) => return Err(e),
            }
        }
    }

    /// Reads the frame at the current position and moves past it.
    pub fn next_record(&mut self) -> (r: Result<Option<(Lsn, Vec<u8>)>, WalError>)
        requires
            old(self).wf(),
        ensures
            final(self).wf(),
            final(self).log() == old(self).log(),
            match parse_frame(old(self).log(), old(self).position()) {
                FrameParse::End => r == Ok::<Option<(Lsn, Vec<u8>)>, WalError>(None)
                    && final(self).position() == old(self).position(),
                FrameParse::Corrupt => r is Err && r->Err_0 is Corrupt
                    && final(self).position() == old(self).position(),
                FrameParse::Record { payload, next } => {
                    &&& r is Ok && r->Ok_0 is Some
                    &&& (r->Ok_0->0).0 == Lsn(old(self).position() as u64)
                    &&& (r->Ok_0->0).1@ == payload
                    &&& final(self).position() == next
                    &&& old(self).position() < next
                },
            },
    {
        let len = self.data.len();
        let off = self.offset as usize;
        let rem = len - off;
        if rem < 4 {
            return Ok(None);
        }
        let magic = read32(self.data.as_slice(), off);
        if magic != WAL_MAGIC {
            return Err(WalError::Corrupt("invalid magic".to_owned()));
        }
        if rem < 6 {
            return Ok(None);
        }
        let version = read16(self.data.as_slice(), off + 4);
        if version != WAL_VERSION {
            return Err(WalError::Corrupt("unsupported WAL version".to_owned()));
        }
        if rem < 10 {
            return Ok(None);
        }
        let payload_len = read32(self.data.as_slice(), off + 6) as usize;
        if payload_len > MAX_WAL_RECORD_BYTES {
            return Err(WalError::Corrupt("payload length exceeds hardened limit".to_owned()));
        }
        if rem < HEADER_LEN {
            return Ok(None);
        }
        let expected_crc = read32(self.data.as_slice(), off + 10);
        if rem - HEADER_LEN < payload_len {
            // Partial tail after a crash: ignore it safely.
            return Ok(None);
        }
        let payload = vstd::slice::slice_to_vec(
            vstd::slice::slice_subrange(self.data.as_slice(), off + HEADER_LEN, off + HEADER_LEN + payload_len),
        );
        let actual_crc = crc32(payload.as_slice());
        if actual_crc != expected_crc {
            return Err(WalError::Corrupt("checksum mismatch".to_owned()));
        }
        let lsn = Lsn(self.offset);
        self.offset = self.offset + (HEADER_LEN + payload_len) as u64;
        Ok(Some((lsn, payload)))
    }
}

} // verus!
