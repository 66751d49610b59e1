//! WAL frame format: magic u32, version u16, payload length u32, CRC-32 of
//! the payload u32 (all little endian), then the payload.
use vstd::prelude::*;
use crate::checksum::crc32_of;
use crate::le::{get16, get32, le16, le32};

verus! {

/// "ADBW".
pub const WAL_MAGIC: u32 = 0x4144_4257;
pub const WAL_VERSION: u16 = 1;
/// magic + version + payload length + crc32.
pub const HEADER_LEN: usize = 4 + 2 + 4 + 4;
/// Largest payload a frame may carry.
pub const MAX_WAL_RECORD_BYTES: usize = 16 * 1024 * 1024;

/// The frame that stores `payload`.
pub open spec fn encode_frame(payload: Seq<u8>) -> Seq<u8> {
    le32(WAL_MAGIC) + le16(WAL_VERSION) + le32(payload.len() as u32) + le32(crc32_of(payload)) + payload
}

/// What reading one frame at `off` yields.
pub enum FrameParse {
    /// A complete, checksum-valid frame with this payload; the next frame
    /// starts at `next`.
    Record { payload: Seq<u8>, next: int },
    /// The log ends here, possibly in the middle of a frame (a crash tail).
    End,
    /// The frame's magic, version, length bound or checksum is wrong.
    Corrupt,
}

/// Reads the frame at `off` of `log`.
pub open spec fn parse_frame(log: Seq<u8>, off: int) -> FrameParse {
    let rem = log.len() - off;
    let len = get32(log, off + 6) as int;
    if rem < 4 {
        FrameParse::End
    } else if get32(log, off) != WAL_MAGIC {
        FrameParse::Corrupt
    } else if rem < 6 {
        FrameParse::End
    } else if get16(log, off + 4) != WAL_VERSION {
        FrameParse::Corrupt
    } else if rem < 10 {
        FrameParse::End
    } else if len > MAX_WAL_RECORD_BYTES {
        FrameParse::Corrupt
    } else if rem < HEADER_LEN {
        FrameParse::End
    } else if rem < HEADER_LEN + len {
        FrameParse::End
    } else if crc32_of(log.subrange(off + HEADER_LEN, off + HEADER_LEN + len)) != get32(log, off + 10) {
        FrameParse::Corrupt
    } else {
        FrameParse::Record { payload: log.subrange(off + HEADER_LEN, off + HEADER_LEN + len), next: off + HEADER_LEN + len }
    }
}

/// What reading every frame from `off` on yields.
pub enum ScanResult {
    /// The records, each with its LSN (the offset of its frame), and the
    /// offset where valid frames end.
    Frames { records: Seq<(u64, Seq<u8>)>, end: int },
    Corrupt,
}

/// Reads the frames of `log` from `off` until the log ends or a frame is
/// corrupt.
pub open spec fn scan(log: Seq<u8>, off: int) -> ScanResult
    decreases log.len() - off,
{
    if !(0 <= off <= log.len()) {
        ScanResult::Corrupt
    } else {
        match parse_frame(log, off) {
            FrameParse::End => ScanResult::Frames { records: Seq::empty(), end: off },
            FrameParse::Corrupt => ScanResult::Corrupt,
            FrameParse::Record { payload, next } => if off < next <= log.len() {
                match scan(log, next) {
                    ScanResult::Frames { records, end } => ScanResult::Frames {
                        records: seq![(off as u64, payload)] + records,
                        end,
                    },
                    ScanResult::Corrupt => ScanResult::Corrupt,
                }
            } else {
                ScanResult::Corrupt
            },
        }
    }
}

} // verus!
