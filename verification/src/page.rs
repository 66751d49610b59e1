//! Fixed-size database page with a hardened, checksummed common header.
//!
//! Header layout (little endian): magic u32 @0, kind u16 @4, slot count u16 @6,
//! free start u16 @8, free end u16 @10, format version u16 @12, page LSN u64 @16,
//! CRC-32 u32 @24. The checksum covers the whole page with its own field zeroed.
use vstd::prelude::*;
use crate::checksum::{crc32, crc32_of};
use crate::ids::{Lsn, PageId};
use crate::le::{get16, get32, get64, le16, le32, le64, lemma_le_roundtrip, lemma_splice_same, lemma_splice_subrange, put16, put32, put64, read16, read32, read64, splice};

verus! {

/// Fixed database page size in bytes.
pub const PAGE_SIZE: usize = 16 * 1024;
/// Number of bytes reserved for the common database page header.
pub const PAGE_HEADER_SIZE: usize = 32;
/// Magic value identifying an Adaptive DB page.
pub const PAGE_MAGIC: u32 = 0x4144_4250;
/// Hardened page-header format version.
pub const PAGE_FORMAT_VERSION: u16 = 1;

pub const OFF_MAGIC: usize = 0;
pub const OFF_KIND: usize = 4;
pub const OFF_SLOT_COUNT: usize = 6;
pub const OFF_FREE_START: usize = 8;
pub const OFF_FREE_END: usize = 10;
pub const OFF_FORMAT_VERSION: usize = 12;
pub const OFF_PAGE_LSN: usize = 16;
pub const OFF_CHECKSUM: usize = 24;

/// Errors raised by page construction, validation and slotted access.
#[derive(Debug)]
pub enum PageError {
    /// The page has no room for the requested tuple.
    Full,
    /// The slot number is not below the page's slot count.
    InvalidSlot(u16),
    /// The page bytes violate a structural invariant.
    Corrupt(String),
    /// The tuple is longer than a slot can describe.
    PayloadTooLarge(usize),
}

/// Physical page kinds.
#[derive(Debug, Clone, Copy, PartialEq, Eq, Structural)]
pub enum PageKind {
    /// Heap/slotted page storing serialized current records (tag 1).
    Heap,
    /// B+Tree leaf page (tag 2).
    BTreeLeaf,
    /// B+Tree internal page (tag 3).
    BTreeInternal,
}

/// The persisted numeric tag of a page kind.
pub open spec fn kind_tag(k: PageKind) -> u16 {
    match k {
        PageKind::Heap => 1,
        PageKind::BTreeLeaf => 2,
        PageKind::BTreeInternal => 3,
    }
}

/// The page kind that a persisted tag denotes, if any.
pub open spec fn kind_of_tag(t: u16) -> Option<PageKind> {
    if t == 1 {
        Some(PageKind::Heap)
    } else if t == 2 {
        Some(PageKind::BTreeLeaf)
    } else if t == 3 {
        Some(PageKind::BTreeInternal)
    } else {
        None
    }
}

impl PageKind {
    /// The persisted numeric tag of this kind.
    pub fn tag(self) -> (t: u16)
        ensures
            t == kind_tag(self),
            kind_of_tag(t) == Some(self),
    {
        match self {
            PageKind::Heap => 1,
            PageKind::BTreeLeaf => 2,
            PageKind::BTreeInternal => 3,
        }
    }

    /// Validates and converts one persisted page kind tag.
    pub fn try_from(value: u16) -> (r: Result<PageKind, PageError>)
        ensures
            match r {
                Ok(k) => kind_of_tag(value) == Some(k),
                Err(e) => kind_of_tag(value) is None && e is Corrupt,
            },
    {
        if value == 1 {
            Ok(PageKind::Heap)
        } else if value == 2 {
            Ok(PageKind::BTreeLeaf)
        } else if value == 3 {
            Ok(PageKind::BTreeInternal)
        } else {
            Err(PageError::Corrupt("unknown page kind".to_owned()))
        }
    }
}

// ---------------------------------------------------------------------------
// Header fields of a page image.

pub open spec fn hdr_magic(s: Seq<u8>) -> u32 {
    get32(s, OFF_MAGIC as int)
}

pub open spec fn hdr_kind(s: Seq<u8>) -> u16 {
    get16(s, OFF_KIND as int)
}

pub open spec fn hdr_slot_count(s: Seq<u8>) -> u16 {
    get16(s, OFF_SLOT_COUNT as int)
}

pub open spec fn hdr_free_start(s: Seq<u8>) -> u16 {
    get16(s, OFF_FREE_START as int)
}

pub open spec fn hdr_free_end(s: Seq<u8>) -> u16 {
    get16(s, OFF_FREE_END as int)
}

pub open spec fn hdr_version(s: Seq<u8>) -> u16 {
    get16(s, OFF_FORMAT_VERSION as int)
}

pub open spec fn hdr_lsn(s: Seq<u8>) -> u64 {
    get64(s, OFF_PAGE_LSN as int)
}

pub open spec fn hdr_checksum(s: Seq<u8>) -> u32 {
    get32(s, OFF_CHECKSUM as int)
}

/// Offset of the directory entry of slot `slot` in a heap page.
pub open spec fn slot_entry_off(slot: int) -> int {
    PAGE_HEADER_SIZE + slot * 4
}

/// Tuple offset recorded in the directory entry of `slot`.
pub open spec fn slot_tuple_off(s: Seq<u8>, slot: int) -> u16 {
    get16(s, slot_entry_off(slot))
}

/// Tuple length recorded in the directory entry of `slot`.
pub open spec fn slot_tuple_len(s: Seq<u8>, slot: int) -> u16 {
    get16(s, slot_entry_off(slot) + 2)
}

/// The entry of `slot` points into the tuple area `[end, PAGE_SIZE)`.
pub open spec fn slot_entry_in_tuple_area(s: Seq<u8>, slot: int, end: int) -> bool {
    &&& slot_tuple_off(s, slot) >= end
    &&& slot_tuple_off(s, slot) + slot_tuple_len(s, slot) <= PAGE_SIZE
}

/// Free-space bounds and, for heap pages, the slot directory are consistent.
pub open spec fn common_header_ok(s: Seq<u8>, kind: PageKind) -> bool {
    let start = hdr_free_start(s) as int;
    let end = hdr_free_end(s) as int;
    &&& PAGE_HEADER_SIZE <= start <= end <= PAGE_SIZE
    &&& kind == PageKind::Heap ==> {
        &&& PAGE_HEADER_SIZE + hdr_slot_count(s) * 4 == start
        &&& forall|i: int| 0 <= i < hdr_slot_count(s) ==> #[trigger] slot_entry_in_tuple_area(s, i, end)
    }
}

/// The checksum image: the page with its checksum field zeroed.
pub open spec fn checksum_image(s: Seq<u8>) -> Seq<u8> {
    splice(s, OFF_CHECKSUM as int, le32(0))
}

/// The CRC-32 of a page image computed with the checksum field zeroed.
pub open spec fn page_checksum(s: Seq<u8>) -> u32 {
    crc32_of(checksum_image(s))
}

/// A page image that `Page::from_bytes` accepts.
pub open spec fn page_image_valid(s: Seq<u8>) -> bool {
    &&& hdr_magic(s) == PAGE_MAGIC
    &&& kind_of_tag(hdr_kind(s)) is Some
    &&& hdr_version(s) <= PAGE_FORMAT_VERSION
    &&& common_header_ok(s, kind_of_tag(hdr_kind(s))->0)
    &&& hdr_version(s) == PAGE_FORMAT_VERSION ==> {
        &&& hdr_checksum(s) != 0
        &&& hdr_checksum(s) == page_checksum(s)
    }
}

/// The image of a freshly created page of the given kind.
pub open spec fn fresh_image(kind: PageKind) -> Seq<u8> {
    let z = Seq::new(PAGE_SIZE as nat, |i: int| 0u8);
    let s1 = splice(z, OFF_MAGIC as int, le32(PAGE_MAGIC));
    let s2 = splice(s1, OFF_KIND as int, le16(kind_tag(kind)));
    let s3 = splice(s2, OFF_SLOT_COUNT as int, le16(0));
    let s4 = splice(s3, OFF_FREE_START as int, le16(PAGE_HEADER_SIZE as u16));
    let s5 = splice(s4, OFF_FREE_END as int, le16(PAGE_SIZE as u16));
    let s6 = splice(s5, OFF_FORMAT_VERSION as int, le16(PAGE_FORMAT_VERSION));
    let s7 = splice(s6, OFF_PAGE_LSN as int, le64(0));
    splice(s7, OFF_CHECKSUM as int, le32(0))
}

/// The image that `seal_for_write` produces from `s`: format version 1 and the
/// checksum of the resulting page stored in the checksum field.
pub open spec fn sealed_image(s: Seq<u8>) -> Seq<u8> {
    let s1 = splice(s, OFF_FORMAT_VERSION as int, le16(PAGE_FORMAT_VERSION));
    let s2 = splice(s1, OFF_CHECKSUM as int, le32(0));
    splice(s2, OFF_CHECKSUM as int, le32(crc32_of(s2)))
}

/// One fixed-size database page together with its identifier.
pub struct Page {
    /// Stable physical page identifier.
    pub id: PageId,
    bytes: Vec<u8>,
}

impl View for Page {
    type V = Seq<u8>;

    closed spec fn view(&self) -> Seq<u8> {
        self.bytes@
    }
}

impl Clone for Page {
    fn clone(&self) -> (r: Self)
        ensures
            r.page_id() == self.page_id(),
            r@ == self@,
    {
        let bytes = self.bytes.clone();
        proof {
            assert(bytes@ =~= self.bytes@);
        }
        Page { id: self.id, bytes }
    }
}

impl Page {
    /// The stable physical identifier of this page.
    pub closed spec fn page_id(&self) -> PageId {
        self.id
    }

    /// The stable physical identifier of this page.
    pub fn id(&self) -> (r: PageId)
        ensures
            r == self.page_id(),
    {
        self.id
    }

    /// The page holds exactly `PAGE_SIZE` bytes.
    pub open spec fn wf(&self) -> bool {
        self@.len() == PAGE_SIZE
    }

    /// Creates a new hardened page of the given kind: magic, kind, an empty
    /// slot directory, the whole payload free, format version 1, LSN 0 and a
    /// zero checksum; every other byte is zero.
    pub fn new(id: PageId, kind: PageKind) -> (page: Self)
        ensures
            page.wf(),
            page.page_id() == id,
            page@ == fresh_image(kind),
            hdr_magic(page@) == PAGE_MAGIC,
            hdr_kind(page@) == kind_tag(kind),
            hdr_slot_count(page@) == 0,
            hdr_free_start(page@) == PAGE_HEADER_SIZE,
            hdr_free_end(page@) == PAGE_SIZE,
            hdr_version(page@) == PAGE_FORMAT_VERSION,
            hdr_lsn(page@) == 0,
            hdr_checksum(page@) == 0,
            forall|i: int| PAGE_HEADER_SIZE <= i < PAGE_SIZE ==> page@[i] == 0,
    {
        let zeroed = vec![0u8; PAGE_SIZE];
        proof {
            assert(zeroed@ =~= Seq::new(PAGE_SIZE as nat, |i: int| 0u8));
        }
        let mut page = Page { id, bytes: zeroed };
        page.write_u32(OFF_MAGIC, PAGE_MAGIC);
        page.write_u16(OFF_KIND, kind.tag());
        page.write_u16(OFF_SLOT_COUNT, 0);
        page.write_u16(OFF_FREE_START, PAGE_HEADER_SIZE as u16);
        page.write_u16(OFF_FREE_END, PAGE_SIZE as u16);
        page.write_u16(OFF_FORMAT_VERSION, PAGE_FORMAT_VERSION);
        page.set_page_lsn(Lsn(0));
        page.write_u32(OFF_CHECKSUM, 0);
        proof {
            lemma_fresh_image_fields(kind);
        }
        page
    }

    /// Constructs a page from disk bytes and validates magic, kind, header
    /// bounds and (for format version 1) the checksum. Legacy version-0 pages
    /// carry no checksum and are accepted after structural validation.
    pub fn from_bytes(id: PageId, bytes: Vec<u8>) -> (r: Result<Self, PageError>)
        requires
            bytes@.len() == PAGE_SIZE,
        ensures
            match r {
                Ok(page) => page_image_valid(bytes@) && page.page_id() == id && page@ == bytes@ && page.wf(),
                Err(e) => !page_image_valid(bytes@) && e is Corrupt,
            },
    {
        let page = Page { id, bytes };
        if page.read_u32(OFF_MAGIC) != PAGE_MAGIC {
            return Err(PageError::Corrupt("bad page magic".to_owned()));
        }
        let kind = match PageKind::try_from(page.read_u16(OFF_KIND)) {
            Ok(k) => k,
            Err(e) => return Err(e),
        };
        let version = page.read_u16(OFF_FORMAT_VERSION);
        if version > PAGE_FORMAT_VERSION {
            return Err(PageError::Corrupt("unsupported page version".to_owned()));
        }
        match page.validate_common_header(kind) {
            Ok(()) => {},
            Err(e) => return Err(e),
        }
        if version == PAGE_FORMAT_VERSION {
            let stored = page.read_u32(OFF_CHECKSUM);
            if stored == 0 || stored != page.compute_checksum() {
                return Err(PageError::Corrupt("page checksum mismatch".to_owned()));
            }
        }
        Ok(page)
    }

    /// Returns the validated physical page kind.
    pub fn kind(&self) -> (r: Result<PageKind, PageError>)
        requires
            self.wf(),
        ensures
            match r {
                Ok(k) => kind_of_tag(hdr_kind(self@)) == Some(k),
                Err(e) => kind_of_tag(hdr_kind(self@)) is None && e is Corrupt,
            },
    {
        PageKind::try_from(self.read_u16(OFF_KIND))
    }

    /// Updates the physical page kind.
    pub fn set_kind(&mut self, kind: PageKind)
        requires
            old(self).wf(),
        ensures
            final(self).wf(),
            final(self).page_id() == old(self).page_id(),
            final(self)@ == splice(old(self)@, OFF_KIND as int, le16(kind_tag(kind))),
    {
        self.write_u16(OFF_KIND, kind.tag());
    }

    /// Returns the heap slot count.
    pub fn slot_count(&self) -> (r: u16)
        requires
            self.wf(),
        ensures
            r == hdr_slot_count(self@),
    {
        self.read_u16(OFF_SLOT_COUNT)
    }

    /// Updates the heap slot count.
    pub fn set_slot_count(&mut self, value: u16)
        requires
            old(self).wf(),
        ensures
            final(self).wf(),
            final(self).page_id() == old(self).page_id(),
            final(self)@ == splice(old(self)@, OFF_SLOT_COUNT as int, le16(value)),
    {
        self.write_u16(OFF_SLOT_COUNT, value);
    }

    /// Returns the beginning of free space.
    pub fn free_start(&self) -> (r: u16)
        requires
            self.wf(),
        ensures
            r == hdr_free_start(self@),
    {
        self.read_u16(OFF_FREE_START)
    }

    /// Updates the beginning of free space.
    pub fn set_free_start(&mut self, value: u16)
        requires
            old(self).wf(),
        ensures
            final(self).wf(),
            final(self).page_id() == old(self).page_id(),
            final(self)@ == splice(old(self)@, OFF_FREE_START as int, le16(value)),
    {
        self.write_u16(OFF_FREE_START, value);
    }

    /// Returns the end of free space.
    pub fn free_end(&self) -> (r: u16)
        requires
            self.wf(),
        ensures
            r == hdr_free_end(self@),
    {
        self.read_u16(OFF_FREE_END)
    }

    /// Updates the end of free space.
    pub fn set_free_end(&mut self, value: u16)
        requires
            old(self).wf(),
        ensures
            final(self).wf(),
            final(self).page_id() == old(self).page_id(),
            final(self)@ == splice(old(self)@, OFF_FREE_END as int, le16(value)),
    {
        self.write_u16(OFF_FREE_END, value);
    }

    /// Returns the page LSN stamped by the storage/index writer.
    pub fn page_lsn(&self) -> (r: Lsn)
        requires
            self.wf(),
        ensures
            r.0 == hdr_lsn(self@),
    {
        Lsn(self.read_u64(OFF_PAGE_LSN))
    }

    /// Updates the page LSN.
    pub fn set_page_lsn(&mut self, lsn: Lsn)
        requires
            old(self).wf(),
        ensures
            final(self).wf(),
            final(self).page_id() == old(self).page_id(),
            final(self)@ == splice(old(self)@, OFF_PAGE_LSN as int, le64(lsn.0)),
    {
        self.write_u64(OFF_PAGE_LSN, lsn.0);
    }

    /// Returns the data payload after the common header.
    pub fn payload(&self) -> (r: &[u8])
        requires
            self.wf(),
        ensures
            r@ == self@.subrange(PAGE_HEADER_SIZE as int, PAGE_SIZE as int),
    {
        slice_subrange_tail(self.bytes.as_slice(), PAGE_HEADER_SIZE)
    }

    /// Returns the mutable data payload after the common header.
    pub fn payload_mut(&mut self) -> (r: &mut [u8])
        requires
            old(self).wf(),
        ensures
            r@ == old(self)@.subrange(PAGE_HEADER_SIZE as int, PAGE_SIZE as int),
            final(r)@.len() == PAGE_SIZE - PAGE_HEADER_SIZE ==> final(self)@ == old(self)@.subrange(0, PAGE_HEADER_SIZE as int) + final(r)@,
            final(self).page_id() == old(self).page_id(),
    {
        let (_head, tail) = self.bytes.as_mut_slice().split_at_mut(PAGE_HEADER_SIZE);
        tail
    }

    /// Returns the complete encoded page bytes.
    pub fn bytes(&self) -> (r: &[u8])
        ensures
            r@ == self@,
    {
        self.bytes.as_slice()
    }

    /// Returns mutable complete page bytes.
    pub fn bytes_mut(&mut self) -> (r: &mut [u8])
        ensures
            r@ == old(self)@,
            final(self)@ == final(r)@,
            final(self).page_id() == old(self).page_id(),
    {
        self.bytes.as_mut_slice()
    }

    /// Marks this page as hardened format v1 and stores a CRC-32 over the
    /// complete page (computed with the checksum field zeroed).
    pub fn seal_for_write(&mut self)
        requires
            old(self).wf(),
        ensures
            final(self).wf(),
            final(self).page_id() == old(self).page_id(),
            final(self)@ == sealed_image(old(self)@),
    {
        self.write_u16(OFF_FORMAT_VERSION, PAGE_FORMAT_VERSION);
        let ghost s1 = self@;
        self.write_u32(OFF_CHECKSUM, 0);
        let ghost s2 = self@;
        let checksum = self.compute_checksum();
        proof {
            lemma_le_roundtrip();
            lemma_splice_subrange(s1, OFF_CHECKSUM as int, le32(0), OFF_CHECKSUM as int, OFF_CHECKSUM + 4);
            lemma_checksum_image_of_zeroed(s2);
        }
        self.write_u32(OFF_CHECKSUM, checksum);
    }

    /// Validates free-space bounds and, for heap pages, that every slot of the
    /// directory points into the tuple area.
    fn validate_common_header(&self, kind: PageKind) -> (r: Result<(), PageError>)
        requires
            self.wf(),
        ensures
            match r {
                Ok(()) => common_header_ok(self@, kind),
                Err(e) => !common_header_ok(self@, kind) && e is Corrupt,
            },
    {
        let start = self.free_start() as usize;
        let end = self.free_end() as usize;
        if start < PAGE_HEADER_SIZE || start > end || end > PAGE_SIZE {
            return Err(PageError::Corrupt("invalid free-space bounds".to_owned()));
        }
        if kind == PageKind::Heap {
            let slots = self.slot_count() as usize;
            let directory_end = PAGE_HEADER_SIZE + slots * 4;
            if directory_end != start || directory_end > PAGE_SIZE {
                return Err(PageError::Corrupt("invalid heap slot directory".to_owned()));
            }
            let mut slot: usize = 0;
            while slot < slots
                invariant
                    self.wf(),
                    kind == PageKind::Heap,
                    start == hdr_free_start(self@),
                    PAGE_HEADER_SIZE <= start <= end <= PAGE_SIZE,
                    PAGE_HEADER_SIZE + slots * 4 == start,
                    slots == hdr_slot_count(self@),
                    end == hdr_free_end(self@),
                    PAGE_HEADER_SIZE + slots * 4 <= PAGE_SIZE,
                    slot <= slots,
                    forall|i: int| 0 <= i < slot ==> #[trigger] slot_entry_in_tuple_area(self@, i, end as int),
                decreases slots - slot,
            {
                let off = PAGE_HEADER_SIZE + slot * 4;
                let tuple_off = self.read_u16(off) as usize;
                let len = self.read_u16(off + 2) as usize;
                let tuple_end = tuple_off + len;
                if tuple_off < end || tuple_end > PAGE_SIZE {
                    assert(!slot_entry_in_tuple_area(self@, slot as int, end as int));
                    return Err(PageError::Corrupt("slot points outside tuple area".to_owned()));
                }
                slot = slot + 1;
            }
        }
        Ok(())
    }

    /// Computes the page CRC with the checksum field logically zeroed.
    fn compute_checksum(&self) -> (r: u32)
        requires
            self.wf(),
        ensures
            r == page_checksum(self@),
    {
        let mut image = self.bytes.clone();
        proof {
            assert(image@ =~= self.bytes@);
        }
        put32(image.as_mut_slice(), OFF_CHECKSUM, 0);
        crc32(image.as_slice())
    }

    fn read_u16(&self, off: usize) -> (r: u16)
        requires
            self.wf(),
            off + 2 <= PAGE_SIZE,
        ensures
            r == get16(self@, off as int),
    {
        read16(self.bytes.as_slice(), off)
    }

    fn read_u32(&self, off: usize) -> (r: u32)
        requires
            self.wf(),
            off + 4 <= PAGE_SIZE,
        ensures
            r == get32(self@, off as int),
    {
        read32(self.bytes.as_slice(), off)
    }

    fn read_u64(&self, off: usize) -> (r: u64)
        requires
            self.wf(),
            off + 8 <= PAGE_SIZE,
        ensures
            r == get64(self@, off as int),
    {
        read64(self.bytes.as_slice(), off)
    }

    fn write_u16(&mut self, off: usize, value: u16)
        requires
            old(self).wf(),
            off + 2 <= PAGE_SIZE,
        ensures
            final(self).wf(),
            final(self).page_id() == old(self).page_id(),
            final(self)@ == splice(old(self)@, off as int, le16(value)),
    {
        put16(self.bytes.as_mut_slice(), off, value);
    }

    fn write_u32(&mut self, off: usize, value: u32)
        requires
            old(self).wf(),
            off + 4 <= PAGE_SIZE,
        ensures
            final(self).wf(),
            final(self).page_id() == old(self).page_id(),
            final(self)@ == splice(old(self)@, off as int, le32(value)),
    {
        put32(self.bytes.as_mut_slice(), off, value);
    }

    fn write_u64(&mut self, off: usize, value: u64)
        requires
            old(self).wf(),
            off + 8 <= PAGE_SIZE,
        ensures
            final(self).wf(),
            final(self).page_id() == old(self).page_id(),
            final(self)@ == splice(old(self)@, off as int, le64(value)),
    {
        put64(self.bytes.as_mut_slice(), off, value);
    }
}

/// The bytes of `s` from `start` to its end.
fn slice_subrange_tail(s: &[u8], start: usize) -> (r: &[u8])
    requires
        start <= s@.len(),
    ensures
        r@ == s@.subrange(start as int, s@.len() as int),
{
    let n = s.len();
    vstd::slice::slice_subrange(s, start, n)
}

/// Zeroing the checksum field of an image whose checksum field is already
/// zero changes nothing.
proof fn lemma_checksum_image_of_zeroed(s: Seq<u8>)
    requires
        s.len() == PAGE_SIZE,
        s.subrange(OFF_CHECKSUM as int, OFF_CHECKSUM + 4) == le32(0),
    ensures
        checksum_image(s) == s,
{
    lemma_le_roundtrip();
    assert forall|i: int| 0 <= i < s.len() implies #[trigger] checksum_image(s)[i] == s[i] by {
        if OFF_CHECKSUM <= i < OFF_CHECKSUM + 4 {
            assert(s.subrange(OFF_CHECKSUM as int, OFF_CHECKSUM + 4)[i - OFF_CHECKSUM] == s[i]);
        }
    }
    assert(checksum_image(s) =~= s);
}

/// The header fields of a fresh page image.
pub proof fn lemma_fresh_image_fields(kind: PageKind)
    ensures
        fresh_image(kind).len() == PAGE_SIZE,
        hdr_magic(fresh_image(kind)) == PAGE_MAGIC,
        hdr_kind(fresh_image(kind)) == kind_tag(kind),
        hdr_slot_count(fresh_image(kind)) == 0,
        hdr_free_start(fresh_image(kind)) == PAGE_HEADER_SIZE,
        hdr_free_end(fresh_image(kind)) == PAGE_SIZE,
        hdr_version(fresh_image(kind)) == PAGE_FORMAT_VERSION,
        hdr_lsn(fresh_image(kind)) == 0,
        hdr_checksum(fresh_image(kind)) == 0,
        forall|i: int| PAGE_HEADER_SIZE <= i < PAGE_SIZE ==> fresh_image(kind)[i] == 0,
{
    lemma_le_roundtrip();
    let z = Seq::new(PAGE_SIZE as nat, |i: int| 0u8);
    let s1 = splice(z, OFF_MAGIC as int, le32(PAGE_MAGIC));
    let s2 = splice(s1, OFF_KIND as int, le16(kind_tag(kind)));
    let s3 = splice(s2, OFF_SLOT_COUNT as int, le16(0));
    let s4 = splice(s3, OFF_FREE_START as int, le16(PAGE_HEADER_SIZE as u16));
    let s5 = splice(s4, OFF_FREE_END as int, le16(PAGE_SIZE as u16));
    let s6 = splice(s5, OFF_FORMAT_VERSION as int, le16(PAGE_FORMAT_VERSION));
    let s7 = splice(s6, OFF_PAGE_LSN as int, le64(0));
    let s8 = splice(s7, OFF_CHECKSUM as int, le32(0));
    let f = fresh_image(kind);
    assert(f == s8);
    // magic @0..4
    assert(f.subrange(0, 4) =~= le32(PAGE_MAGIC));
    assert(f.subrange(4, 6) =~= le16(kind_tag(kind)));
    assert(f.subrange(6, 8) =~= le16(0));
    assert(f.subrange(8, 10) =~= le16(PAGE_HEADER_SIZE as u16));
    assert(f.subrange(10, 12) =~= le16(PAGE_SIZE as u16));
    assert(f.subrange(12, 14) =~= le16(PAGE_FORMAT_VERSION));
    assert(f.subrange(16, 24) =~= le64(0));
    assert(f.subrange(24, 28) =~= le32(0));
}

/// Writing the same field twice keeps only the second write.
proof fn lemma_splice_twice(s: Seq<u8>, off: int, a: Seq<u8>, b: Seq<u8>)
    requires
        0 <= off,
        a.len() == b.len(),
        off + a.len() <= s.len(),
    ensures
        splice(splice(s, off, a), off, b) == splice(s, off, b),
{
    assert(splice(splice(s, off, a), off, b) =~= splice(s, off, b));
}

/// Sealing a sealed page changes nothing.
pub proof fn lemma_sealed_idempotent(s: Seq<u8>)
    requires
        s.len() == PAGE_SIZE,
    ensures
        sealed_image(sealed_image(s)) == sealed_image(s),
        sealed_image(s).len() == PAGE_SIZE,
{
    lemma_le_roundtrip();
    let s1 = splice(s, OFF_FORMAT_VERSION as int, le16(PAGE_FORMAT_VERSION));
    let s2 = splice(s1, OFF_CHECKSUM as int, le32(0));
    let t = splice(s2, OFF_CHECKSUM as int, le32(crc32_of(s2)));
    assert(sealed_image(s) == t);
    lemma_splice_subrange(s, OFF_FORMAT_VERSION as int, le16(PAGE_FORMAT_VERSION), OFF_FORMAT_VERSION as int, OFF_FORMAT_VERSION + 2);
    lemma_splice_subrange(s1, OFF_CHECKSUM as int, le32(0), OFF_FORMAT_VERSION as int, OFF_FORMAT_VERSION + 2);
    lemma_splice_subrange(s2, OFF_CHECKSUM as int, le32(crc32_of(s2)), OFF_FORMAT_VERSION as int, OFF_FORMAT_VERSION + 2);
    lemma_splice_same(t, OFF_FORMAT_VERSION as int, le16(PAGE_FORMAT_VERSION));
    lemma_splice_twice(s2, OFF_CHECKSUM as int, le32(crc32_of(s2)), le32(0));
    lemma_splice_twice(s1, OFF_CHECKSUM as int, le32(0), le32(0));
}

/// Sealing rewrites only the format-version and checksum fields.
pub(crate) proof fn lemma_sealed_unchanged_outside(s: Seq<u8>, lo: int, hi: int)
    requires
        s.len() == PAGE_SIZE,
        0 <= lo <= hi <= PAGE_SIZE,
        hi <= OFF_FORMAT_VERSION || (OFF_FORMAT_VERSION + 2 <= lo && hi <= OFF_CHECKSUM) || OFF_CHECKSUM + 4 <= lo,
    ensures
        sealed_image(s).subrange(lo, hi) == s.subrange(lo, hi),
{
    lemma_le_roundtrip();
    let s1 = splice(s, OFF_FORMAT_VERSION as int, le16(PAGE_FORMAT_VERSION));
    let s2 = splice(s1, OFF_CHECKSUM as int, le32(0));
    let s3 = splice(s2, OFF_CHECKSUM as int, le32(crc32_of(s2)));
    assert(sealed_image(s) == s3);
    assert(s3.subrange(lo, hi) =~= s.subrange(lo, hi));
}

/// Every page of `c1` that is new or changed since `c0` is stamped with
/// `lsn`.
pub open spec fn stamped_since(c0: Map<u64, Seq<u8>>, c1: Map<u64, Seq<u8>>, lsn: u64) -> bool {
    forall|id: u64| #[trigger] c1.contains_key(id) && !(c0.contains_key(id) && c1[id] == c0[id]) ==> hdr_lsn(c1[id]) == lsn
}

/// Sealing keeps the page LSN.
pub proof fn lemma_sealed_keeps_lsn(s: Seq<u8>)
    requires
        s.len() == PAGE_SIZE,
    ensures
        hdr_lsn(sealed_image(s)) == hdr_lsn(s),
{
    lemma_sealed_unchanged_outside(s, OFF_PAGE_LSN as int, OFF_PAGE_LSN + 8);
}

/// A page whose header is `s` with the kind field replaced, after its LSN
/// was set to `lsn`, carries `lsn`.
pub proof fn lemma_lsn_after_kind(before: Seq<u8>, lsn: u64, t: u16, after: Seq<u8>)
    requires
        before.len() == PAGE_SIZE,
        after.len() == PAGE_SIZE,
        after.subrange(0, PAGE_HEADER_SIZE as int)
            == splice(splice(before, OFF_PAGE_LSN as int, le64(lsn)), OFF_KIND as int, le16(t)).subrange(0, PAGE_HEADER_SIZE as int),
    ensures
        hdr_lsn(after) == lsn,
{
    lemma_le_roundtrip();
    let a = splice(before, OFF_PAGE_LSN as int, le64(lsn));
    let b = splice(a, OFF_KIND as int, le16(t));
    lemma_splice_subrange(before, OFF_PAGE_LSN as int, le64(lsn), OFF_PAGE_LSN as int, OFF_PAGE_LSN + 8);
    lemma_splice_subrange(a, OFF_KIND as int, le16(t), OFF_PAGE_LSN as int, OFF_PAGE_LSN + 8);
    assert(after.subrange(OFF_PAGE_LSN as int, OFF_PAGE_LSN + 8)
        =~= after.subrange(0, PAGE_HEADER_SIZE as int).subrange(OFF_PAGE_LSN as int, OFF_PAGE_LSN + 8));
    assert(b.subrange(OFF_PAGE_LSN as int, OFF_PAGE_LSN + 8)
        =~= b.subrange(0, PAGE_HEADER_SIZE as int).subrange(OFF_PAGE_LSN as int, OFF_PAGE_LSN + 8));
}

/// A page sealed for write passes read validation: its format version is 1
/// and its stored checksum matches, so any page whose magic, kind and header
/// bounds are valid is accepted by `Page::from_bytes` after
/// `seal_for_write`, unless its CRC-32 happens to be zero (a zero checksum is
/// always refused).
pub proof fn lemma_sealed_page_is_accepted(s: Seq<u8>)
    requires
        s.len() == PAGE_SIZE,
        hdr_magic(s) == PAGE_MAGIC,
        kind_of_tag(hdr_kind(s)) is Some,
        common_header_ok(s, kind_of_tag(hdr_kind(s))->0),
        crc32_of(splice(splice(s, OFF_FORMAT_VERSION as int, le16(PAGE_FORMAT_VERSION)), OFF_CHECKSUM as int, le32(0))) != 0,
    ensures
        page_image_valid(sealed_image(s)),
        hdr_version(sealed_image(s)) == PAGE_FORMAT_VERSION,
{
    lemma_le_roundtrip();
    let s1 = splice(s, OFF_FORMAT_VERSION as int, le16(PAGE_FORMAT_VERSION));
    let s2 = splice(s1, OFF_CHECKSUM as int, le32(0));
    let t = sealed_image(s);
    assert(t == splice(s2, OFF_CHECKSUM as int, le32(crc32_of(s2))));
    lemma_sealed_unchanged_outside(s, 0, 4);
    lemma_sealed_unchanged_outside(s, 4, 6);
    lemma_sealed_unchanged_outside(s, 6, 8);
    lemma_sealed_unchanged_outside(s, 8, 10);
    lemma_sealed_unchanged_outside(s, 10, 12);
    lemma_splice_subrange(s2, OFF_CHECKSUM as int, le32(crc32_of(s2)), OFF_CHECKSUM as int, OFF_CHECKSUM + 4);
    lemma_splice_subrange(s, OFF_FORMAT_VERSION as int, le16(PAGE_FORMAT_VERSION), OFF_FORMAT_VERSION as int, OFF_FORMAT_VERSION + 2);
    lemma_splice_subrange(s1, OFF_CHECKSUM as int, le32(0), OFF_FORMAT_VERSION as int, OFF_FORMAT_VERSION + 2);
    lemma_splice_subrange(s2, OFF_CHECKSUM as int, le32(crc32_of(s2)), OFF_FORMAT_VERSION as int, OFF_FORMAT_VERSION + 2);
    lemma_splice_twice(s2, OFF_CHECKSUM as int, le32(crc32_of(s2)), le32(0));
    lemma_splice_twice(s1, OFF_CHECKSUM as int, le32(0), le32(0));
    assert(checksum_image(t) == s2);
    let kind = kind_of_tag(hdr_kind(s))->0;
    if kind == PageKind::Heap {
        let end = hdr_free_end(s) as int;
        assert forall|i: int| 0 <= i < hdr_slot_count(t) implies #[trigger] slot_entry_in_tuple_area(t, i, end) by {
            assert(slot_entry_in_tuple_area(s, i, end));
            lemma_sealed_unchanged_outside(s, slot_entry_off(i), slot_entry_off(i) + 2);
            lemma_sealed_unchanged_outside(s, slot_entry_off(i) + 2, slot_entry_off(i) + 4);
        }
    }
}

/// Page validation by format version: a legacy page (version 0) is accepted
/// on its magic, kind and header bounds alone, whatever its checksum field
/// holds; a current page (version 1) is accepted on the same checks exactly
/// when its checksum is non-zero and matches; a later version never is.
pub proof fn lemma_page_acceptance_by_version(s: Seq<u8>, kind: PageKind)
    requires
        s.len() == PAGE_SIZE,
        hdr_magic(s) == PAGE_MAGIC,
        hdr_kind(s) == kind_tag(kind),
        common_header_ok(s, kind),
    ensures
        hdr_version(s) == 0 ==> page_image_valid(s),
        hdr_version(s) == 1 ==> (page_image_valid(s) <==> hdr_checksum(s) != 0 && hdr_checksum(s) == page_checksum(s)),
        hdr_version(s) > 1 ==> !page_image_valid(s),
{
    assert(kind_of_tag(kind_tag(kind)) == Some(kind));
}

} // verus!
