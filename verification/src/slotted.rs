//! Slotted heap pages: a slot directory growing up from the header and
//! variable-length tuples growing down from the end of the page.
use vstd::prelude::*;
use crate::ids::SlotId;
use crate::le::{le16, lemma_le_roundtrip, lemma_splice_subrange, put16, splice, write_bytes};
use crate::page::{
    hdr_free_end, hdr_free_start, hdr_lsn, hdr_slot_count, slot_entry_off, slot_tuple_len, slot_tuple_off,
    Page, PageError, OFF_FREE_END, OFF_FREE_START, OFF_PAGE_LSN, OFF_SLOT_COUNT, PAGE_HEADER_SIZE, PAGE_SIZE,
};

verus! {

/// Size of one slot-directory entry: tuple offset u16 and tuple length u16.
pub const SLOT_SIZE: usize = 4;

/// Inputs on which an insert would write past the end of the page: the header
/// claims free space that extends beyond the page.
pub open spec fn insert_overruns(s: Seq<u8>, len: int) -> bool {
    let fs = hdr_free_start(s) as int;
    let fe = hdr_free_end(s) as int;
    &&& len <= u16::MAX
    &&& fs <= fe
    &&& fe - fs >= SLOT_SIZE + len
    &&& fe > PAGE_SIZE
}

/// The free space of the page is too small for a tuple of `len` bytes.
pub open spec fn lacks_free_space(s: Seq<u8>, len: int) -> bool {
    let fs = hdr_free_start(s) as int;
    let fe = hdr_free_end(s) as int;
    fe < fs || fe - fs < SLOT_SIZE + len
}

/// Where an inserted tuple of `len` bytes starts.
pub open spec fn tuple_start(s: Seq<u8>, len: int) -> int {
    hdr_free_end(s) - len
}

/// The page after the tuple bytes are copied to the end of the free space.
pub open spec fn with_tuple(s: Seq<u8>, data: Seq<u8>) -> Seq<u8> {
    splice(s, tuple_start(s, data.len() as int), data)
}

/// The new slot's directory entry would run into the tuple just copied.
pub open spec fn directory_collides(s: Seq<u8>, len: int) -> bool {
    slot_entry_off(hdr_slot_count(s) as int) + SLOT_SIZE > tuple_start(s, len)
}

/// The page after a successful insert of `data`.
pub open spec fn inserted_image(s: Seq<u8>, data: Seq<u8>) -> Seq<u8> {
    let ts = tuple_start(s, data.len() as int);
    let off = slot_entry_off(hdr_slot_count(s) as int);
    let s1 = with_tuple(s, data);
    let s2 = splice(s1, off, le16(ts as u16));
    let s3 = splice(s2, off + 2, le16(data.len() as u16));
    let s4 = splice(s3, OFF_SLOT_COUNT as int, le16((hdr_slot_count(s) + 1) as u16));
    let s5 = splice(s4, OFF_FREE_START as int, le16((hdr_free_start(s) + SLOT_SIZE) as u16));
    splice(s5, OFF_FREE_END as int, le16(ts as u16))
}

/// The tuple that `SlottedPage::get` returns for `slot`, if it returns one.
pub open spec fn slot_read(s: Seq<u8>, slot: int) -> Option<Seq<u8>> {
    let off = slot_tuple_off(s, slot) as int;
    let len = slot_tuple_len(s, slot) as int;
    if 0 <= slot < hdr_slot_count(s) && slot_entry_off(slot) + SLOT_SIZE <= PAGE_SIZE
        && off >= hdr_free_end(s) && off + len <= PAGE_SIZE {
        Some(s.subrange(off, off + len))
    } else {
        None
    }
}

/// Provides slotted-page tuple insertion and lookup over a heap page.
pub struct SlottedPage {
    page: Page,
}

impl SlottedPage {
    /// The page this slotted view works on.
    pub closed spec fn spec_page(&self) -> Page {
        self.page
    }

    /// Wraps a page for slotted access.
    pub fn new(page: Page) -> (r: Self)
        ensures
            r.spec_page() == page,
    {
        Self { page }
    }

    /// Returns the underlying page.
    pub fn page(&self) -> (r: &Page)
        ensures
            *r == self.spec_page(),
    {
        &self.page
    }

    /// Gives the underlying page back.
    pub fn into_page(self) -> (r: Page)
        ensures
            r == self.spec_page(),
    {
        self.page
    }

    /// Appends a tuple: copies it to the end of the free space, adds a slot
    /// directory entry and returns the new slot number.
    pub fn insert(&mut self, bytes: &[u8]) -> (r: Result<SlotId, PageError>)
        requires
            old(self).spec_page().wf(),
            !insert_overruns(old(self).spec_page()@, bytes@.len() as int),
        ensures
            final(self).spec_page().wf(),
            final(self).spec_page().page_id() == old(self).spec_page().page_id(),
            ({
                let s = old(self).spec_page()@;
                let len = bytes@.len() as int;
                match r {
                    Ok(slot) => {
                        &&& len <= u16::MAX
                        &&& !lacks_free_space(s, len)
                        &&& !directory_collides(s, len)
                        &&& slot == hdr_slot_count(s)
                        &&& final(self).spec_page()@ == inserted_image(s, bytes@)
                    },
                    Err(PageError::PayloadTooLarge(n)) => {
                        &&& len > u16::MAX
                        &&& n == len
                        &&& final(self).spec_page()@ == s
                    },
                    Err(PageError::Full) => {
                        &&& len <= u16::MAX
                        &&& (lacks_free_space(s, len) ==> final(self).spec_page()@ == s)
                        &&& (!lacks_free_space(s, len) ==> directory_collides(s, len)
                            && final(self).spec_page()@ == with_tuple(s, bytes@))
                    },
                    Err(_) => false,
                }
            }),
    {
        if bytes.len() > 65535 {
            return Err(PageError::PayloadTooLarge(bytes.len()));
        }
        let free_start = self.page.free_start() as usize;
        let free_end = self.page.free_end() as usize;
        let needed = SLOT_SIZE + bytes.len();
        if free_end < free_start || free_end - free_start < needed {
            return Err(PageError::Full);
        }
        let slot_id = self.page.slot_count();
        let tuple_start = free_end - bytes.len();
        write_bytes(self.page.bytes_mut(), tuple_start, bytes);

        let slot_off = PAGE_HEADER_SIZE + slot_id as usize * SLOT_SIZE;
        let slot_end = slot_off + SLOT_SIZE;
        if slot_end > tuple_start {
            return Err(PageError::Full);
        }
        put16(self.page.bytes_mut(), slot_off, tuple_start as u16);
        put16(self.page.bytes_mut(), slot_off + 2, bytes.len() as u16);

        self.page.set_slot_count(slot_id + 1);
        self.page.set_free_start((free_start + SLOT_SIZE) as u16);
        self.page.set_free_end(tuple_start as u16);
        Ok(slot_id)
    }

    /// Returns the tuple stored in `slot_id`, after checking that its
    /// directory entry lies in the page and points into the tuple area.
    pub fn get(&self, slot_id: SlotId) -> (r: Result<&[u8], PageError>)
        requires
            self.spec_page().wf(),
        ensures
            ({
                let s = self.spec_page()@;
                match r {
                    Ok(b) => slot_read(s, slot_id as int) == Some(b@),
                    Err(PageError::InvalidSlot(n)) => n == slot_id && slot_id >= hdr_slot_count(s),
                    Err(PageError::Corrupt(_)) => slot_id < hdr_slot_count(s) && slot_read(s, slot_id as int) is None,
                    Err(_) => false,
                }
            }),
    {
        if slot_id >= self.page.slot_count() {
            return Err(PageError::InvalidSlot(slot_id));
        }
        let bytes = self.page.bytes();
        let slot_off = PAGE_HEADER_SIZE + slot_id as usize * SLOT_SIZE;
        if slot_off + 2 > bytes.len() {
            return Err(PageError::Corrupt("slot offset outside page".to_owned()));
        }
        if slot_off + 4 > bytes.len() {
            return Err(PageError::Corrupt("slot length outside page".to_owned()));
        }
        let offset = crate::le::read16(bytes, slot_off) as usize;
        let len = crate::le::read16(bytes, slot_off + 2) as usize;
        let end = offset + len;
        if offset < self.page.free_end() as usize || end > PAGE_SIZE {
            return Err(PageError::Corrupt("slot points outside tuple area".to_owned()));
        }
        Ok(vstd::slice::slice_subrange(bytes, offset, end))
    }
}

/// The slot directory runs from the header to the free-start offset, one
/// entry per slot, and the free space lies within the page. Every page this
/// library writes keeps it.
pub open spec fn directory_consistent(s: Seq<u8>) -> bool {
    &&& hdr_free_start(s) == PAGE_HEADER_SIZE + SLOT_SIZE * hdr_slot_count(s)
    &&& hdr_free_start(s) <= hdr_free_end(s) <= PAGE_SIZE
}

/// Placing a tuple, and recording it in the directory, on a page with a
/// consistent directory leaves the page LSN alone.
pub proof fn lemma_insert_keeps_lsn(s: Seq<u8>, data: Seq<u8>)
    requires
        s.len() == PAGE_SIZE,
        directory_consistent(s),
        data.len() <= u16::MAX,
        !lacks_free_space(s, data.len() as int),
    ensures
        hdr_lsn(with_tuple(s, data)) == hdr_lsn(s),
        !directory_collides(s, data.len() as int) ==> hdr_lsn(inserted_image(s, data)) == hdr_lsn(s),
{
    let lo = OFF_PAGE_LSN as int;
    let hi = OFF_PAGE_LSN + 8;
    let len = data.len() as int;
    let ts = tuple_start(s, len);
    let off = slot_entry_off(hdr_slot_count(s) as int);
    let s1 = with_tuple(s, data);
    lemma_splice_subrange(s, ts, data, lo, hi);
    if !directory_collides(s, len) {
        lemma_le_roundtrip();
        let s2 = splice(s1, off, le16(ts as u16));
        let s3 = splice(s2, off + 2, le16(len as u16));
        let s4 = splice(s3, OFF_SLOT_COUNT as int, le16((hdr_slot_count(s) + 1) as u16));
        let s5 = splice(s4, OFF_FREE_START as int, le16((hdr_free_start(s) + SLOT_SIZE) as u16));
        lemma_splice_subrange(s1, off, le16(ts as u16), lo, hi);
        lemma_splice_subrange(s2, off + 2, le16(len as u16), lo, hi);
        lemma_splice_subrange(s3, OFF_SLOT_COUNT as int, le16((hdr_slot_count(s) + 1) as u16), lo, hi);
        lemma_splice_subrange(s4, OFF_FREE_START as int, le16((hdr_free_start(s) + SLOT_SIZE) as u16), lo, hi);
        lemma_splice_subrange(s5, OFF_FREE_END as int, le16(ts as u16), lo, hi);
    }
}

/// Every tuple readable in `a` reads the same in `b`.
pub open spec fn keeps_slots(a: Seq<u8>, b: Seq<u8>) -> bool {
    forall|o: int| #[trigger] slot_read(a, o) is Some ==> slot_read(b, o) == slot_read(a, o)
}

/// A consistent directory has room for the new entry whenever the free
/// space holds the entry and the tuple.
pub proof fn lemma_consistent_never_collides(s: Seq<u8>, len: int)
    requires
        directory_consistent(s),
        !lacks_free_space(s, len),
    ensures
        !directory_collides(s, len),
{
}

/// Rewriting header bytes `lo..hi` that lie apart from the slot-count and
/// free-space fields keeps the directory and every readable tuple.
pub proof fn lemma_header_rewrite_keeps(s: Seq<u8>, off: int, b: Seq<u8>)
    requires
        s.len() == PAGE_SIZE,
        directory_consistent(s),
        OFF_FREE_END + 2 <= off,
        off + b.len() <= PAGE_HEADER_SIZE,
    ensures
        directory_consistent(splice(s, off, b)),
        keeps_slots(s, splice(s, off, b)),
        splice(s, off, b).len() == PAGE_SIZE,
{
    let t = splice(s, off, b);
    lemma_splice_subrange(s, off, b, OFF_SLOT_COUNT as int, OFF_SLOT_COUNT + 2);
    lemma_splice_subrange(s, off, b, OFF_FREE_START as int, OFF_FREE_START + 2);
    lemma_splice_subrange(s, off, b, OFF_FREE_END as int, OFF_FREE_END + 2);
    assert forall|o: int| #[trigger] slot_read(s, o) is Some implies slot_read(t, o) == slot_read(s, o) by {
        let e = slot_entry_off(o);
        lemma_splice_subrange(s, off, b, e, e + 2);
        lemma_splice_subrange(s, off, b, e + 2, e + 4);
        let to = slot_tuple_off(s, o) as int;
        let lo = slot_tuple_len(s, o) as int;
        lemma_splice_subrange(s, off, b, to, to + lo);
    }
}

/// Rewriting header bytes past the slot-count and free-space fields keeps
/// those fields.
pub proof fn lemma_header_rewrite_keeps_fields(s: Seq<u8>, off: int, b: Seq<u8>)
    requires
        s.len() == PAGE_SIZE,
        OFF_FREE_END + 2 <= off,
        off + b.len() <= PAGE_HEADER_SIZE,
    ensures
        hdr_slot_count(splice(s, off, b)) == hdr_slot_count(s),
        hdr_free_start(splice(s, off, b)) == hdr_free_start(s),
        hdr_free_end(splice(s, off, b)) == hdr_free_end(s),
{
    lemma_splice_subrange(s, off, b, OFF_SLOT_COUNT as int, OFF_SLOT_COUNT + 2);
    lemma_splice_subrange(s, off, b, OFF_FREE_START as int, OFF_FREE_START + 2);
    lemma_splice_subrange(s, off, b, OFF_FREE_END as int, OFF_FREE_END + 2);
}

/// A successful insert keeps the directory consistent and every tuple that
/// was readable before it.
pub proof fn lemma_insert_keeps(s: Seq<u8>, data: Seq<u8>)
    requires
        s.len() == PAGE_SIZE,
        directory_consistent(s),
        data.len() <= u16::MAX,
        !insert_overruns(s, data.len() as int),
        !lacks_free_space(s, data.len() as int),
    ensures
        directory_consistent(inserted_image(s, data)),
        keeps_slots(s, inserted_image(s, data)),
        inserted_image(s, data).len() == PAGE_SIZE,
{
    lemma_le_roundtrip();
    let len = data.len() as int;
    let sc = hdr_slot_count(s) as int;
    let ts = tuple_start(s, len);
    let off = slot_entry_off(sc);
    let s1 = with_tuple(s, data);
    let s2 = splice(s1, off, le16(ts as u16));
    let s3 = splice(s2, off + 2, le16(len as u16));
    let s4 = splice(s3, OFF_SLOT_COUNT as int, le16((sc + 1) as u16));
    let s5 = splice(s4, OFF_FREE_START as int, le16((hdr_free_start(s) + SLOT_SIZE) as u16));
    let t = splice(s5, OFF_FREE_END as int, le16(ts as u16));
    assert(t == inserted_image(s, data));
    lemma_inserted_slot_reads(s, data);
    lemma_splice_subrange(s3, OFF_SLOT_COUNT as int, le16((sc + 1) as u16), 6, 8);
    lemma_splice_subrange(s4, OFF_FREE_START as int, le16((hdr_free_start(s) + SLOT_SIZE) as u16), 6, 8);
    lemma_splice_subrange(s5, OFF_FREE_END as int, le16(ts as u16), 6, 8);
    lemma_splice_subrange(s4, OFF_FREE_START as int, le16((hdr_free_start(s) + SLOT_SIZE) as u16), 8, 10);
    lemma_splice_subrange(s5, OFF_FREE_END as int, le16(ts as u16), 8, 10);
    lemma_splice_subrange(s5, OFF_FREE_END as int, le16(ts as u16), 10, 12);
    assert(hdr_slot_count(t) == sc + 1);
    assert(hdr_free_start(t) == hdr_free_start(s) + SLOT_SIZE);
    assert(hdr_free_end(t) == ts);
    assert forall|o: int| #[trigger] slot_read(s, o) is Some implies slot_read(t, o) == slot_read(s, o) by {
        lemma_insert_then_read(s, data, o);
    }
}

/// After a successful insert of `data`, the new slot holds exactly `data`,
/// and its directory entry and tuple lie past the page header.
pub proof fn lemma_inserted_slot_reads(s: Seq<u8>, data: Seq<u8>)
    requires
        s.len() == PAGE_SIZE,
        data.len() <= u16::MAX,
        !insert_overruns(s, data.len() as int),
        !lacks_free_space(s, data.len() as int),
        !directory_collides(s, data.len() as int),
    ensures
        slot_read(inserted_image(s, data), hdr_slot_count(s) as int) == Some(data),
        inserted_image(s, data).len() == PAGE_SIZE,
        slot_tuple_off(inserted_image(s, data), hdr_slot_count(s) as int) >= PAGE_HEADER_SIZE + SLOT_SIZE,
{
    lemma_le_roundtrip();
    let len = data.len() as int;
    let sc = hdr_slot_count(s) as int;
    let ts = tuple_start(s, len);
    let off = slot_entry_off(sc);
    let fe = hdr_free_end(s) as int;
    let s1 = with_tuple(s, data);
    let s2 = splice(s1, off, le16(ts as u16));
    let s3 = splice(s2, off + 2, le16(len as u16));
    let s4 = splice(s3, OFF_SLOT_COUNT as int, le16((sc + 1) as u16));
    let s5 = splice(s4, OFF_FREE_START as int, le16((hdr_free_start(s) + SLOT_SIZE) as u16));
    let t = splice(s5, OFF_FREE_END as int, le16(ts as u16));
    assert(t == inserted_image(s, data));
    assert(fe <= PAGE_SIZE);
    assert(off + SLOT_SIZE <= ts);
    // header fields of the new image
    lemma_splice_subrange(s4, OFF_FREE_START as int, le16((hdr_free_start(s) + SLOT_SIZE) as u16), 6, 8);
    lemma_splice_subrange(s5, OFF_FREE_END as int, le16(ts as u16), 6, 8);
    lemma_splice_subrange(s3, OFF_SLOT_COUNT as int, le16((sc + 1) as u16), 6, 8);
    assert(hdr_slot_count(t) == sc + 1);
    lemma_splice_subrange(s5, OFF_FREE_END as int, le16(ts as u16), 10, 12);
    assert(hdr_free_end(t) == ts);
    // the new directory entry
    lemma_splice_subrange(s1, off, le16(ts as u16), off, off + 2);
    lemma_splice_subrange(s2, off + 2, le16(len as u16), off, off + 2);
    lemma_splice_subrange(s3, OFF_SLOT_COUNT as int, le16((sc + 1) as u16), off, off + 2);
    lemma_splice_subrange(s4, OFF_FREE_START as int, le16((hdr_free_start(s) + SLOT_SIZE) as u16), off, off + 2);
    lemma_splice_subrange(s5, OFF_FREE_END as int, le16(ts as u16), off, off + 2);
    lemma_splice_subrange(s2, off + 2, le16(len as u16), off + 2, off + 4);
    lemma_splice_subrange(s3, OFF_SLOT_COUNT as int, le16((sc + 1) as u16), off + 2, off + 4);
    lemma_splice_subrange(s4, OFF_FREE_START as int, le16((hdr_free_start(s) + SLOT_SIZE) as u16), off + 2, off + 4);
    lemma_splice_subrange(s5, OFF_FREE_END as int, le16(ts as u16), off + 2, off + 4);
    assert(slot_tuple_off(t, sc) == ts);
    assert(slot_tuple_len(t, sc) == len);
    // the new tuple bytes
    lemma_splice_subrange(s, ts, data, ts, ts + len);
    lemma_splice_subrange(s1, off, le16(ts as u16), ts, ts + len);
    lemma_splice_subrange(s2, off + 2, le16(len as u16), ts, ts + len);
    lemma_splice_subrange(s3, OFF_SLOT_COUNT as int, le16((sc + 1) as u16), ts, ts + len);
    lemma_splice_subrange(s4, OFF_FREE_START as int, le16((hdr_free_start(s) + SLOT_SIZE) as u16), ts, ts + len);
    lemma_splice_subrange(s5, OFF_FREE_END as int, le16(ts as u16), ts, ts + len);
    assert(t.subrange(ts, ts + len) == data);
}

/// Reading back a tuple gives what insert wrote, and every tuple that was
/// readable before the insert reads back unchanged: after a successful insert
/// of `data`, the new slot holds exactly `data`, and any other slot whose read
/// succeeded before returns the same bytes afterwards.
pub proof fn lemma_insert_then_read(s: Seq<u8>, data: Seq<u8>, other: int)
    requires
        s.len() == PAGE_SIZE,
        data.len() <= u16::MAX,
        !insert_overruns(s, data.len() as int),
        !lacks_free_space(s, data.len() as int),
        !directory_collides(s, data.len() as int),
        other != hdr_slot_count(s),
        slot_read(s, other) is Some,
    ensures
        slot_read(inserted_image(s, data), hdr_slot_count(s) as int) == Some(data),
        slot_read(inserted_image(s, data), other) == slot_read(s, other),
{
    lemma_le_roundtrip();
    let len = data.len() as int;
    let sc = hdr_slot_count(s) as int;
    let ts = tuple_start(s, len);
    let off = slot_entry_off(sc);
    let fe = hdr_free_end(s) as int;
    let s1 = with_tuple(s, data);
    let s2 = splice(s1, off, le16(ts as u16));
    let s3 = splice(s2, off + 2, le16(len as u16));
    let s4 = splice(s3, OFF_SLOT_COUNT as int, le16((sc + 1) as u16));
    let s5 = splice(s4, OFF_FREE_START as int, le16((hdr_free_start(s) + SLOT_SIZE) as u16));
    let t = splice(s5, OFF_FREE_END as int, le16(ts as u16));
    assert(t == inserted_image(s, data));
    assert(fe <= PAGE_SIZE);
    assert(off + SLOT_SIZE <= ts);
    // header fields of the new image
    lemma_splice_subrange(s4, OFF_FREE_START as int, le16((hdr_free_start(s) + SLOT_SIZE) as u16), 6, 8);
    lemma_splice_subrange(s5, OFF_FREE_END as int, le16(ts as u16), 6, 8);
    lemma_splice_subrange(s3, OFF_SLOT_COUNT as int, le16((sc + 1) as u16), 6, 8);
    assert(hdr_slot_count(t) == sc + 1);
    lemma_splice_subrange(s5, OFF_FREE_END as int, le16(ts as u16), 10, 12);
    assert(hdr_free_end(t) == ts);
    // the new directory entry
    lemma_splice_subrange(s1, off, le16(ts as u16), off, off + 2);
    lemma_splice_subrange(s2, off + 2, le16(len as u16), off, off + 2);
    lemma_splice_subrange(s3, OFF_SLOT_COUNT as int, le16((sc + 1) as u16), off, off + 2);
    lemma_splice_subrange(s4, OFF_FREE_START as int, le16((hdr_free_start(s) + SLOT_SIZE) as u16), off, off + 2);
    lemma_splice_subrange(s5, OFF_FREE_END as int, le16(ts as u16), off, off + 2);
    lemma_splice_subrange(s2, off + 2, le16(len as u16), off + 2, off + 4);
    lemma_splice_subrange(s3, OFF_SLOT_COUNT as int, le16((sc + 1) as u16), off + 2, off + 4);
    lemma_splice_subrange(s4, OFF_FREE_START as int, le16((hdr_free_start(s) + SLOT_SIZE) as u16), off + 2, off + 4);
    lemma_splice_subrange(s5, OFF_FREE_END as int, le16(ts as u16), off + 2, off + 4);
    assert(slot_tuple_off(t, sc) == ts);
    assert(slot_tuple_len(t, sc) == len);
    // the new tuple bytes
    lemma_splice_subrange(s, ts, data, ts, ts + len);
    lemma_splice_subrange(s1, off, le16(ts as u16), ts, ts + len);
    lemma_splice_subrange(s2, off + 2, le16(len as u16), ts, ts + len);
    lemma_splice_subrange(s3, OFF_SLOT_COUNT as int, le16((sc + 1) as u16), ts, ts + len);
    lemma_splice_subrange(s4, OFF_FREE_START as int, le16((hdr_free_start(s) + SLOT_SIZE) as u16), ts, ts + len);
    lemma_splice_subrange(s5, OFF_FREE_END as int, le16(ts as u16), ts, ts + len);
    assert(t.subrange(ts, ts + len) == data);
    // an older readable slot
    let o = other;
    let eo = slot_entry_off(o);
    let to = slot_tuple_off(s, o) as int;
    let lo = slot_tuple_len(s, o) as int;
    assert(0 <= o < sc);
    assert(eo + SLOT_SIZE <= off);
    lemma_splice_subrange(s, ts, data, eo, eo + 2);
    lemma_splice_subrange(s1, off, le16(ts as u16), eo, eo + 2);
    lemma_splice_subrange(s2, off + 2, le16(len as u16), eo, eo + 2);
    lemma_splice_subrange(s3, OFF_SLOT_COUNT as int, le16((sc + 1) as u16), eo, eo + 2);
    lemma_splice_subrange(s4, OFF_FREE_START as int, le16((hdr_free_start(s) + SLOT_SIZE) as u16), eo, eo + 2);
    lemma_splice_subrange(s5, OFF_FREE_END as int, le16(ts as u16), eo, eo + 2);
    lemma_splice_subrange(s, ts, data, eo + 2, eo + 4);
    lemma_splice_subrange(s1, off, le16(ts as u16), eo + 2, eo + 4);
    lemma_splice_subrange(s2, off + 2, le16(len as u16), eo + 2, eo + 4);
    lemma_splice_subrange(s3, OFF_SLOT_COUNT as int, le16((sc + 1) as u16), eo + 2, eo + 4);
    lemma_splice_subrange(s4, OFF_FREE_START as int, le16((hdr_free_start(s) + SLOT_SIZE) as u16), eo + 2, eo + 4);
    lemma_splice_subrange(s5, OFF_FREE_END as int, le16(ts as u16), eo + 2, eo + 4);
    assert(slot_tuple_off(t, o) == to);
    assert(slot_tuple_len(t, o) == lo);
    assert(to >= fe);
    lemma_splice_subrange(s, ts, data, to, to + lo);
    lemma_splice_subrange(s1, off, le16(ts as u16), to, to + lo);
    lemma_splice_subrange(s2, off + 2, le16(len as u16), to, to + lo);
    lemma_splice_subrange(s3, OFF_SLOT_COUNT as int, le16((sc + 1) as u16), to, to + lo);
    lemma_splice_subrange(s4, OFF_FREE_START as int, le16((hdr_free_start(s) + SLOT_SIZE) as u16), to, to + lo);
    lemma_splice_subrange(s5, OFF_FREE_END as int, le16(ts as u16), to, to + lo);
}

} // verus!
