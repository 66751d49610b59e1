//! Append-oriented heap of serialized row records in slotted pages.
use vstd::prelude::*;
use crate::buffer::buffer_pool::BufferPool;
use crate::buffer::page_store::PageStore;
use crate::ids::{Lsn, PageId, RowLocation};
use crate::le::{le64, lemma_le_roundtrip, lemma_splice_subrange};
use crate::page::{
    fresh_image, hdr_free_end, hdr_free_start, hdr_slot_count, lemma_fresh_image_fields,
    hdr_lsn, lemma_sealed_idempotent, lemma_sealed_keeps_lsn, lemma_sealed_unchanged_outside, sealed_image, slot_entry_off, stamped_since,
    slot_tuple_len, slot_tuple_off, PageError, PageKind, OFF_PAGE_LSN, PAGE_HEADER_SIZE, PAGE_SIZE,
};
use crate::slotted::{
    directory_collides, directory_consistent, insert_overruns, keeps_slots, lacks_free_space,
    lemma_consistent_never_collides, lemma_header_rewrite_keeps, lemma_header_rewrite_keeps_fields,
    lemma_insert_keeps, lemma_insert_keeps_lsn, lemma_inserted_slot_reads, slot_read, SlottedPage, SLOT_SIZE,
};
use crate::storage::error::StorageError;

verus! {

/// `data` is what the tuple at `loc` reads as, in every page image that seals
/// to the stored image of its page. (Sealing rewrites the format-version and
/// checksum fields; a tuple that a reader finds is the same whichever of
/// those images it reads.)
pub open spec fn heap_holds(c: Map<u64, Seq<u8>>, loc: RowLocation, data: Seq<u8>) -> bool {
    &&& c.contains_key(loc.page_id.0)
    &&& forall|x: Seq<u8>| x.len() == PAGE_SIZE && #[trigger] sealed_image(x) == c[loc.page_id.0] ==> slot_read(x, loc.slot_id as int) == Some(data)
}

/// Two images that seal alike read alike at a slot whose tuple lies past the
/// sealed header fields.
pub proof fn lemma_slot_read_sealed(x: Seq<u8>, y: Seq<u8>, slot: int)
    requires
        x.len() == PAGE_SIZE,
        y.len() == PAGE_SIZE,
        sealed_image(x) == sealed_image(y),
        0 <= slot,
        slot_entry_off(slot) + SLOT_SIZE <= PAGE_SIZE,
        slot_tuple_off(y, slot) >= 28,
        slot_tuple_off(y, slot) + slot_tuple_len(y, slot) <= PAGE_SIZE,
    ensures
        slot_read(x, slot) == slot_read(y, slot),
{
    let e = slot_entry_off(slot);
    lemma_sealed_unchanged_outside(x, 6, 8);
    lemma_sealed_unchanged_outside(y, 6, 8);
    lemma_sealed_unchanged_outside(x, 10, 12);
    lemma_sealed_unchanged_outside(y, 10, 12);
    lemma_sealed_unchanged_outside(x, e, e + 2);
    lemma_sealed_unchanged_outside(y, e, e + 2);
    lemma_sealed_unchanged_outside(x, e + 2, e + 4);
    lemma_sealed_unchanged_outside(y, e + 2, e + 4);
    assert(hdr_slot_count(x) == hdr_slot_count(y));
    assert(hdr_free_end(x) == hdr_free_end(y));
    assert(slot_tuple_off(x, slot) == slot_tuple_off(y, slot));
    assert(slot_tuple_len(x, slot) == slot_tuple_len(y, slot));
    let o = slot_tuple_off(y, slot) as int;
    let l = slot_tuple_len(y, slot) as int;
    lemma_sealed_unchanged_outside(x, o, o + l);
    lemma_sealed_unchanged_outside(y, o, o + l);
}

/// Sealing keeps the slot count and the free-space bounds.
pub proof fn lemma_sealed_directory(x: Seq<u8>)
    requires
        x.len() == PAGE_SIZE,
    ensures
        sealed_image(x).len() == PAGE_SIZE,
        hdr_slot_count(sealed_image(x)) == hdr_slot_count(x),
        hdr_free_start(sealed_image(x)) == hdr_free_start(x),
        hdr_free_end(sealed_image(x)) == hdr_free_end(x),
        directory_consistent(sealed_image(x)) == directory_consistent(x),
{
    lemma_sealed_idempotent(x);
    lemma_sealed_unchanged_outside(x, 6, 8);
    lemma_sealed_unchanged_outside(x, 8, 10);
    lemma_sealed_unchanged_outside(x, 10, 12);
}

/// A page rewritten from `p0` to `after`, keeping every readable tuple and a
/// consistent directory, still holds at `slot` what the sealed image of
/// `p0` held there.
pub proof fn lemma_rewrite_keeps_holds(p0: Seq<u8>, after: Seq<u8>, slot: int, d: Seq<u8>)
    requires
        p0.len() == PAGE_SIZE,
        after.len() == PAGE_SIZE,
        keeps_slots(p0, after),
        directory_consistent(after),
        forall|x: Seq<u8>| x.len() == PAGE_SIZE && #[trigger] sealed_image(x) == sealed_image(p0) ==> slot_read(x, slot) == Some(d),
    ensures
        forall|x: Seq<u8>| x.len() == PAGE_SIZE && #[trigger] sealed_image(x) == sealed_image(after) ==> slot_read(x, slot) == Some(d),
{
    assert(sealed_image(p0) == sealed_image(p0));
    assert(slot_read(p0, slot) == Some(d));
    assert(slot_read(after, slot) == Some(d));
    assert forall|x: Seq<u8>| x.len() == PAGE_SIZE && #[trigger] sealed_image(x) == sealed_image(after) implies slot_read(x, slot) == Some(d) by {
        lemma_slot_read_sealed(x, after, slot);
    }
}

/// Stores serialized row records in append-oriented slotted heap pages.
pub struct HeapFile<S: PageStore> {
    pool: BufferPool<S>,
}

impl<S: PageStore> HeapFile<S> {
    /// The page images of the heap's page file.
    pub closed spec fn content(&self) -> Map<u64, Seq<u8>> {
        self.pool.content()
    }

    /// The number of pages of the heap's page file.
    pub closed spec fn page_total(&self) -> nat {
        self.pool.stored().len()
    }

    /// The page store holds what the heap's pages contain: nothing is
    /// waiting in the buffer pool to be written.
    pub closed spec fn durable(&self) -> bool {
        self.pool.persisted()
    }

    /// The last page exists and has room for a tuple of `len` bytes and its
    /// directory entry, within the page.
    pub open spec fn last_page_takes(&self, len: int) -> bool {
        let img = self.content()[(self.page_total() - 1) as u64];
        &&& self.page_total() > 0
        &&& len <= u16::MAX
        &&& !lacks_free_space(img, len)
        &&& !directory_collides(img, len)
        &&& !insert_overruns(img, len)
    }

    /// Page `id` is held in the buffer pool, so that reading it does not
    /// reach the page store.
    pub closed spec fn cached(&self, id: u64) -> bool {
        self.pool.cached(id)
    }

    /// The buffer pool under the heap is consistent.
    pub closed spec fn inv(&self) -> bool {
        self.pool.inv()
    }

    /// The pages with content are exactly the pages of the page file.
    pub proof fn lemma_content_dom(&self)
        requires
            self.inv(),
        ensures
            forall|id: u64| #[trigger] self.content().contains_key(id) <==> id < self.page_total(),
    {
        self.pool.lemma_content_dom();
    }

    /// A heap over the pages of `pool`.
    pub fn new(pool: BufferPool<S>) -> (r: Self)
        requires
            pool.inv(),
        ensures
            r.inv(),
            r.content() == pool.content(),
            r.page_total() == pool.stored().len(),
    {
        Self { pool }
    }

    /// Every page of the heap has a consistent slot directory.
    pub open spec fn pages_consistent(&self) -> bool {
        forall|id: u64| id < self.page_total() ==> directory_consistent(#[trigger] self.content()[id])
    }

    /// Inserts one tuple on the last page, or on a new heap page when the
    /// last page is full, stamping the page with `lsn`. Every tuple stored
    /// before, on a page with a consistent directory, stays readable.
    pub fn insert(&mut self, bytes: &[u8], lsn: Lsn) -> (r: Result<RowLocation, StorageError>)
        requires
            old(self).inv(),
        ensures
            final(self).inv(),
            r is Ok && old(self).pages_consistent() ==> stamped_since(old(self).content(), final(self).content(), lsn.0),
            r matches Ok(loc) ==> if old(self).last_page_takes(bytes@.len() as int) {
                loc.page_id.0 + 1 == old(self).page_total()
            } else {
                loc.page_id.0 == old(self).page_total()
            },
            r matches Ok(loc) ==> {
                &&& heap_holds(final(self).content(), loc, bytes@)
                &&& final(self).page_total() >= old(self).page_total()
                &&& forall|id: u64| #![trigger final(self).content()[id]]
                    id + 1 < old(self).page_total() ==> final(self).content()[id] == old(self).content()[id]
                &&& forall|l: RowLocation, d: Seq<u8>| #[trigger] heap_holds(old(self).content(), l, d)
                    && directory_consistent(old(self).content()[l.page_id.0]) ==> heap_holds(final(self).content(), l, d)
                &&& old(self).pages_consistent() ==> final(self).pages_consistent()
            },
            ({
                let len = bytes@.len() as int;
                let room = PAGE_SIZE - PAGE_HEADER_SIZE - SLOT_SIZE;
                let last_ok = old(self).page_total() == 0
                    || !insert_overruns(old(self).content()[(old(self).page_total() - 1) as u64], len);
                &&& r is Ok ==> len <= room
                &&& len <= room && last_ok ==> (r is Ok || r->Err_0 is Buffer)
                &&& r matches Err(e) ==> match e {
                    StorageError::Buffer(_) => true,
                    StorageError::Page(PageError::Full) => room < len <= u16::MAX,
                    StorageError::Page(PageError::PayloadTooLarge(n)) => n == len && len > u16::MAX,
                    StorageError::Page(PageError::Corrupt(_)) => !last_ok,
                    _ => false,
                }
            }),
    {
        let ghost c0 = self.content();
        let count = match self.pool.page_count() {
            Ok(n) => n,
            Err(e) => return Err(StorageError::Buffer(e)),
        };
        proof {
            self.pool.lemma_content_dom();
        }
        if count > 0 {
            let page_id = PageId(count - 1);
            let result = self.insert_on(page_id, bytes, lsn);
            proof {
                if result is Ok || result matches Err(StorageError::Page(PageError::Full)) {
                    self.lemma_kept_after(c0, page_id.0);
                    if old(self).pages_consistent() {
                        assert(directory_consistent(c0[page_id.0]));
                        let c = self.content();
                        assert forall|id: u64| #[trigger] c.contains_key(id) && !(c0.contains_key(id) && c[id] == c0[id])
                            implies hdr_lsn(c[id]) == lsn.0 by {
                            if id != page_id.0 {
                                assert(c[id] == c0[id]);
                            }
                        }
                    }
                }
            }
            match result {
                Ok(slot_id) => return Ok(RowLocation { page_id, slot_id }),
                Err(StorageError::Page(PageError::Full)) => {},
                Err(e) => return Err(e),
            }
        }
        let ghost c1 = self.content();
        let page_id = match self.pool.allocate_page(PageKind::Heap) {
            Ok(id) => id,
            Err(e) => return Err(StorageError::Buffer(e)),
        };
        let ghost c2 = self.content();
        proof {
            self.pool.lemma_content_dom();
            lemma_fresh_image_fields(PageKind::Heap);
            lemma_sealed_directory(fresh_image(PageKind::Heap));
            assert forall|l: RowLocation, d: Seq<u8>| #[trigger] heap_holds(c1, l, d) implies heap_holds(c2, l, d) by {
                assert(c2[l.page_id.0] == c1[l.page_id.0]);
            }
        }
        let slot_id = self.insert_on(page_id, bytes, lsn)?;
        proof {
            self.lemma_kept_after(c2, page_id.0);
            if old(self).pages_consistent() {
                let c = self.content();
                assert(stamped_since(c0, c1, lsn.0));
                assert forall|id: u64| #[trigger] c.contains_key(id) && !(c0.contains_key(id) && c[id] == c0[id])
                    implies hdr_lsn(c[id]) == lsn.0 by {
                    if id != page_id.0 {
                        assert(c[id] == c1[id]);
                        assert(c1.contains_key(id));
                    }
                }
            }
        }
        Ok(RowLocation { page_id, slot_id })
    }

    /// What `insert_on` keeps, stated of every page: a tuple held on a page
    /// with a consistent directory stays held, and consistent pages stay so.
    proof fn lemma_kept_after(&self, c0: Map<u64, Seq<u8>>, page: u64)
        requires
            c0.contains_key(page),
            self.content() == c0.insert(page, self.content()[page]),
            directory_consistent(c0[page]) ==> {
                &&& directory_consistent(self.content()[page])
                &&& forall|loc: RowLocation, d: Seq<u8>| #[trigger] heap_holds(c0, loc, d) ==> heap_holds(self.content(), loc, d)
            },
        ensures
            forall|l: RowLocation, d: Seq<u8>| #[trigger] heap_holds(c0, l, d) && directory_consistent(c0[l.page_id.0])
                ==> heap_holds(self.content(), l, d),
            forall|id: u64| c0.contains_key(id) && directory_consistent(c0[id]) ==> directory_consistent(#[trigger] self.content()[id]),
    {
        assert forall|l: RowLocation, d: Seq<u8>| #[trigger] heap_holds(c0, l, d) && directory_consistent(c0[l.page_id.0])
            implies heap_holds(self.content(), l, d) by {
            if l.page_id.0 != page {
                assert(self.content()[l.page_id.0] == c0[l.page_id.0]);
            }
        }
    }

    /// Stamps page `page_id` with `lsn` and inserts the tuple into it; the
    /// page is written back whether or not the tuple fits.
    fn insert_on(&mut self, page_id: PageId, bytes: &[u8], lsn: Lsn) -> (r: Result<u16, StorageError>)
        requires
            old(self).inv(),
        ensures
            final(self).inv(),
            (r is Ok || r matches Err(StorageError::Page(PageError::Full))) ==> {
                &&& final(self).page_total() == old(self).page_total()
                &&& old(self).content().contains_key(page_id.0)
                &&& final(self).content() == old(self).content().insert(page_id.0, final(self).content()[page_id.0])
            },
            r matches Ok(slot) ==> heap_holds(final(self).content(), RowLocation { page_id, slot_id: slot }, bytes@),
            (r is Ok || r matches Err(StorageError::Page(PageError::Full))) && directory_consistent(old(self).content()[page_id.0]) ==> {
                &&& hdr_lsn(final(self).content()[page_id.0]) == lsn.0
                &&& directory_consistent(final(self).content()[page_id.0])
                &&& forall|loc: RowLocation, d: Seq<u8>| #[trigger] heap_holds(old(self).content(), loc, d) ==> heap_holds(final(self).content(), loc, d)
            },
            ({
                let img = old(self).content()[page_id.0];
                let len = bytes@.len() as int;
                match r {
                    Ok(_) => len <= u16::MAX && !lacks_free_space(img, len) && !directory_collides(img, len) && !insert_overruns(img, len),
                    Err(StorageError::Buffer(_)) => true,
                    Err(StorageError::Page(PageError::Full)) => len <= u16::MAX && !insert_overruns(img, len)
                        && (lacks_free_space(img, len) || directory_collides(img, len)),
                    Err(StorageError::Page(PageError::PayloadTooLarge(n))) => n == len && len > u16::MAX,
                    Err(StorageError::Page(PageError::Corrupt(_))) => insert_overruns(img, len),
                    Err(_) => false,
                }
            }),
    {
        let mut page = match self.pool.read(page_id) {
            Ok(p) => p,
            Err(e) => return Err(StorageError::Buffer(e)),
        };
        let ghost p0 = page@;
        page.set_page_lsn(lsn);
        proof {
            lemma_sealed_directory(p0);
            lemma_le_roundtrip();
            lemma_header_rewrite_keeps_fields(p0, OFF_PAGE_LSN as int, le64(lsn.0));
        }
        let free_start = page.free_start() as usize;
        let free_end = page.free_end() as usize;
        if bytes.len() <= 65535 && free_start <= free_end && free_end - free_start >= SLOT_SIZE + bytes.len() && free_end > PAGE_SIZE {
            return Err(StorageError::Page(PageError::Corrupt("page free space extends past the page".to_owned())));
        }
        let ghost before = page@;
        let mut slotted = SlottedPage::new(page);
        let result = slotted.insert(bytes);
        let page = slotted.into_page();
        let ghost after = page@;
        match self.pool.write(page) {
            Ok(()) => {},
            Err(e) => return Err(StorageError::Buffer(e)),
        }
        proof {
            let c = self.content();
            let len = bytes@.len() as int;
            if (result is Ok || result matches Err(PageError::Full)) && directory_consistent(old(self).content()[page_id.0]) {
                lemma_sealed_directory(p0);
                lemma_le_roundtrip();
                lemma_header_rewrite_keeps(p0, OFF_PAGE_LSN as int, le64(lsn.0));
                if result is Ok {
                    lemma_insert_keeps(before, bytes@);
                } else if !lacks_free_space(before, len) {
                    lemma_consistent_never_collides(before, len);
                }
                lemma_splice_subrange(p0, OFF_PAGE_LSN as int, le64(lsn.0), OFF_PAGE_LSN as int, OFF_PAGE_LSN + 8);
                assert(hdr_lsn(before) == lsn.0);
                if !lacks_free_space(before, len) {
                    lemma_insert_keeps_lsn(before, bytes@);
                }
                assert(hdr_lsn(after) == lsn.0);
                lemma_sealed_keeps_lsn(after);
                assert(keeps_slots(p0, after));
                lemma_sealed_directory(after);
                assert forall|loc: RowLocation, d: Seq<u8>| #[trigger] heap_holds(old(self).content(), loc, d) implies heap_holds(c, loc, d) by {
                    if loc.page_id == page_id {
                        lemma_rewrite_keeps_holds(p0, after, loc.slot_id as int, d);
                    }
                }
            }
        }
        match result {
            Ok(slot_id) => {
                proof {
                    lemma_inserted_slot_reads(before, bytes@);
                    let c = self.content();
                    assert forall|x: Seq<u8>| x.len() == PAGE_SIZE && #[trigger] sealed_image(x) == c[page_id.0] implies slot_read(x, slot_id as int) == Some(bytes@) by {
                        lemma_slot_read_sealed(x, after, slot_id as int);
                    }
                }
                Ok(slot_id)
            },
            Err(e) => Err(StorageError::Page(e)),
        }
    }

    /// Returns a copy of the tuple at `location`.
    pub fn read(&mut self, location: RowLocation) -> (r: Result<Vec<u8>, StorageError>)
        requires
            old(self).inv(),
        ensures
            final(self).inv(),
            !(r matches Err(StorageError::Buffer(_))) ==> {
                &&& final(self).content() == old(self).content()
                &&& final(self).page_total() == old(self).page_total()
            },
            r matches Ok(v) ==> exists|x: Seq<u8>| x.len() == PAGE_SIZE && #[trigger] sealed_image(x) == old(self).content()[location.page_id.0]
                && slot_read(x, location.slot_id as int) == Some(v@),
            forall|d: Seq<u8>| #[trigger] heap_holds(old(self).content(), location, d) ==> match r {
                Ok(v) => v@ == d,
                Err(e) => e is Buffer,
            },
            forall|d: Seq<u8>| #[trigger] heap_holds(old(self).content(), location, d) && old(self).cached(location.page_id.0)
                ==> (r matches Ok(v) && v@ == d),
            r matches Err(e) ==> e is Buffer || e is Page,
    {
        let page = match self.pool.read(location.page_id) {
            Ok(p) => p,
            Err(e) => return Err(StorageError::Buffer(e)),
        };
        let slotted = SlottedPage::new(page);
        match slotted.get(location.slot_id) {
            Ok(b) => Ok(vstd::slice::slice_to_vec(b)),
            Err(e) => Err(StorageError::Page(e)),
        }
    }

    /// Flushes dirty pages to the page store and synchronizes it.
    pub fn flush(&mut self) -> (r: Result<(), StorageError>)
        requires
            old(self).inv(),
        ensures
            final(self).inv(),
            r is Ok ==> final(self).content() == old(self).content() && final(self).page_total() == old(self).page_total()
                && final(self).durable(),
    {
        match self.pool.flush_all() {
            Ok(()) => Ok(()),
            Err(e) => Err(StorageError::Buffer(e)),
        }
    }
}

} // verus!
