//! The latest committed record of each row, persisted as encoded records in
//! a heap file and indexed by row id in a B+Tree.
use vstd::prelude::*;
use crate::btree::tree::{written_since, BTree};
use crate::buffer::page_store::PageStore;
use crate::ids::{Lsn, PageId, RowId, RowLocation};
use crate::storage::error::StorageError;
use crate::page::{stamped_since, PAGE_HEADER_SIZE, PAGE_SIZE};
use crate::slotted::{directory_consistent, insert_overruns, SLOT_SIZE};
use crate::storage::heap::{heap_holds, HeapFile};

verus! {

/// Persists the latest committed row version using a heap file plus a RowId
/// B+Tree. Records are stored in their encoded form.
pub struct PersistentCurrentStore<S: PageStore> {
    heap: HeapFile<S>,
    index: BTree<S>,
}

impl<S: PageStore> PersistentCurrentStore<S> {
    /// The heap and the index are consistent.
    pub closed spec fn inv(&self) -> bool {
        self.heap.inv() && self.index.inv()
    }

    /// The index entry of `row_id` (see `BTree::lookup`).
    pub closed spec fn indexed(&self, row_id: RowId) -> Option<Option<RowLocation>> {
        self.index.lookup(row_id)
    }

    /// The encoded record `data` is stored for `row_id`: the index leads to a
    /// heap tuple that holds it.
    pub closed spec fn holds(&self, row_id: RowId, data: Seq<u8>) -> bool {
        exists|loc: RowLocation| self.index.lookup(row_id) == Some(Some(loc)) && #[trigger] heap_holds(self.heap.content(), loc, data)
    }

    /// The page that holds the root of the index.
    pub closed spec fn index_root(&self) -> PageId {
        self.index.root_page()
    }

    /// Every heap page has a consistent slot directory.
    pub closed spec fn heap_consistent(&self) -> bool {
        self.heap.pages_consistent()
    }

    /// A put of `row_id` leaves the record of `other` alone: an insert of
    /// `row_id` into the index leaves the search for `other` alone (see
    /// `BTree::untouched_by_insert`) and every heap page has a consistent
    /// slot directory.
    pub closed spec fn put_leaves_alone(&self, row_id: RowId, other: RowId) -> bool {
        self.index.untouched_by_insert(row_id, other) && self.heap.pages_consistent()
    }

    /// The index is a proper B+Tree (see `BTree::well_formed`) and every
    /// heap page has a consistent slot directory.
    pub closed spec fn well_formed(&self) -> bool {
        self.index.well_formed() && self.heap.pages_consistent()
    }

    /// A put of a `len`-byte record for `row_id` can fail only in the page
    /// stores: the record fits on an empty heap page, the last heap page (if
    /// any) has an intact directory for it (see `HeapFile::insert`), and the
    /// index insert fits in place (see `BTree::fits_in_place`).
    pub open spec fn put_fits(&self, row_id: RowId, len: int) -> bool {
        &&& len <= PAGE_SIZE - PAGE_HEADER_SIZE - SLOT_SIZE
        &&& self.heap_page_total() == 0 || !insert_overruns(self.heap_content()[(self.heap_page_total() - 1) as u64], len)
        &&& self.index_fits(row_id)
    }

    /// The page images of the heap.
    pub closed spec fn heap_content(&self) -> Map<u64, Seq<u8>> {
        self.heap.content()
    }

    /// The number of heap pages.
    pub closed spec fn heap_page_total(&self) -> nat {
        self.heap.page_total()
    }

    /// The number of pages of the index.
    pub closed spec fn index_page_total(&self) -> nat {
        self.index.page_total()
    }

    /// A get of `row_id` needs no page store: every page the index search
    /// visits is cached, and so is the heap page of the location it finds.
    pub closed spec fn get_cached(&self, row_id: RowId) -> bool {
        &&& self.index.search_cached(row_id)
        &&& forall|loc: RowLocation| self.index.lookup(row_id) == Some(Some(loc)) ==> #[trigger] self.heap.cached(loc.page_id.0)
    }

    /// The page images of the index.
    pub closed spec fn index_content(&self) -> Map<u64, Seq<u8>> {
        self.index.content()
    }

    /// An insert of `row_id` into the index fits in place (see
    /// `BTree::fits_in_place`).
    pub closed spec fn index_fits(&self, row_id: RowId) -> bool {
        self.index.fits_in_place(row_id)
    }

    /// The page stores of the heap and of the index hold what their pages
    /// contain.
    pub closed spec fn durable(&self) -> bool {
        self.heap.durable() && self.index.durable()
    }

    /// A store over an opened heap and index.
    pub fn new(heap: HeapFile<S>, index: BTree<S>) -> (r: Self)
        requires
            heap.inv(),
            index.inv(),
        ensures
            r.inv(),
            forall|row_id: RowId| #[trigger] r.indexed(row_id) == index.lookup(row_id),
            r.well_formed() == (index.well_formed() && heap.pages_consistent()),
    {
        Self { heap, index }
    }

    /// Returns the encoded record stored for `row_id`, if any.
    pub fn get(&mut self, row_id: RowId) -> (r: Result<Option<Vec<u8>>, StorageError>)
        requires
            old(self).inv(),
        ensures
            final(self).inv(),
            r matches Ok(None) ==> old(self).indexed(row_id) == Some(None::<RowLocation>),
            forall|d: Seq<u8>| #[trigger] old(self).holds(row_id, d) ==> match r {
                Ok(Some(v)) => v@ == d,
                Ok(None) => false,
                Err(e) => e is BTree || e is Buffer,
            },
            old(self).well_formed() && old(self).index_page_total() <= u64::MAX ==> !(r matches Err(StorageError::BTree(e)) && !(e is Buffer)),
            old(self).indexed(row_id) == Some(None::<RowLocation>) && old(self).get_cached(row_id) ==> r matches Ok(None),
            forall|d: Seq<u8>| #[trigger] old(self).holds(row_id, d) && old(self).get_cached(row_id)
                ==> (r matches Ok(Some(v)) && v@ == d),
    {
        let location = match self.index.get(row_id) {
            Ok(Some(loc)) => loc,
            Ok(None) => return Ok(None),
            Err(e) => return Err(StorageError::BTree(e)),
        };
        let bytes = self.heap.read(location)?;
        Ok(Some(bytes))
    }

    /// Stores an encoded record for `row_id`.
    pub fn put(&mut self, row_id: RowId, record: &[u8]) -> (r: Result<(RowLocation, Option<PageId>), StorageError>)
        requires
            old(self).inv(),
        ensures
            final(self).inv(),
            r is Ok ==> record@.len() <= PAGE_SIZE - PAGE_HEADER_SIZE - SLOT_SIZE,
            old(self).put_fits(row_id, record@.len() as int) ==> r matches Ok((_, None)) || r matches Err(StorageError::Buffer(_)),
            r is Ok ==> written_since(old(self).index_content(), final(self).index_content(), Lsn(0)),
            r is Ok && old(self).heap_consistent() ==> stamped_since(old(self).heap_content(), final(self).heap_content(), 0),
            r matches Ok((loc, new_root)) ==> {
                &&& final(self).holds(row_id, record@)
                &&& final(self).indexed(row_id) == Some(Some(loc))
                &&& forall|other: RowId, d: Seq<u8>| #[trigger] old(self).holds(other, d) && old(self).put_leaves_alone(row_id, other)
                    ==> final(self).holds(other, d)
                &&& forall|other: RowId, d: Seq<u8>| #[trigger] old(self).holds(other, d) && old(self).well_formed() && other != row_id
                    ==> final(self).holds(other, d)
                &&& old(self).heap_consistent() ==> final(self).heap_consistent()
                &&& old(self).well_formed() ==> final(self).well_formed()
                &&& match new_root {
                    Some(p) => final(self).index_root() == p,
                    None => final(self).index_root() == old(self).index_root(),
                }
            },
    {
        self.put_at_lsn(row_id, record, Lsn(0))
    }

    /// Stores an encoded record for `row_id`, stamping the changed pages with
    /// `lsn`. Returns where the record went and, when the index root moved,
    /// the new root page for the caller to record in the index metadata.
    pub fn put_at_lsn(&mut self, row_id: RowId, record: &[u8], lsn: Lsn) -> (r: Result<(RowLocation, Option<PageId>), StorageError>)
        requires
            old(self).inv(),
        ensures
            final(self).inv(),
            r is Ok ==> record@.len() <= PAGE_SIZE - PAGE_HEADER_SIZE - SLOT_SIZE,
            old(self).put_fits(row_id, record@.len() as int) ==> r matches Ok((_, None)) || r matches Err(StorageError::Buffer(_)),
            r is Ok ==> written_since(old(self).index_content(), final(self).index_content(), lsn),
            r is Ok && old(self).heap_consistent() ==> stamped_since(old(self).heap_content(), final(self).heap_content(), lsn.0),
            r matches Ok((loc, new_root)) ==> {
                &&& final(self).holds(row_id, record@)
                &&& final(self).indexed(row_id) == Some(Some(loc))
                &&& forall|other: RowId, d: Seq<u8>| #[trigger] old(self).holds(other, d) && old(self).put_leaves_alone(row_id, other)
                    ==> final(self).holds(other, d)
                &&& forall|other: RowId, d: Seq<u8>| #[trigger] old(self).holds(other, d) && old(self).well_formed() && other != row_id
                    ==> final(self).holds(other, d)
                &&& old(self).heap_consistent() ==> final(self).heap_consistent()
                &&& old(self).well_formed() ==> final(self).well_formed()
                &&& match new_root {
                    Some(p) => final(self).index_root() == p,
                    None => final(self).index_root() == old(self).index_root(),
                }
            },
    {
        let ghost h0 = self.heap.content();
        proof {
            self.heap.lemma_content_dom();
        }
        let location = self.heap.insert(record, lsn)?;
        let new_root = match self.index.insert_at_lsn(row_id, location, lsn) {
            Ok(n) => n,
            Err(e) => return Err(StorageError::BTree(e)),
        };
        proof {
            assert(heap_holds(self.heap.content(), location, record@));
            assert forall|other: RowId, d: Seq<u8>| #[trigger] old(self).holds(other, d) && old(self).put_leaves_alone(row_id, other)
                implies self.holds(other, d) by {
                let l = choose|l: RowLocation| old(self).index.lookup(other) == Some(Some(l)) && #[trigger] heap_holds(h0, l, d);
                assert(h0.contains_key(l.page_id.0));
                assert(directory_consistent(h0[l.page_id.0]));
                assert(heap_holds(self.heap.content(), l, d));
                assert(self.index.lookup(other) == old(self).index.lookup(other));
            }
            assert forall|other: RowId, d: Seq<u8>| #[trigger] old(self).holds(other, d) && old(self).well_formed() && other != row_id
                implies self.holds(other, d) by {
                let l = choose|l: RowLocation| old(self).index.lookup(other) == Some(Some(l)) && #[trigger] heap_holds(h0, l, d);
                assert(h0.contains_key(l.page_id.0));
                assert(directory_consistent(h0[l.page_id.0]));
                assert(heap_holds(self.heap.content(), l, d));
                assert(self.index.lookup(other) == old(self).index.lookup(other));
            }
        }
        Ok((location, new_root))
    }

    /// Flushes the heap and the index.
    pub fn flush(&mut self) -> (r: Result<(), StorageError>)
        requires
            old(self).inv(),
        ensures
            final(self).inv(),
            r is Ok ==> forall|row_id: RowId, d: Seq<u8>| #[trigger] old(self).holds(row_id, d) ==> final(self).holds(row_id, d),
            r is Ok ==> final(self).durable(),
    {
        self.heap.flush()?;
        match self.index.flush() {
            Ok(()) => Ok(()),
            Err(e) => Err(StorageError::BTree(e)),
        }
    }
}

} // verus!
