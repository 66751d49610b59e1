//! Buffer pool, B+Trees, heap file and persistent current store over an
//! in-memory page store.
use adb::btree::tree::BTree;
use adb::btree::version_tree::VersionBTree;
use adb::buffer::buffer_pool::BufferPool;
use adb::buffer::mem_store::MemPageStore;
use adb::buffer::error::BufferError;
use adb::buffer::page_store::PageStore;
use adb::ids::{CommitTs, Lsn, PageId, RowId, RowLocation, VersionKey};
use adb::page::{Page, PageKind};
use adb::storage::heap::HeapFile;
use adb::storage::persistent_current::PersistentCurrentStore;

/// Pages kept in memory, sealed as a page file would hold them.
struct MemStore {
    pages: Vec<Vec<u8>>,
    writes: usize,
}

impl MemStore {
    fn new() -> Self {
        MemStore { pages: Vec::new(), writes: 0 }
    }
}

impl PageStore for MemStore {
    fn page_count(&self) -> Result<u64, BufferError> {
        Ok(self.pages.len() as u64)
    }

    fn allocate_page(&mut self, kind: PageKind) -> Result<Page, BufferError> {
        let page = Page::new(PageId(self.pages.len() as u64), kind);
        let mut sealed = page.clone();
        sealed.seal_for_write();
        self.pages.push(sealed.bytes().to_vec());
        Ok(page)
    }

    fn read_page(&self, page_id: PageId) -> Result<Page, BufferError> {
        match self.pages.get(page_id.0 as usize) {
            Some(bytes) => Page::from_bytes(page_id, bytes.clone()).map_err(BufferError::Page),
            None => Err(BufferError::MissingPage(page_id.0)),
        }
    }

    fn write_page(&mut self, page: &Page) -> Result<(), BufferError> {
        let mut sealed = page.clone();
        sealed.seal_for_write();
        let i = page.id().0 as usize;
        while self.pages.len() <= i {
            self.pages.push(vec![0u8; adb::page::PAGE_SIZE]);
        }
        self.pages[i] = sealed.bytes().to_vec();
        self.writes += 1;
        Ok(())
    }

    fn sync(&mut self) -> Result<(), BufferError> {
        Ok(())
    }
}

fn loc(p: u64, s: u16) -> RowLocation {
    RowLocation { page_id: PageId(p), slot_id: s }
}

#[test]
fn pool_reads_back_what_it_wrote() {
    let mut pool = BufferPool::new(MemStore::new(), 2);
    let id = pool.allocate_page(PageKind::Heap).unwrap();
    assert_eq!(id, PageId(0));
    let mut page = pool.read(id).unwrap();
    page.set_page_lsn(Lsn(77));
    pool.write(page).unwrap();
    assert_eq!(pool.read(id).unwrap().page_lsn(), Lsn(77));
    assert_eq!(pool.page_count().unwrap(), 1);
}

#[test]
fn pool_evicts_and_writes_back_dirty_pages() {
    let mut pool = BufferPool::new(MemStore::new(), 1);
    let a = pool.allocate_page(PageKind::Heap).unwrap();
    let mut page = pool.read(a).unwrap();
    page.set_page_lsn(Lsn(5));
    pool.write(page).unwrap();
    let b = pool.allocate_page(PageKind::Heap).unwrap();
    assert_eq!(b, PageId(1));
    // page `a` was evicted to make room and must come back with its update
    assert_eq!(pool.read(a).unwrap().page_lsn(), Lsn(5));
}

#[test]
fn pool_flush_keeps_content() {
    let mut pool = BufferPool::new(MemStore::new(), 4);
    let a = pool.allocate_page(PageKind::Heap).unwrap();
    let mut page = pool.read(a).unwrap();
    page.set_page_lsn(Lsn(9));
    pool.write(page).unwrap();
    pool.flush_all().unwrap();
    assert_eq!(pool.read(a).unwrap().page_lsn(), Lsn(9));
}

#[test]
fn pool_write_of_missing_page_fails() {
    let mut pool = BufferPool::new(MemStore::new(), 4);
    assert!(pool.write(Page::new(PageId(3), PageKind::Heap)).is_err());
    assert!(pool.read(PageId(0)).is_err());
}

#[test]
fn btree_reads_back_every_inserted_key_across_splits() {
    let pool = BufferPool::new(MemStore::new(), 8);
    let mut tree = BTree::create(pool).unwrap();
    let first_root = tree.root_page_id();
    let mut moved = false;
    for i in 0..1000u64 {
        let key = RowId(((i * 7919) % 1000) as u128);
        if tree.insert(key, loc(i, (i % 100) as u16)).unwrap().is_some() {
            moved = true;
        }
    }
    assert!(moved);
    assert_ne!(tree.root_page_id(), first_root);
    for i in 0..1000u64 {
        let key = RowId(((i * 7919) % 1000) as u128);
        assert_eq!(tree.get(key).unwrap(), Some(loc(i, (i % 100) as u16)));
    }
    assert_eq!(tree.get(RowId(5000)).unwrap(), None);
}

#[test]
fn btree_insert_replaces_existing_location() {
    let pool = BufferPool::new(MemStore::new(), 8);
    let mut tree = BTree::create(pool).unwrap();
    tree.insert(RowId(4), loc(1, 1)).unwrap();
    tree.insert(RowId(4), loc(2, 2)).unwrap();
    assert_eq!(tree.get(RowId(4)).unwrap(), Some(loc(2, 2)));
}

#[test]
fn empty_btree_finds_nothing() {
    let pool = BufferPool::new(MemStore::new(), 8);
    let mut tree = BTree::create(pool).unwrap();
    assert_eq!(tree.get(RowId(1)).unwrap(), None);
    assert_eq!(tree.root_page_id(), PageId(0));
}

fn vk(row: u128, ts: u64) -> VersionKey {
    VersionKey::new(RowId(row), CommitTs(ts))
}

#[test]
fn version_tree_reads_back_inserted_versions() {
    let pool = BufferPool::new(MemStore::new(), 8);
    let mut tree = VersionBTree::create(pool).unwrap();
    for row in 0..200u128 {
        for ts in 1..4u64 {
            tree.insert_at_lsn(vk(row, ts * 10), loc(row as u64, ts as u16), Lsn(1)).unwrap();
        }
    }
    for row in 0..200u128 {
        for ts in 1..4u64 {
            assert_eq!(tree.get(vk(row, ts * 10)).unwrap(), Some(loc(row as u64, ts as u16)));
        }
    }
    assert_eq!(tree.get(vk(3, 11)).unwrap(), None);
    assert!(tree.page_count().unwrap() > 1);
}

#[test]
fn version_tree_floor_and_ranges() {
    let pool = BufferPool::new(MemStore::new(), 8);
    let mut tree = VersionBTree::create(pool).unwrap();
    for row in 0..150u128 {
        tree.insert_at_lsn(vk(row, 10), loc(row as u64, 1), Lsn(1)).unwrap();
        tree.insert_at_lsn(vk(row, 20), loc(row as u64, 2), Lsn(1)).unwrap();
    }
    assert_eq!(tree.get_floor(vk(7, 15)).unwrap(), Some((vk(7, 10), loc(7, 1))));
    assert_eq!(tree.get_floor(vk(7, 20)).unwrap(), Some((vk(7, 20), loc(7, 2))));
    assert_eq!(tree.get_floor(vk(8, 5)).unwrap(), Some((vk(7, 20), loc(7, 2))));
    assert_eq!(tree.get_floor(vk(0, 1)).unwrap(), None);
    assert_eq!(tree.range_for_row(RowId(42)).unwrap(), vec![(vk(42, 10), loc(42, 1)), (vk(42, 20), loc(42, 2))]);
    assert_eq!(tree.range_for_row(RowId(999)).unwrap(), vec![]);
    let all = tree.scan_all().unwrap();
    assert_eq!(all.len(), 300);
    for w in all.windows(2) {
        assert!(w[0].0.lt(&w[1].0));
    }
}

#[test]
fn version_tree_refuses_root_outside_page_file() {
    let pool = BufferPool::new(MemStore::new(), 8);
    assert!(VersionBTree::with_root(pool, PageId(3)).is_err());
}

#[test]
fn heap_reads_back_inserted_tuples_across_pages() {
    let pool = BufferPool::new(MemStore::new(), 4);
    let mut heap = HeapFile::new(pool);
    let mut locs = Vec::new();
    for i in 0..50u32 {
        let row = vec![(i % 251) as u8; 1000 + i as usize];
        locs.push((heap.insert(&row, Lsn(i as u64)).unwrap(), row));
    }
    assert!(locs.last().unwrap().0.page_id.0 > 0);
    for (l, row) in &locs {
        assert_eq!(&heap.read(*l).unwrap(), row);
    }
    heap.flush().unwrap();
    assert_eq!(locs[0].0, loc(0, 0));
}

#[test]
fn current_store_returns_latest_record() {
    let heap = HeapFile::new(BufferPool::new(MemStore::new(), 4));
    let index = BTree::create(BufferPool::new(MemStore::new(), 4)).unwrap();
    let mut store = PersistentCurrentStore::new(heap, index);
    store.put_at_lsn(RowId(42), b"first", Lsn(1)).unwrap();
    store.put(RowId(42), b"second").unwrap();
    store.put(RowId(7), b"other").unwrap();
    assert_eq!(store.get(RowId(42)).unwrap(), Some(b"second".to_vec()));
    assert_eq!(store.get(RowId(7)).unwrap(), Some(b"other".to_vec()));
    assert_eq!(store.get(RowId(8)).unwrap(), None);
    store.flush().unwrap();
    assert_eq!(store.get(RowId(42)).unwrap(), Some(b"second".to_vec()));
}

#[test]
fn current_store_keeps_other_rows_across_puts() {
    let heap = HeapFile::new(BufferPool::new(MemStore::new(), 4));
    let index = BTree::create(BufferPool::new(MemStore::new(), 4)).unwrap();
    let mut store = PersistentCurrentStore::new(heap, index);
    for i in 0..400u32 {
        let record = vec![(i % 253) as u8; 200 + (i % 7) as usize];
        store.put(RowId(i as u128), &record).unwrap();
    }
    for i in 0..400u32 {
        let record = vec![(i % 253) as u8; 200 + (i % 7) as usize];
        assert_eq!(store.get(RowId(i as u128)).unwrap(), Some(record));
    }
}

#[test]
fn heap_refuses_tuples_that_fit_no_page() {
    let mut heap = HeapFile::new(BufferPool::new(MemStore::new(), 4));
    let room = adb::page::PAGE_SIZE - adb::page::PAGE_HEADER_SIZE - 4;
    let loc_big = heap.insert(&vec![7u8; room], Lsn(1)).unwrap();
    assert_eq!(heap.read(loc_big).unwrap().len(), room);
    assert!(matches!(
        heap.insert(&vec![7u8; room + 1], Lsn(2)),
        Err(adb::storage::error::StorageError::Page(adb::page::PageError::Full))
    ));
    assert!(matches!(
        heap.insert(&vec![7u8; 70_000], Lsn(3)),
        Err(adb::storage::error::StorageError::Page(adb::page::PageError::PayloadTooLarge(70_000)))
    ));
}

#[test]
fn btree_insert_into_roomy_leaf_keeps_the_root() {
    let pool = BufferPool::new(MemStore::new(), 8);
    let mut tree = BTree::create(pool).unwrap();
    for i in 0..20u128 {
        assert_eq!(tree.insert(RowId(i), loc(1, i as u16)).unwrap(), None);
    }
    assert_eq!(tree.insert(RowId(3), loc(9, 9)).unwrap(), None);
    assert_eq!(tree.root_page_id(), PageId(0));
    assert_eq!(tree.get(RowId(3)).unwrap(), Some(loc(9, 9)));
}

#[test]
fn version_tree_insert_into_roomy_leaf_keeps_the_root() {
    let pool = BufferPool::new(MemStore::new(), 8);
    let mut tree = VersionBTree::create(pool).unwrap();
    for ts in 1..10u64 {
        assert_eq!(tree.insert_at_lsn(vk(5, ts), loc(2, ts as u16), Lsn(ts)).unwrap(), None);
    }
    assert_eq!(tree.root_page_id(), PageId(0));
}

#[test]
fn current_store_small_put_keeps_the_index_root() {
    let heap = HeapFile::new(BufferPool::new(MemStore::new(), 4));
    let index = BTree::create(BufferPool::new(MemStore::new(), 4)).unwrap();
    let mut store = PersistentCurrentStore::new(heap, index);
    let (first, root) = store.put(RowId(1), b"one").unwrap();
    assert_eq!(root, None);
    let (second, root) = store.put_at_lsn(RowId(2), b"two", Lsn(3)).unwrap();
    assert_eq!(root, None);
    assert_eq!(first.page_id, second.page_id);
    assert_eq!(store.get(RowId(2)).unwrap(), Some(b"two".to_vec()));
}

#[test]
fn btree_full_leaf_splits_only_for_a_new_key() {
    let pool = BufferPool::new(MemStore::new(), 8);
    let mut tree = BTree::create(pool).unwrap();
    for i in 0..96u128 {
        assert_eq!(tree.insert(RowId(i * 2), loc(1, i as u16)).unwrap(), None);
    }
    assert_eq!(tree.insert(RowId(10), loc(7, 7)).unwrap(), None);
    assert_eq!(tree.root_page_id(), PageId(0));
    let new_root = tree.insert(RowId(11), loc(8, 8)).unwrap();
    assert_eq!(new_root, Some(PageId(2)));
    assert_eq!(tree.root_page_id(), PageId(2));
    assert_eq!(tree.get(RowId(10)).unwrap(), Some(loc(7, 7)));
    assert_eq!(tree.get(RowId(11)).unwrap(), Some(loc(8, 8)));
    for i in 0..96u128 {
        if i != 5 {
            assert_eq!(tree.get(RowId(i * 2)).unwrap(), Some(loc(1, i as u16)));
        }
    }
}

#[test]
fn mem_page_store_serves_a_btree() {
    let pool = BufferPool::new(MemPageStore::new(), 2);
    let mut tree = BTree::create(pool).unwrap();
    for i in 0..300u128 {
        tree.insert(RowId(i), loc(3, (i % 50) as u16)).unwrap();
    }
    tree.flush().unwrap();
    for i in 0..300u128 {
        assert_eq!(tree.get(RowId(i)).unwrap(), Some(loc(3, (i % 50) as u16)));
    }
}

#[test]
fn heap_fills_the_last_page_before_adding_one() {
    let mut heap = HeapFile::new(BufferPool::new(MemPageStore::new(), 4));
    let first = heap.insert(&vec![1u8; 6000], Lsn(1)).unwrap();
    let second = heap.insert(&vec![2u8; 6000], Lsn(2)).unwrap();
    let third = heap.insert(&vec![3u8; 6000], Lsn(3)).unwrap();
    let fourth = heap.insert(&vec![4u8; 10], Lsn(4)).unwrap();
    assert_eq!(first, loc(0, 0));
    assert_eq!(second, loc(0, 1));
    assert_eq!(third, loc(1, 0));
    assert_eq!(fourth, loc(1, 1));
    assert_eq!(heap.read(fourth).unwrap(), vec![4u8; 10]);
}

#[test]
fn current_store_get_of_missing_row_is_none() {
    let heap = HeapFile::new(BufferPool::new(MemPageStore::new(), 4));
    let index = BTree::create(BufferPool::new(MemPageStore::new(), 4)).unwrap();
    let mut store = PersistentCurrentStore::new(heap, index);
    assert_eq!(store.get(RowId(5)).unwrap(), None);
    store.put(RowId(5), b"five").unwrap();
    assert_eq!(store.get(RowId(5)).unwrap(), Some(b"five".to_vec()));
}
