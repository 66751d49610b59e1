//! What is flushed to a page store is found again by structures reopened
//! over the same pages, and the write-ahead log drops a torn tail.
use std::cell::RefCell;
use std::rc::Rc;

use adb::btree::tree::BTree;
use adb::buffer::buffer_pool::BufferPool;
use adb::buffer::error::BufferError;
use adb::buffer::page_store::PageStore;
use adb::ids::{Lsn, PageId, RowId, RowLocation};
use adb::page::{Page, PageKind, PAGE_SIZE};
use adb::storage::heap::HeapFile;
use adb::storage::persistent_current::PersistentCurrentStore;
use adb::wal::format::{WAL_MAGIC, WAL_VERSION};
use adb::wal::reader::WalReader;
use adb::wal::writer::WalWriter;

/// A page file kept in memory; handles made by `reopen` share its pages,
/// as two opens of one file do.
struct SharedStore {
    pages: Rc<RefCell<Vec<Vec<u8>>>>,
}

impl SharedStore {
    fn new() -> Self {
        SharedStore { pages: Rc::new(RefCell::new(Vec::new())) }
    }

    fn reopen(&self) -> Self {
        SharedStore { pages: Rc::clone(&self.pages) }
    }
}

impl PageStore for SharedStore {
    fn page_count(&self) -> Result<u64, BufferError> {
        Ok(self.pages.borrow().len() as u64)
    }

    fn allocate_page(&mut self, kind: PageKind) -> Result<Page, BufferError> {
        let mut pages = self.pages.borrow_mut();
        let page = Page::new(PageId(pages.len() as u64), kind);
        let mut sealed = page.clone();
        sealed.seal_for_write();
        pages.push(sealed.bytes().to_vec());
        Ok(page)
    }

    fn read_page(&self, page_id: PageId) -> Result<Page, BufferError> {
        match self.pages.borrow().get(page_id.0 as usize) {
            Some(bytes) => Page::from_bytes(page_id, bytes.clone()).map_err(BufferError::Page),
            None => Err(BufferError::MissingPage(page_id.0)),
        }
    }

    fn write_page(&mut self, page: &Page) -> Result<(), BufferError> {
        let mut sealed = page.clone();
        sealed.seal_for_write();
        let mut pages = self.pages.borrow_mut();
        let i = page.id().0 as usize;
        while pages.len() <= i {
            pages.push(vec![0u8; PAGE_SIZE]);
        }
        pages[i] = sealed.bytes().to_vec();
        Ok(())
    }

    fn sync(&mut self) -> Result<(), BufferError> {
        Ok(())
    }
}

#[test]
fn insert_split_reopen_and_lookup() {
    let file = SharedStore::new();
    let root = {
        let mut tree = BTree::create(BufferPool::new(file.reopen(), 8)).unwrap();
        let mut root = tree.root_page_id();
        for i in 0..1000u128 {
            let location = RowLocation { page_id: PageId(i as u64), slot_id: (i % 100) as u16 };
            if let Some(new_root) = tree.insert(RowId(i), location).unwrap() {
                root = new_root;
            }
        }
        tree.flush().unwrap();
        root
    };
    {
        let mut tree = BTree::with_root(BufferPool::new(file.reopen(), 8), root);
        for i in 0..1000u128 {
            let v = tree.get(RowId(i)).unwrap().unwrap();
            assert_eq!(v.page_id.0, i as u64);
        }
    }
}

#[test]
fn dirty_pages_survive_flush_and_reopen() {
    let file = SharedStore::new();
    {
        let mut pool = BufferPool::new(file.reopen(), 2);
        let id = pool.allocate_page(PageKind::Heap).unwrap();
        let mut page = pool.read(id).unwrap();
        page.payload_mut()[0] = 77;
        pool.write(page).unwrap();
        pool.flush_all().unwrap();
    }
    {
        let mut pool = BufferPool::new(file.reopen(), 2);
        assert_eq!(pool.read(PageId(0)).unwrap().payload()[0], 77);
    }
}

#[test]
fn current_store_survives_reopen() {
    let heap_file = SharedStore::new();
    let index_file = SharedStore::new();
    let record = bincode::serialize(&(7u64, Some(vec![1u8, 42]))).unwrap();
    let root = {
        let heap = HeapFile::new(BufferPool::new(heap_file.reopen(), 4));
        let index = BTree::create(BufferPool::new(index_file.reopen(), 4)).unwrap();
        let mut root = index.root_page_id();
        let mut store = PersistentCurrentStore::new(heap, index);
        if let (_, Some(new_root)) = store.put(RowId(9), &record).unwrap() {
            root = new_root;
        }
        store.flush().unwrap();
        root
    };
    {
        let heap = HeapFile::new(BufferPool::new(heap_file.reopen(), 4));
        let index = BTree::with_root(BufferPool::new(index_file.reopen(), 4), root);
        let mut store = PersistentCurrentStore::new(heap, index);
        let got = store.get(RowId(9)).unwrap().unwrap();
        let (commit_ts, _value): (u64, Option<Vec<u8>>) = bincode::deserialize(&got).unwrap();
        assert_eq!(commit_ts, 7);
    }
}

#[test]
fn writer_truncates_incomplete_tail_before_new_records() {
    let begin = b"begin tx 1 at snapshot 0".to_vec();
    let commit = b"commit tx 1 at 1".to_vec();
    let mut log = Vec::new();
    {
        let mut writer = WalWriter::resume(log.clone()).unwrap();
        let (_, frame) = writer.append(&begin).unwrap();
        log.extend_from_slice(&frame);
    }
    log.extend_from_slice(&[0x57, 0x42, 0x44]);
    {
        let mut writer = WalWriter::resume(log.clone()).unwrap();
        log.truncate(writer.position().0 as usize);
        let (_, frame) = writer.append(&commit).unwrap();
        log.extend_from_slice(&frame);
    }
    let records = WalReader::new(log).read_all().unwrap();
    assert_eq!(records.len(), 2);
    assert_eq!(records[1].1, commit);
    assert_eq!(records[0].0, Lsn(0));
}

#[test]
fn reader_rejects_oversized_payload_length() {
    let mut log = Vec::new();
    log.extend_from_slice(&WAL_MAGIC.to_le_bytes());
    log.extend_from_slice(&WAL_VERSION.to_le_bytes());
    log.extend_from_slice(&u32::MAX.to_le_bytes());
    log.extend_from_slice(&0u32.to_le_bytes());
    assert!(WalReader::new(log).read_all().is_err());
}
