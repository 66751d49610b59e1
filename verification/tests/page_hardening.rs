//! Page checksum, header validation and slotted-page behavior.
use adb::ids::{Lsn, PageId};
use adb::page::{Page, PageError, PageKind, PAGE_HEADER_SIZE, PAGE_SIZE};
use adb::slotted::SlottedPage;

#[test]
fn checksum_corruption_is_rejected() {
    let mut page = Page::new(PageId(1), PageKind::Heap);
    page.seal_for_write();
    let mut bytes = page.bytes().to_vec();
    bytes[100] ^= 0x55;
    assert!(Page::from_bytes(PageId(1), bytes).is_err());
}

#[test]
fn invalid_free_space_bounds_are_rejected() {
    let mut page = Page::new(PageId(2), PageKind::Heap);
    page.bytes_mut()[8..10].copy_from_slice(&(PAGE_SIZE as u16).to_le_bytes());
    page.bytes_mut()[10..12].copy_from_slice(&(32u16).to_le_bytes());
    page.seal_for_write();
    let bytes = page.bytes().to_vec();
    assert!(Page::from_bytes(PageId(2), bytes).is_err());
}

#[test]
fn slotted_page_inserts_and_reads_variable_payloads() {
    let page = Page::new(PageId(0), PageKind::Heap);
    let mut slotted = SlottedPage::new(page);
    let a = slotted.insert(b"abc").unwrap();
    let b = slotted.insert(b"a much longer row").unwrap();
    assert_eq!(slotted.get(a).unwrap(), b"abc");
    assert_eq!(slotted.get(b).unwrap(), b"a much longer row");
}

#[test]
fn new_page_has_initial_header() {
    let page = Page::new(PageId(7), PageKind::BTreeLeaf);
    assert_eq!(page.id(), PageId(7));
    assert_eq!(page.kind().unwrap(), PageKind::BTreeLeaf);
    assert_eq!(page.slot_count(), 0);
    assert_eq!(page.free_start() as usize, PAGE_HEADER_SIZE);
    assert_eq!(page.free_end() as usize, PAGE_SIZE);
    assert_eq!(page.page_lsn(), Lsn(0));
    assert_eq!(page.bytes().len(), PAGE_SIZE);
    assert_eq!(page.payload().len(), PAGE_SIZE - PAGE_HEADER_SIZE);
}

#[test]
fn sealed_page_is_accepted_on_read() {
    let mut page = Page::new(PageId(3), PageKind::Heap);
    page.set_page_lsn(Lsn(99));
    page.seal_for_write();
    let read = Page::from_bytes(PageId(3), page.bytes().to_vec()).unwrap();
    assert_eq!(read.page_lsn(), Lsn(99));
    assert_eq!(read.kind().unwrap(), PageKind::Heap);
    assert_eq!(read.bytes(), page.bytes());
}

#[test]
fn sealing_twice_changes_nothing() {
    let mut page = Page::new(PageId(4), PageKind::BTreeInternal);
    page.seal_for_write();
    let once = page.bytes().to_vec();
    page.seal_for_write();
    assert_eq!(page.bytes(), &once[..]);
}

#[test]
fn short_page_image_is_rejected() {
    assert!(Page::from_bytes(PageId(0), vec![0u8; 100]).is_err());
}

#[test]
fn unknown_page_kind_is_rejected() {
    assert!(PageKind::try_from(9).is_err());
    assert_eq!(PageKind::try_from(1).unwrap(), PageKind::Heap);
    assert_eq!(PageKind::try_from(2).unwrap(), PageKind::BTreeLeaf);
    assert_eq!(PageKind::try_from(3).unwrap(), PageKind::BTreeInternal);
}

#[test]
fn header_setters_round_trip() {
    let mut page = Page::new(PageId(5), PageKind::Heap);
    page.set_slot_count(3);
    page.set_free_start(44);
    page.set_free_end(4000);
    page.set_kind(PageKind::BTreeLeaf);
    assert_eq!(page.slot_count(), 3);
    assert_eq!(page.free_start(), 44);
    assert_eq!(page.free_end(), 4000);
    assert_eq!(page.kind().unwrap(), PageKind::BTreeLeaf);
}

#[test]
fn oversized_tuple_is_refused() {
    let mut slotted = SlottedPage::new(Page::new(PageId(0), PageKind::Heap));
    let big = vec![1u8; 70_000];
    assert!(matches!(slotted.insert(&big), Err(PageError::PayloadTooLarge(70_000))));
}

#[test]
fn full_page_refuses_tuple() {
    let mut slotted = SlottedPage::new(Page::new(PageId(0), PageKind::Heap));
    let row = vec![7u8; 4000];
    let mut n = 0;
    loop {
        match slotted.insert(&row) {
            Ok(_) => n += 1,
            Err(e) => {
                assert!(matches!(e, PageError::Full));
                break;
            }
        }
    }
    assert_eq!(n, 4);
    for slot in 0..4u16 {
        assert_eq!(slotted.get(slot).unwrap(), &row[..]);
    }
}

#[test]
fn missing_slot_is_invalid() {
    let mut slotted = SlottedPage::new(Page::new(PageId(0), PageKind::Heap));
    slotted.insert(b"x").unwrap();
    assert!(matches!(slotted.get(1), Err(PageError::InvalidSlot(1))));
}
