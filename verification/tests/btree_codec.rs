//! B+Tree node codecs and root metadata.
use adb::btree::codec::{decode_node, encode_node};
use adb::btree::error::BTreeError;
use adb::btree::meta::{decode_meta, encode_meta};
use adb::btree::node::{InternalNode, LeafNode, Node};
use adb::btree::version_codec::{decode_version_node, encode_version_node};
use adb::btree::version_node::{VersionLeafNode, VersionNode};
use adb::ids::{CommitTs, PageId, RowId, RowLocation, VersionKey};
use adb::page::{Page, PageKind, PAGE_HEADER_SIZE};

#[test]
fn corrupt_leaf_count_is_rejected() {
    let mut page = Page::new(PageId(1), PageKind::BTreeLeaf);
    page.bytes_mut()[PAGE_HEADER_SIZE..PAGE_HEADER_SIZE + 2].copy_from_slice(&u16::MAX.to_le_bytes());
    assert!(decode_node(&page).is_err());
}

fn loc(p: u64, s: u16) -> RowLocation {
    RowLocation { page_id: PageId(p), slot_id: s }
}

#[test]
fn leaf_node_round_trips_through_a_page() {
    let mut page = Page::new(PageId(2), PageKind::Heap);
    let leaf = LeafNode { keys: vec![RowId(1), RowId(5), RowId(9)], values: vec![loc(3, 0), loc(3, 1), loc(4, 2)], next: Some(PageId(11)) };
    encode_node(&mut page, &Node::Leaf(leaf)).unwrap();
    assert_eq!(page.kind().unwrap(), PageKind::BTreeLeaf);
    match decode_node(&page).unwrap() {
        Node::Leaf(l) => {
            assert_eq!(l.keys, vec![RowId(1), RowId(5), RowId(9)]);
            assert_eq!(l.values, vec![loc(3, 0), loc(3, 1), loc(4, 2)]);
            assert_eq!(l.next, Some(PageId(11)));
        }
        Node::Internal(_) => panic!("expected a leaf"),
    }
}

#[test]
fn internal_node_round_trips_through_a_page() {
    let mut page = Page::new(PageId(2), PageKind::Heap);
    let node = InternalNode { keys: vec![RowId(10), RowId(20)], children: vec![PageId(1), PageId(2), PageId(3)] };
    encode_node(&mut page, &Node::Internal(node)).unwrap();
    match decode_node(&page).unwrap() {
        Node::Internal(n) => {
            assert_eq!(n.keys, vec![RowId(10), RowId(20)]);
            assert_eq!(n.children, vec![PageId(1), PageId(2), PageId(3)]);
        }
        Node::Leaf(_) => panic!("expected an internal node"),
    }
}

#[test]
fn unsorted_leaf_is_not_encoded() {
    let mut page = Page::new(PageId(2), PageKind::BTreeLeaf);
    let before = page.bytes().to_vec();
    let leaf = LeafNode { keys: vec![RowId(5), RowId(1)], values: vec![loc(0, 0), loc(0, 1)], next: None };
    assert!(matches!(encode_node(&mut page, &Node::Leaf(leaf)), Err(BTreeError::Corrupt(_))));
    assert_eq!(page.bytes(), &before[..]);
}

#[test]
fn internal_node_with_wrong_fanout_is_not_encoded() {
    let mut page = Page::new(PageId(2), PageKind::BTreeInternal);
    let node = InternalNode { keys: vec![RowId(10)], children: vec![PageId(1)] };
    assert!(matches!(encode_node(&mut page, &Node::Internal(node)), Err(BTreeError::Corrupt(_))));
}

#[test]
fn heap_page_is_not_a_node() {
    let page = Page::new(PageId(2), PageKind::Heap);
    assert!(matches!(decode_node(&page), Err(BTreeError::Corrupt(_))));
}

#[test]
fn version_leaf_round_trips_through_a_page() {
    let mut page = Page::new(PageId(2), PageKind::Heap);
    let k1 = VersionKey::new(RowId(1), CommitTs(3));
    let k2 = VersionKey::new(RowId(1), CommitTs(8));
    let k3 = VersionKey::new(RowId(2), CommitTs(1));
    let leaf = VersionLeafNode { keys: vec![k1, k2, k3], values: vec![loc(1, 1), loc(1, 2), loc(2, 0)], next: None };
    encode_version_node(&mut page, &VersionNode::Leaf(leaf)).unwrap();
    match decode_version_node(&page).unwrap() {
        VersionNode::Leaf(l) => {
            assert_eq!(l.keys, vec![k1, k2, k3]);
            assert_eq!(l.values, vec![loc(1, 1), loc(1, 2), loc(2, 0)]);
            assert_eq!(l.next, None);
        }
        VersionNode::Internal(_) => panic!("expected a leaf"),
    }
}

#[test]
fn unsorted_version_keys_are_not_encoded() {
    let mut page = Page::new(PageId(2), PageKind::BTreeLeaf);
    let k1 = VersionKey::new(RowId(1), CommitTs(8));
    let k2 = VersionKey::new(RowId(1), CommitTs(3));
    let leaf = VersionLeafNode { keys: vec![k1, k2], values: vec![loc(0, 0), loc(0, 1)], next: None };
    assert!(matches!(encode_version_node(&mut page, &VersionNode::Leaf(leaf)), Err(BTreeError::Corrupt(_))));
}

#[test]
fn meta_round_trips() {
    let bytes = encode_meta(PageId(42)).unwrap();
    assert_eq!(&bytes[0..8], b"ADBTM101");
    assert_eq!(decode_meta(&bytes).unwrap(), PageId(42));
}

#[test]
fn meta_with_bad_magic_is_rejected() {
    let mut bytes = encode_meta(PageId(42)).unwrap();
    bytes[0] = b'X';
    assert!(matches!(decode_meta(&bytes), Err(BTreeError::Corrupt(_))));
}

#[test]
fn meta_with_flipped_payload_is_rejected() {
    let mut bytes = encode_meta(PageId(42)).unwrap();
    let last = bytes.len() - 1;
    bytes[last] ^= 0xff;
    assert!(decode_meta(&bytes).is_err());
}

#[test]
fn legacy_meta_file_is_eight_little_endian_bytes() {
    assert_eq!(decode_meta(&[42, 0, 0, 0, 0, 0, 0, 0]).unwrap(), PageId(42));
    assert_eq!(decode_meta(&[1, 2, 0, 0, 0, 0, 0, 0]).unwrap(), PageId(0x0201));
    assert!(decode_meta(&[42, 0, 0]).is_err());
}

#[test]
fn meta_file_carries_the_root_in_little_endian() {
    let bytes = encode_meta(PageId(0x0102_0304)).unwrap();
    let needle = [4u8, 3, 2, 1, 0, 0, 0, 0];
    assert!(bytes.windows(8).any(|w| w == needle));
}
