//! Page codec of the primary B+Tree nodes, with bounds, shape and ordering
//! validation.
//!
//! Leaf payload: entry count u16 @0, next-leaf page u64 @8 (`u64::MAX` for
//! none), then 26-byte entries from @16: key u128, page id u64, slot u16.
//! Internal payload: key count u16 @0, then `count + 1` child page ids u64
//! from @8, then the keys u128. Every other payload byte is zero.
use vstd::prelude::*;
use crate::btree::error::BTreeError;
use crate::btree::node::{
    keys_strictly_sorted, node_valid, InternalNode, LeafNode, Node, NodeView, MAX_INTERNAL_KEYS,
    MAX_LEAF_ENTRIES,
};
use crate::ids::{PageId, RowId, RowLocation};
use crate::le::{
    get128, get16, get64, le128, le16, le64, lemma_le_roundtrip, lemma_splice_subrange, put128,
    put16, put64, read128, read16, read64, splice, write_bytes,
};
use crate::page::{
    hdr_kind, kind_of_tag, kind_tag, lemma_sealed_unchanged_outside, sealed_image, Page, PageKind, OFF_KIND,
    PAGE_HEADER_SIZE, PAGE_SIZE,
};

verus! {

/// Encoded "no next leaf".
pub const NONE_PAGE: u64 = 0xffff_ffff_ffff_ffff;
/// Bytes of a page after the common header.
pub const PAYLOAD_LEN: usize = PAGE_SIZE - PAGE_HEADER_SIZE;
pub const LEAF_HEADER: usize = 16;
pub const LEAF_ENTRY: usize = 26;
pub const INTERNAL_HEADER: usize = 8;

pub open spec fn next_raw(next: Option<PageId>) -> u64 {
    match next {
        Some(p) => p.0,
        None => NONE_PAGE,
    }
}

pub open spec fn next_of_raw(raw: u64) -> Option<PageId> {
    if raw != NONE_PAGE {
        Some(PageId(raw))
    } else {
        None
    }
}

pub open spec fn leaf_entry_off(i: int) -> int {
    LEAF_HEADER + i * LEAF_ENTRY
}

pub open spec fn child_off(i: int) -> int {
    INTERNAL_HEADER + i * 8
}

/// Offset of separator key `i` of an internal node with `n` keys.
pub open spec fn internal_key_off(n: int, i: int) -> int {
    INTERNAL_HEADER + (n + 1) * 8 + i * 16
}

pub open spec fn leaf_keys_of(d: Seq<u8>, n: int) -> Seq<RowId> {
    Seq::new(n as nat, |i: int| RowId(get128(d, leaf_entry_off(i))))
}

pub open spec fn leaf_values_of(d: Seq<u8>, n: int) -> Seq<RowLocation> {
    Seq::new(
        n as nat,
        |i: int|
            RowLocation {
                page_id: PageId(get64(d, leaf_entry_off(i) + 16)),
                slot_id: get16(d, leaf_entry_off(i) + 24),
            },
    )
}

pub open spec fn internal_children_of(d: Seq<u8>, n: int) -> Seq<PageId> {
    Seq::new((n + 1) as nat, |i: int| PageId(get64(d, child_off(i))))
}

pub open spec fn internal_keys_of(d: Seq<u8>, n: int) -> Seq<RowId> {
    Seq::new(n as nat, |i: int| RowId(get128(d, internal_key_off(n, i))))
}

/// The node that `decode_node` reads from a page image, if any.
pub open spec fn decoded_node(s: Seq<u8>) -> Option<NodeView> {
    let d = s.subrange(PAGE_HEADER_SIZE as int, PAGE_SIZE as int);
    let n = get16(d, 0) as int;
    match kind_of_tag(hdr_kind(s)) {
        Some(PageKind::BTreeLeaf) => if n <= MAX_LEAF_ENTRIES && keys_strictly_sorted(leaf_keys_of(d, n)) {
            Some(NodeView::Leaf { keys: leaf_keys_of(d, n), values: leaf_values_of(d, n), next: next_of_raw(get64(d, 8)) })
        } else {
            None
        },
        Some(PageKind::BTreeInternal) => if n <= MAX_INTERNAL_KEYS && keys_strictly_sorted(internal_keys_of(d, n)) {
            Some(NodeView::Internal { keys: internal_keys_of(d, n), children: internal_children_of(d, n) })
        } else {
            None
        },
        _ => None,
    }
}

pub open spec fn node_kind_tag(n: NodeView) -> u16 {
    match n {
        NodeView::Leaf { .. } => kind_tag(PageKind::BTreeLeaf),
        NodeView::Internal { .. } => kind_tag(PageKind::BTreeInternal),
    }
}

pub open spec fn leaf_entry_encodes(p: Seq<u8>, i: int, k: RowId, v: RowLocation) -> bool {
    let o = leaf_entry_off(i);
    &&& p.subrange(o, o + 16) == le128(k.0)
    &&& p.subrange(o + 16, o + 24) == le64(v.page_id.0)
    &&& p.subrange(o + 24, o + 26) == le16(v.slot_id)
}

/// `p` is exactly the payload that encodes `n`.
pub open spec fn payload_encodes(p: Seq<u8>, n: NodeView) -> bool {
    &&& p.len() == PAYLOAD_LEN
    &&& forall|j: int| 2 <= j < 8 ==> p[j] == 0
    &&& match n {
        NodeView::Leaf { keys, values, next } => {
            &&& p.subrange(0, 2) == le16(keys.len() as u16)
            &&& p.subrange(8, 16) == le64(next_raw(next))
            &&& forall|i: int| 0 <= i < keys.len() ==> #[trigger] leaf_entry_encodes(p, i, keys[i], values[i])
            &&& forall|j: int| leaf_entry_off(keys.len() as int) <= j < PAYLOAD_LEN ==> p[j] == 0
        },
        NodeView::Internal { keys, children } => {
            &&& p.subrange(0, 2) == le16(keys.len() as u16)
            &&& forall|i: int| 0 <= i < children.len() ==> #[trigger] p.subrange(child_off(i), child_off(i) + 8) == le64(children[i].0)
            &&& forall|i: int| 0 <= i < keys.len() ==> #[trigger] p.subrange(internal_key_off(keys.len() as int, i), internal_key_off(keys.len() as int, i) + 16) == le128(keys[i].0)
            &&& forall|j: int| internal_key_off(keys.len() as int, keys.len() as int) <= j < PAYLOAD_LEN ==> p[j] == 0
        },
    }
}

/// Decodes one B+Tree node without trusting persisted counts or slice ranges.
pub fn decode_node(page: &Page) -> (r: Result<Node, BTreeError>)
    requires
        page.wf(),
    ensures
        match r {
            Ok(n) => decoded_node(page@) == Some(n@),
            Err(e) => decoded_node(page@) is None && e is Corrupt,
        },
{
    let data = page.payload();
    let ghost d = data@;
    let kind = match page.kind() {
        Ok(k) => k,
        Err(_) => return Err(BTreeError::Corrupt("invalid page kind".to_owned())),
    };
    match kind {
        PageKind::BTreeLeaf => {
            let count = read_u16(data, 0)? as usize;
            if count > MAX_LEAF_ENTRIES {
                return Err(BTreeError::Corrupt("leaf count exceeds maximum".to_owned()));
            }
            let required = LEAF_HEADER + count * LEAF_ENTRY;
            if required > PAYLOAD_LEN {
                return Err(BTreeError::Corrupt("leaf payload exceeds page".to_owned()));
            }
            let next = read_u64(data, 8)?;
            let mut off = LEAF_HEADER;
            let mut keys: Vec<RowId> = Vec::with_capacity(count);
            let mut values: Vec<RowLocation> = Vec::with_capacity(count);
            let mut i: usize = 0;
            while i < count
                invariant
                    d == data@,
                    d.len() == PAYLOAD_LEN,
                    count <= MAX_LEAF_ENTRIES,
                    i <= count,
                    off == leaf_entry_off(i as int),
                    keys@.len() == i,
                    values@.len() == i,
                    forall|j: int| 0 <= j < i ==> keys@[j] == #[trigger] leaf_keys_of(d, count as int)[j],
                    forall|j: int| 0 <= j < i ==> values@[j] == #[trigger] leaf_values_of(d, count as int)[j],
                decreases count - i,
            {
                let key = RowId(read_u128(data, off)?);
                off = off + 16;
                let page_id = PageId(read_u64(data, off)?);
                off = off + 8;
                let slot_id = read_u16(data, off)?;
                off = off + 2;
                keys.push(key);
                values.push(RowLocation { page_id, slot_id });
                i = i + 1;
            }
            proof {
                assert(keys@ =~= leaf_keys_of(d, count as int));
                assert(values@ =~= leaf_values_of(d, count as int));
            }
            ensure_strictly_sorted(keys.as_slice(), "leaf")?;
            let next = if next != NONE_PAGE { Some(PageId(next)) } else { None };
            Ok(Node::Leaf(LeafNode { keys, values, next }))
        },
        PageKind::BTreeInternal => {
            let key_count = read_u16(data, 0)? as usize;
            if key_count > MAX_INTERNAL_KEYS {
                return Err(BTreeError::Corrupt("internal key count exceeds maximum".to_owned()));
            }
            let child_count = key_count + 1;
            let required = INTERNAL_HEADER + child_count * 8 + key_count * 16;
            if required > PAYLOAD_LEN {
                return Err(BTreeError::Corrupt("internal payload exceeds page".to_owned()));
            }
            let mut off = INTERNAL_HEADER;
            let mut children: Vec<PageId> = Vec::with_capacity(child_count);
            let mut i: usize = 0;
            while i < child_count
                invariant
                    d == data@,
                    d.len() == PAYLOAD_LEN,
                    key_count <= MAX_INTERNAL_KEYS,
                    child_count == key_count + 1,
                    i <= child_count,
                    off == child_off(i as int),
                    children@.len() == i,
                    forall|j: int| 0 <= j < i ==> children@[j] == #[trigger] internal_children_of(d, key_count as int)[j],
                decreases child_count - i,
            {
                children.push(PageId(read_u64(data, off)?));
                off = off + 8;
                i = i + 1;
            }
            let mut keys: Vec<RowId> = Vec::with_capacity(key_count);
            let mut i: usize = 0;
            while i < key_count
                invariant
                    d == data@,
                    d.len() == PAYLOAD_LEN,
                    key_count <= MAX_INTERNAL_KEYS,
                    i <= key_count,
                    off == internal_key_off(key_count as int, i as int),
                    keys@.len() == i,
                    forall|j: int| 0 <= j < i ==> keys@[j] == #[trigger] internal_keys_of(d, key_count as int)[j],
                decreases key_count - i,
            {
                keys.push(RowId(read_u128(data, off)?));
                off = off + 16;
                i = i + 1;
            }
            proof {
                assert(children@ =~= internal_children_of(d, key_count as int));
                assert(keys@ =~= internal_keys_of(d, key_count as int));
            }
            ensure_strictly_sorted(keys.as_slice(), "internal")?;
            Ok(Node::Internal(InternalNode { keys, children }))
        },
        PageKind::Heap => Err(BTreeError::Corrupt("unexpected page kind".to_owned())),
    }
}

/// Encodes one structurally valid B+Tree node into a page: sets the page
/// kind and replaces the whole payload by the node's encoding.
pub fn encode_node(page: &mut Page, node: &Node) -> (r: Result<(), BTreeError>)
    requires
        old(page).wf(),
    ensures
        final(page).wf(),
        final(page).page_id() == old(page).page_id(),
        match r {
            Ok(()) => {
                &&& node_valid(node@)
                &&& final(page)@.subrange(0, PAGE_HEADER_SIZE as int)
                    == splice(old(page)@, 4, le16(node_kind_tag(node@))).subrange(0, PAGE_HEADER_SIZE as int)
                &&& payload_encodes(final(page)@.subrange(PAGE_HEADER_SIZE as int, PAGE_SIZE as int), node@)
            },
            Err(e) => !node_valid(node@) && e is Corrupt && final(page)@ == old(page)@,
        },
{
    validate_node(node)?;
    match node {
        Node::Leaf(_) => page.set_kind(PageKind::BTreeLeaf),
        Node::Internal(_) => page.set_kind(PageKind::BTreeInternal),
    }
    let ghost s1 = page@;
    let mut buf: Vec<u8> = vec![0u8; PAYLOAD_LEN];
    proof {
        lemma_le_roundtrip();
    }
    match node {
        Node::Leaf(leaf) => {
            let n = leaf.keys.len();
            let ghost p0 = buf@;
            write_u16(buf.as_mut_slice(), 0, n as u16)?;
            let ghost p1 = buf@;
            let raw = match leaf.next {
                Some(p) => p.0,
                None => NONE_PAGE,
            };
            write_u64(buf.as_mut_slice(), 8, raw)?;
            proof {
                lemma_splice_subrange(p0, 0, le16(n as u16), 0, 2);
                lemma_splice_subrange(p1, 8, le64(raw), 0, 2);
                lemma_splice_subrange(p1, 8, le64(raw), 8, 16);
            }
            let mut off = LEAF_HEADER;
            let mut i: usize = 0;
            while i < n
                invariant
                    node_valid(node@),
                    node == Node::Leaf(*leaf),
                    n == leaf.keys@.len(),
                    i <= n,
                    off == leaf_entry_off(i as int),
                    buf@.len() == PAYLOAD_LEN,
                    forall|j: int| 2 <= j < 8 ==> buf@[j] == 0,
                    buf@.subrange(0, 2) == le16(n as u16),
                    buf@.subrange(8, 16) == le64(raw),
                    raw == next_raw(leaf.next),
                    forall|j: int| 0 <= j < i ==> #[trigger] leaf_entry_encodes(buf@, j, leaf.keys@[j], leaf.values@[j]),
                    forall|j: int| leaf_entry_off(i as int) <= j < PAYLOAD_LEN ==> buf@[j] == 0,
                decreases n - i,
            {
                let ghost q0 = buf@;
                write_u128(buf.as_mut_slice(), off, leaf.keys[i].0)?;
                let ghost q1 = buf@;
                write_u64(buf.as_mut_slice(), off + 16, leaf.values[i].page_id.0)?;
                let ghost q2 = buf@;
                write_u16(buf.as_mut_slice(), off + 24, leaf.values[i].slot_id)?;
                let ghost q3 = buf@;
                proof {
                    lemma_le_roundtrip();
                    let o = off as int;
                    lemma_splice_subrange(q0, o, le128(leaf.keys@[i as int].0), 0, 2);
                    lemma_splice_subrange(q1, o + 16, le64(leaf.values@[i as int].page_id.0), 0, 2);
                    lemma_splice_subrange(q2, o + 24, le16(leaf.values@[i as int].slot_id), 0, 2);
                    lemma_splice_subrange(q0, o, le128(leaf.keys@[i as int].0), 8, 16);
                    lemma_splice_subrange(q1, o + 16, le64(leaf.values@[i as int].page_id.0), 8, 16);
                    lemma_splice_subrange(q2, o + 24, le16(leaf.values@[i as int].slot_id), 8, 16);
                    lemma_splice_subrange(q0, o, le128(leaf.keys@[i as int].0), o, o + 16);
                    lemma_splice_subrange(q1, o + 16, le64(leaf.values@[i as int].page_id.0), o, o + 16);
                    lemma_splice_subrange(q2, o + 24, le16(leaf.values@[i as int].slot_id), o, o + 16);
                    lemma_splice_subrange(q1, o + 16, le64(leaf.values@[i as int].page_id.0), o + 16, o + 24);
                    lemma_splice_subrange(q2, o + 24, le16(leaf.values@[i as int].slot_id), o + 16, o + 24);
                    lemma_splice_subrange(q2, o + 24, le16(leaf.values@[i as int].slot_id), o + 24, o + 26);
                    assert forall|j: int| 0 <= j < i + 1 implies #[trigger] leaf_entry_encodes(q3, j, leaf.keys@[j], leaf.values@[j]) by {
                        if j < i {
                            let oj = leaf_entry_off(j);
                            assert(leaf_entry_encodes(q0, j, leaf.keys@[j], leaf.values@[j]));
                            lemma_splice_subrange(q0, o, le128(leaf.keys@[i as int].0), oj, oj + 16);
                            lemma_splice_subrange(q1, o + 16, le64(leaf.values@[i as int].page_id.0), oj, oj + 16);
                            lemma_splice_subrange(q2, o + 24, le16(leaf.values@[i as int].slot_id), oj, oj + 16);
                            lemma_splice_subrange(q0, o, le128(leaf.keys@[i as int].0), oj + 16, oj + 24);
                            lemma_splice_subrange(q1, o + 16, le64(leaf.values@[i as int].page_id.0), oj + 16, oj + 24);
                            lemma_splice_subrange(q2, o + 24, le16(leaf.values@[i as int].slot_id), oj + 16, oj + 24);
                            lemma_splice_subrange(q0, o, le128(leaf.keys@[i as int].0), oj + 24, oj + 26);
                            lemma_splice_subrange(q1, o + 16, le64(leaf.values@[i as int].page_id.0), oj + 24, oj + 26);
                            lemma_splice_subrange(q2, o + 24, le16(leaf.values@[i as int].slot_id), oj + 24, oj + 26);
                        }
                    }
                }
                off = off + LEAF_ENTRY;
                i = i + 1;
            }
        },
        Node::Internal(internal) => {
            let n = internal.keys.len();
            let ghost p0 = buf@;
            write_u16(buf.as_mut_slice(), 0, n as u16)?;
            proof {
                lemma_splice_subrange(p0, 0, le16(n as u16), 0, 2);
            }
            let mut off = INTERNAL_HEADER;
            let mut i: usize = 0;
            while i < n + 1
                invariant
                    node_valid(node@),
                    node == Node::Internal(*internal),
                    n == internal.keys@.len(),
                    internal.children@.len() == n + 1,
                    i <= n + 1,
                    off == child_off(i as int),
                    buf@.len() == PAYLOAD_LEN,
                    forall|j: int| 2 <= j < 8 ==> buf@[j] == 0,
                    buf@.subrange(0, 2) == le16(n as u16),
                    forall|j: int| 0 <= j < i ==> #[trigger] buf@.subrange(child_off(j), child_off(j) + 8) == le64(internal.children@[j].0),
                    forall|j: int| child_off(i as int) <= j < PAYLOAD_LEN ==> buf@[j] == 0,
                decreases n + 1 - i,
            {
                let ghost q0 = buf@;
                write_u64(buf.as_mut_slice(), off, internal.children[i].0)?;
                proof {
                    lemma_le_roundtrip();
                    let o = off as int;
                    lemma_splice_subrange(q0, o, le64(internal.children@[i as int].0), 0, 2);
                    lemma_splice_subrange(q0, o, le64(internal.children@[i as int].0), o, o + 8);
                    assert forall|j: int| 0 <= j < i + 1 implies #[trigger] buf@.subrange(child_off(j), child_off(j) + 8) == le64(internal.children@[j].0) by {
                        if j < i {
                            lemma_splice_subrange(q0, o, le64(internal.children@[i as int].0), child_off(j), child_off(j) + 8);
                        }
                    }
                }
                off = off + 8;
                i = i + 1;
            }
            let mut i: usize = 0;
            while i < n
                invariant
                    node_valid(node@),
                    node == Node::Internal(*internal),
                    n == internal.keys@.len(),
                    internal.children@.len() == n + 1,
                    i <= n,
                    off == internal_key_off(n as int, i as int),
                    buf@.len() == PAYLOAD_LEN,
                    forall|j: int| 2 <= j < 8 ==> buf@[j] == 0,
                    buf@.subrange(0, 2) == le16(n as u16),
                    forall|j: int| 0 <= j < n + 1 ==> #[trigger] buf@.subrange(child_off(j), child_off(j) + 8) == le64(internal.children@[j].0),
                    forall|j: int| 0 <= j < i ==> #[trigger] buf@.subrange(internal_key_off(n as int, j), internal_key_off(n as int, j) + 16) == le128(internal.keys@[j].0),
                    forall|j: int| internal_key_off(n as int, i as int) <= j < PAYLOAD_LEN ==> buf@[j] == 0,
                decreases n - i,
            {
                let ghost q0 = buf@;
                write_u128(buf.as_mut_slice(), off, internal.keys[i].0)?;
                proof {
                    lemma_le_roundtrip();
                    let o = off as int;
                    lemma_splice_subrange(q0, o, le128(internal.keys@[i as int].0), 0, 2);
                    lemma_splice_subrange(q0, o, le128(internal.keys@[i as int].0), o, o + 16);
                    assert forall|j: int| 0 <= j < n + 1 implies #[trigger] buf@.subrange(child_off(j), child_off(j) + 8) == le64(internal.children@[j].0) by {
                        lemma_splice_subrange(q0, o, le128(internal.keys@[i as int].0), child_off(j), child_off(j) + 8);
                    }
                    assert forall|j: int| 0 <= j < i + 1 implies #[trigger] buf@.subrange(internal_key_off(n as int, j), internal_key_off(n as int, j) + 16) == le128(internal.keys@[j].0) by {
                        if j < i {
                            lemma_splice_subrange(q0, o, le128(internal.keys@[i as int].0), internal_key_off(n as int, j), internal_key_off(n as int, j) + 16);
                        }
                    }
                }
                off = off + 16;
                i = i + 1;
            }
        },
    }
    write_bytes(page.bytes_mut(), PAGE_HEADER_SIZE, buf.as_slice());
    proof {
        let t = page@;
        assert(t.subrange(PAGE_HEADER_SIZE as int, PAGE_SIZE as int) =~= buf@);
        assert(t.subrange(0, PAGE_HEADER_SIZE as int) =~= s1.subrange(0, PAGE_HEADER_SIZE as int));
    }
    Ok(())
}

/// Validates vector lengths, maximum fanout and strict key order before
/// persistence.
fn validate_node(node: &Node) -> (r: Result<(), BTreeError>)
    ensures
        match r {
            Ok(()) => node_valid(node@),
            Err(e) => !node_valid(node@) && e is Corrupt,
        },
{
    match node {
        Node::Leaf(leaf) => {
            if leaf.keys.len() != leaf.values.len() {
                return Err(BTreeError::Corrupt("leaf key/value length mismatch".to_owned()));
            }
            if leaf.keys.len() > MAX_LEAF_ENTRIES {
                return Err(BTreeError::Corrupt("leaf exceeds maximum entries".to_owned()));
            }
            ensure_strictly_sorted(leaf.keys.as_slice(), "leaf")
        },
        Node::Internal(internal) => {
            if internal.keys.len() > MAX_INTERNAL_KEYS {
                return Err(BTreeError::Corrupt("internal exceeds maximum keys".to_owned()));
            }
            if internal.children.len() != internal.keys.len() + 1 {
                return Err(BTreeError::Corrupt("internal child/key shape mismatch".to_owned()));
            }
            ensure_strictly_sorted(internal.keys.as_slice(), "internal")
        },
    }
}

/// Ensures keys are strictly increasing so that routing stays valid.
pub(crate) fn ensure_strictly_sorted(keys: &[RowId], kind: &str) -> (r: Result<(), BTreeError>)
    ensures
        match r {
            Ok(()) => keys_strictly_sorted(keys@),
            Err(e) => !keys_strictly_sorted(keys@) && e is Corrupt,
        },
{
    let _ = kind;
    let n = keys.len();
    if n < 2 {
        return Ok(());
    }
    let mut i: usize = 1;
    while i < n
        invariant
            n == keys@.len(),
            1 <= i <= n,
            forall|a: int, b: int| 0 <= a < b < i ==> #[trigger] keys@[a].0 < #[trigger] keys@[b].0,
        decreases n - i,
    {
        if keys[i - 1].0 >= keys[i].0 {
            assert(!(keys@[i - 1].0 < keys@[i as int].0));
            return Err(BTreeError::Corrupt("keys are not strictly sorted".to_owned()));
        }
        i = i + 1;
    }
    Ok(())
}

/// Reads a little-endian `u16` after checking the requested range.
fn read_u16(b: &[u8], o: usize) -> (r: Result<u16, BTreeError>)
    requires
        o <= usize::MAX - 16,
    ensures
        match r {
            Ok(v) => o + 2 <= b@.len() && v == get16(b@, o as int),
            Err(e) => o + 2 > b@.len() && e is Corrupt,
        },
{
    if o + 2 > b.len() {
        return Err(BTreeError::Corrupt("u16 read outside node payload".to_owned()));
    }
    Ok(read16(b, o))
}

/// Reads a little-endian `u64` after checking the requested range.
fn read_u64(b: &[u8], o: usize) -> (r: Result<u64, BTreeError>)
    requires
        o <= usize::MAX - 16,
    ensures
        match r {
            Ok(v) => o + 8 <= b@.len() && v == get64(b@, o as int),
            Err(e) => o + 8 > b@.len() && e is Corrupt,
        },
{
    if o + 8 > b.len() {
        return Err(BTreeError::Corrupt("u64 read outside node payload".to_owned()));
    }
    Ok(read64(b, o))
}

/// Reads a little-endian `u128` after checking the requested range.
fn read_u128(b: &[u8], o: usize) -> (r: Result<u128, BTreeError>)
    requires
        o <= usize::MAX - 16,
    ensures
        match r {
            Ok(v) => o + 16 <= b@.len() && v == get128(b@, o as int),
            Err(e) => o + 16 > b@.len() && e is Corrupt,
        },
{
    if o + 16 > b.len() {
        return Err(BTreeError::Corrupt("u128 read outside node payload".to_owned()));
    }
    Ok(read128(b, o))
}

/// Writes a little-endian `u16` after checking the requested range.
fn write_u16(b: &mut [u8], o: usize, v: u16) -> (r: Result<(), BTreeError>)
    requires
        o <= usize::MAX - 16,
    ensures
        match r {
            Ok(()) => o + 2 <= old(b)@.len() && final(b)@ == splice(old(b)@, o as int, le16(v)),
            Err(e) => o + 2 > old(b)@.len() && e is Corrupt && final(b)@ == old(b)@,
        },
{
    if o + 2 > b.len() {
        return Err(BTreeError::Corrupt("u16 write outside node payload".to_owned()));
    }
    put16(b, o, v);
    Ok(())
}

/// Writes a little-endian `u64` after checking the requested range.
fn write_u64(b: &mut [u8], o: usize, v: u64) -> (r: Result<(), BTreeError>)
    requires
        o <= usize::MAX - 16,
    ensures
        match r {
            Ok(()) => o + 8 <= old(b)@.len() && final(b)@ == splice(old(b)@, o as int, le64(v)),
            Err(e) => o + 8 > old(b)@.len() && e is Corrupt && final(b)@ == old(b)@,
        },
{
    if o + 8 > b.len() {
        return Err(BTreeError::Corrupt("u64 write outside node payload".to_owned()));
    }
    put64(b, o, v);
    Ok(())
}

/// Writes a little-endian `u128` after checking the requested range.
fn write_u128(b: &mut [u8], o: usize, v: u128) -> (r: Result<(), BTreeError>)
    requires
        o <= usize::MAX - 16,
    ensures
        match r {
            Ok(()) => o + 16 <= old(b)@.len() && final(b)@ == splice(old(b)@, o as int, le128(v)),
            Err(e) => o + 16 > old(b)@.len() && e is Corrupt && final(b)@ == old(b)@,
        },
{
    if o + 16 > b.len() {
        return Err(BTreeError::Corrupt("u128 write outside node payload".to_owned()));
    }
    put128(b, o, v);
    Ok(())
}

/// The node as it reads back from its encoding: a leaf whose right sibling
/// is the page numbered `u64::MAX` reads back with no sibling, since that
/// number encodes "none".
pub open spec fn stored_node(n: NodeView) -> NodeView {
    match n {
        NodeView::Leaf { keys, values, next } => NodeView::Leaf { keys, values, next: next_of_raw(next_raw(next)) },
        NodeView::Internal { .. } => n,
    }
}

/// Decoding reads back what encoding wrote, up to the sibling number that
/// stands for "none" (see `stored_node`).
pub proof fn lemma_node_codec_stored(s: Seq<u8>, n: NodeView)
    requires
        s.len() == PAGE_SIZE,
        node_valid(n),
        hdr_kind(s) == node_kind_tag(n),
        payload_encodes(s.subrange(PAGE_HEADER_SIZE as int, PAGE_SIZE as int), n),
    ensures
        decoded_node(s) == Some(stored_node(n)),
{
    lemma_le_roundtrip();
    let d = s.subrange(PAGE_HEADER_SIZE as int, PAGE_SIZE as int);
    match n {
        NodeView::Leaf { keys, values, next } => {
            let c = keys.len() as int;
            assert(get16(d, 0) == keys.len() as u16);
            assert(get16(d, 0) as int == c);
            assert forall|i: int| 0 <= i < c implies #[trigger] leaf_keys_of(d, c)[i] == keys[i] by {
                assert(leaf_entry_encodes(d, i, keys[i], values[i]));
            }
            assert forall|i: int| 0 <= i < c implies #[trigger] leaf_values_of(d, c)[i] == values[i] by {
                assert(leaf_entry_encodes(d, i, keys[i], values[i]));
            }
            assert(leaf_keys_of(d, c) =~= keys);
            assert(leaf_values_of(d, c) =~= values);
            assert(get64(d, 8) == next_raw(next));
        },
        NodeView::Internal { keys, children } => {
            let c = keys.len() as int;
            assert(get16(d, 0) as int == c);
            assert forall|i: int| 0 <= i < c + 1 implies #[trigger] internal_children_of(d, c)[i] == children[i] by {
                assert(d.subrange(child_off(i), child_off(i) + 8) == le64(children[i].0));
            }
            assert forall|i: int| 0 <= i < c implies #[trigger] internal_keys_of(d, c)[i] == keys[i] by {
                assert(d.subrange(internal_key_off(c, i), internal_key_off(c, i) + 16) == le128(keys[i].0));
            }
            assert(internal_children_of(d, c) =~= children);
            assert(internal_keys_of(d, c) =~= keys);
        },
    }
}

/// Decoding gives back what encoding wrote: a page whose kind tag and payload
/// encode a valid node decodes to exactly that node. A leaf whose right
/// sibling is the page numbered `u64::MAX` is the one exception, since that
/// number encodes "no sibling".
pub proof fn lemma_node_codec_roundtrip(s: Seq<u8>, n: NodeView)
    requires
        s.len() == PAGE_SIZE,
        node_valid(n),
        hdr_kind(s) == node_kind_tag(n),
        payload_encodes(s.subrange(PAGE_HEADER_SIZE as int, PAGE_SIZE as int), n),
        n matches NodeView::Leaf { next, .. } ==> next != Some(PageId(NONE_PAGE)),
    ensures
        decoded_node(s) == Some(n),
{
    lemma_node_codec_stored(s, n);
}

/// Sealing a page for write changes no byte that the node decoder reads.
pub proof fn lemma_decoded_node_sealed(s: Seq<u8>)
    requires
        s.len() == PAGE_SIZE,
    ensures
        decoded_node(sealed_image(s)) == decoded_node(s),
{
    lemma_sealed_unchanged_outside(s, OFF_KIND as int, OFF_KIND + 2);
    lemma_sealed_unchanged_outside(s, PAGE_HEADER_SIZE as int, PAGE_SIZE as int);
}

} // verus!
