//! Page codec of the temporal version-index nodes, with bounded, panic-free
//! structural validation.
//!
//! Leaf payload: entry count u16 @0, next-leaf page u64 @8 (`u64::MAX` for
//! none), then 34-byte entries from @16: row id u128, begin timestamp u64,
//! page id u64, slot u16. Internal payload: key count u16 @0, then
//! `count + 1` child page ids u64 from @8, then 24-byte keys (row id u128,
//! begin timestamp u64). Every other payload byte is zero.
use vstd::prelude::*;
use crate::btree::codec::{child_off, next_of_raw, next_raw, NONE_PAGE, PAYLOAD_LEN};
use crate::btree::error::BTreeError;
use crate::btree::version_node::{
    version_keys_sorted, version_node_valid, VersionInternalNode, VersionLeafNode, VersionNode,
    VersionNodeView, MAX_VERSION_INTERNAL_KEYS, MAX_VERSION_LEAF_ENTRIES,
};
use crate::ids::{version_key_lt, CommitTs, PageId, RowId, RowLocation, VersionKey};
use crate::le::{
    get128, get16, get64, le128, le16, le64, lemma_le_roundtrip, lemma_splice_subrange, put128,
    put16, put64, read128, read16, read64, splice, write_bytes,
};
use crate::page::{
    hdr_kind, kind_of_tag, kind_tag, lemma_sealed_unchanged_outside, sealed_image, Page, PageKind, OFF_KIND,
    PAGE_HEADER_SIZE, PAGE_SIZE,
};

verus! {

pub const VERSION_LEAF_HEADER: usize = 16;
pub const VERSION_LEAF_ENTRY: usize = 34;
pub const VERSION_INTERNAL_HEADER: usize = 8;
pub const VERSION_KEY_SIZE: usize = 24;

pub open spec fn vleaf_entry_off(i: int) -> int {
    VERSION_LEAF_HEADER + i * VERSION_LEAF_ENTRY
}

/// Offset of separator key `i` of a version internal node with `n` keys.
pub open spec fn vkey_off(n: int, i: int) -> int {
    VERSION_INTERNAL_HEADER + (n + 1) * 8 + i * VERSION_KEY_SIZE
}

pub open spec fn key_at(d: Seq<u8>, o: int) -> VersionKey {
    VersionKey { row_id: RowId(get128(d, o)), begin_ts: CommitTs(get64(d, o + 16)) }
}

pub open spec fn vleaf_keys_of(d: Seq<u8>, n: int) -> Seq<VersionKey> {
    Seq::new(n as nat, |i: int| key_at(d, vleaf_entry_off(i)))
}

pub open spec fn vleaf_values_of(d: Seq<u8>, n: int) -> Seq<RowLocation> {
    Seq::new(
        n as nat,
        |i: int|
            RowLocation {
                page_id: PageId(get64(d, vleaf_entry_off(i) + 24)),
                slot_id: get16(d, vleaf_entry_off(i) + 32),
            },
    )
}

pub open spec fn vinternal_children_of(d: Seq<u8>, n: int) -> Seq<PageId> {
    Seq::new((n + 1) as nat, |i: int| PageId(get64(d, child_off(i))))
}

pub open spec fn vinternal_keys_of(d: Seq<u8>, n: int) -> Seq<VersionKey> {
    Seq::new(n as nat, |i: int| key_at(d, vkey_off(n, i)))
}

/// The version node that `decode_version_node` reads from a page image, if any.
pub open spec fn decoded_version_node(s: Seq<u8>) -> Option<VersionNodeView> {
    let d = s.subrange(PAGE_HEADER_SIZE as int, PAGE_SIZE as int);
    let n = get16(d, 0) as int;
    match kind_of_tag(hdr_kind(s)) {
        Some(PageKind::BTreeLeaf) => if n <= MAX_VERSION_LEAF_ENTRIES && version_keys_sorted(vleaf_keys_of(d, n)) {
            Some(VersionNodeView::Leaf { keys: vleaf_keys_of(d, n), values: vleaf_values_of(d, n), next: next_of_raw(get64(d, 8)) })
        } else {
            None
        },
        Some(PageKind::BTreeInternal) => if n <= MAX_VERSION_INTERNAL_KEYS && version_keys_sorted(vinternal_keys_of(d, n)) {
            Some(VersionNodeView::Internal { keys: vinternal_keys_of(d, n), children: vinternal_children_of(d, n) })
        } else {
            None
        },
        _ => None,
    }
}

pub open spec fn version_node_kind_tag(n: VersionNodeView) -> u16 {
    match n {
        VersionNodeView::Leaf { .. } => kind_tag(PageKind::BTreeLeaf),
        VersionNodeView::Internal { .. } => kind_tag(PageKind::BTreeInternal),
    }
}

pub open spec fn key_encodes(p: Seq<u8>, o: int, k: VersionKey) -> bool {
    &&& p.subrange(o, o + 16) == le128(k.row_id.0)
    &&& p.subrange(o + 16, o + 24) == le64(k.begin_ts.0)
}

pub open spec fn vleaf_entry_encodes(p: Seq<u8>, i: int, k: VersionKey, v: RowLocation) -> bool {
    let o = vleaf_entry_off(i);
    &&& key_encodes(p, o, k)
    &&& p.subrange(o + 24, o + 32) == le64(v.page_id.0)
    &&& p.subrange(o + 32, o + 34) == le16(v.slot_id)
}

/// `p` is exactly the payload that encodes the version node `n`.
pub open spec fn version_payload_encodes(p: Seq<u8>, n: VersionNodeView) -> bool {
    &&& p.len() == PAYLOAD_LEN
    &&& forall|j: int| 2 <= j < 8 ==> p[j] == 0
    &&& match n {
        VersionNodeView::Leaf { keys, values, next } => {
            &&& p.subrange(0, 2) == le16(keys.len() as u16)
            &&& p.subrange(8, 16) == le64(next_raw(next))
            &&& forall|i: int| 0 <= i < keys.len() ==> #[trigger] vleaf_entry_encodes(p, i, keys[i], values[i])
            &&& forall|j: int| vleaf_entry_off(keys.len() as int) <= j < PAYLOAD_LEN ==> p[j] == 0
        },
        VersionNodeView::Internal { keys, children } => {
            &&& p.subrange(0, 2) == le16(keys.len() as u16)
            &&& forall|i: int| 0 <= i < children.len() ==> #[trigger] p.subrange(child_off(i), child_off(i) + 8) == le64(children[i].0)
            &&& forall|i: int| 0 <= i < keys.len() ==> #[trigger] key_encodes(p, vkey_off(keys.len() as int, i), keys[i])
            &&& forall|j: int| vkey_off(keys.len() as int, keys.len() as int) <= j < PAYLOAD_LEN ==> p[j] == 0
        },
    }
}

/// Decodes one temporal-index node after validating count, bounds, shape and
/// key order.
pub fn decode_version_node(page: &Page) -> (r: Result<VersionNode, BTreeError>)
    requires
        page.wf(),
    ensures
        match r {
            Ok(n) => decoded_version_node(page@) == Some(n@),
            Err(e) => decoded_version_node(page@) is None && e is Corrupt,
        },
{
    let d = page.payload();
    let ghost g = d@;
    let kind = match page.kind() {
        Ok(k) => k,
        Err(_) => return Err(BTreeError::Corrupt("invalid page kind".to_owned())),
    };
    match kind {
        PageKind::BTreeLeaf => {
            let n = r16(d, 0)? as usize;
            if n > MAX_VERSION_LEAF_ENTRIES || VERSION_LEAF_HEADER + n * VERSION_LEAF_ENTRY > PAYLOAD_LEN {
                return Err(BTreeError::Corrupt("invalid version leaf count/size".to_owned()));
            }
            let next = r64(d, 8)?;
            let mut o: usize = 16;
            let mut ks: Vec<VersionKey> = Vec::with_capacity(n);
            let mut vs: Vec<RowLocation> = Vec::with_capacity(n);
            let mut i: usize = 0;
            while i < n
                invariant
                    g == d@,
                    g.len() == PAYLOAD_LEN,
                    n <= MAX_VERSION_LEAF_ENTRIES,
                    i <= n,
                    o == vleaf_entry_off(i as int),
                    ks@.len() == i,
                    vs@.len() == i,
                    forall|j: int| 0 <= j < i ==> ks@[j] == #[trigger] vleaf_keys_of(g, n as int)[j],
                    forall|j: int| 0 <= j < i ==> vs@[j] == #[trigger] vleaf_values_of(g, n as int)[j],
                decreases n - i,
            {
                let k = VersionKey::new(RowId(r128(d, o)?), CommitTs(r64(d, o + 16)?));
                o = o + 24;
                vs.push(RowLocation { page_id: PageId(r64(d, o)?), slot_id: r16(d, o + 8)? });
                o = o + 10;
                ks.push(k);
                i = i + 1;
            }
            proof {
                assert(ks@ =~= vleaf_keys_of(g, n as int));
                assert(vs@ =~= vleaf_values_of(g, n as int));
            }
            sorted(ks.as_slice(), "version leaf")?;
            let next = if next != NONE_PAGE { Some(PageId(next)) } else { None };
            Ok(VersionNode::Leaf(VersionLeafNode { keys: ks, values: vs, next }))
        },
        PageKind::BTreeInternal => {
            let n = r16(d, 0)? as usize;
            if n > MAX_VERSION_INTERNAL_KEYS {
                return Err(BTreeError::Corrupt("invalid version internal count".to_owned()));
            }
            let c = n + 1;
            if VERSION_INTERNAL_HEADER + c * 8 + n * VERSION_KEY_SIZE > PAYLOAD_LEN {
                return Err(BTreeError::Corrupt("version internal payload exceeds page".to_owned()));
            }
            let mut o: usize = 8;
            let mut cs: Vec<PageId> = Vec::with_capacity(c);
            let mut i: usize = 0;
            while i < c
                invariant
                    g == d@,
                    g.len() == PAYLOAD_LEN,
                    n <= MAX_VERSION_INTERNAL_KEYS,
                    c == n + 1,
                    i <= c,
                    o == child_off(i as int),
                    cs@.len() == i,
                    forall|j: int| 0 <= j < i ==> cs@[j] == #[trigger] vinternal_children_of(g, n as int)[j],
                decreases c - i,
            {
                cs.push(PageId(r64(d, o)?));
                o = o + 8;
                i = i + 1;
            }
            let mut ks: Vec<VersionKey> = Vec::with_capacity(n);
            let mut i: usize = 0;
            while i < n
                invariant
                    g == d@,
                    g.len() == PAYLOAD_LEN,
                    n <= MAX_VERSION_INTERNAL_KEYS,
                    i <= n,
                    o == vkey_off(n as int, i as int),
                    ks@.len() == i,
                    forall|j: int| 0 <= j < i ==> ks@[j] == #[trigger] vinternal_keys_of(g, n as int)[j],
                decreases n - i,
            {
                ks.push(VersionKey::new(RowId(r128(d, o)?), CommitTs(r64(d, o + 16)?)));
                o = o + 24;
                i = i + 1;
            }
            proof {
                assert(cs@ =~= vinternal_children_of(g, n as int));
                assert(ks@ =~= vinternal_keys_of(g, n as int));
            }
            sorted(ks.as_slice(), "version internal")?;
            Ok(VersionNode::Internal(VersionInternalNode { keys: ks, children: cs }))
        },
        PageKind::Heap => Err(BTreeError::Corrupt("unexpected page kind".to_owned())),
    }
}

/// Writes one version key (row id, then begin timestamp) at `o`.
fn write_key(d: &mut [u8], o: usize, k: VersionKey) -> (r: Result<(), BTreeError>)
    requires
        o + VERSION_KEY_SIZE <= old(d)@.len(),
        o <= usize::MAX - 128,
    ensures
        r is Ok,
        final(d)@ == splice(splice(old(d)@, o as int, le128(k.row_id.0)), o + 16, le64(k.begin_ts.0)),
{
    w128(d, o, k.row_id.0)?;
    w64(d, o + 16, k.begin_ts.0)?;
    Ok(())
}

/// Facts about the bytes written by `write_key`.
proof fn lemma_write_key(q: Seq<u8>, o: int, k: VersionKey, lo: int, hi: int)
    requires
        0 <= o,
        o + 24 <= q.len(),
        0 <= lo <= hi <= q.len(),
    ensures
        key_encodes(splice(splice(q, o, le128(k.row_id.0)), o + 16, le64(k.begin_ts.0)), o, k),
        hi <= o || o + 24 <= lo ==> splice(splice(q, o, le128(k.row_id.0)), o + 16, le64(k.begin_ts.0)).subrange(lo, hi) == q.subrange(lo, hi),
        splice(splice(q, o, le128(k.row_id.0)), o + 16, le64(k.begin_ts.0)).len() == q.len(),
{
    lemma_le_roundtrip();
    let q1 = splice(q, o, le128(k.row_id.0));
    lemma_splice_subrange(q, o, le128(k.row_id.0), o, o + 16);
    lemma_splice_subrange(q1, o + 16, le64(k.begin_ts.0), o, o + 16);
    lemma_splice_subrange(q1, o + 16, le64(k.begin_ts.0), o + 16, o + 24);
    if hi <= o || o + 24 <= lo {
        lemma_splice_subrange(q, o, le128(k.row_id.0), lo, hi);
        lemma_splice_subrange(q1, o + 16, le64(k.begin_ts.0), lo, hi);
    }
}

/// Encodes one structurally valid temporal-index node into a page: sets the
/// page kind and replaces the whole payload by the node's encoding.
pub fn encode_version_node(page: &mut Page, node: &VersionNode) -> (r: Result<(), BTreeError>)
    requires
        old(page).wf(),
    ensures
        final(page).wf(),
        final(page).page_id() == old(page).page_id(),
        match r {
            Ok(()) => {
                &&& version_node_valid(node@)
                &&& final(page)@.subrange(0, PAGE_HEADER_SIZE as int)
                    == splice(old(page)@, 4, le16(version_node_kind_tag(node@))).subrange(0, PAGE_HEADER_SIZE as int)
                &&& version_payload_encodes(final(page)@.subrange(PAGE_HEADER_SIZE as int, PAGE_SIZE as int), node@)
            },
            Err(e) => !version_node_valid(node@) && e is Corrupt && final(page)@ == old(page)@,
        },
{
    validate(node)?;
    page.set_kind(match node {
        VersionNode::Leaf(_) => PageKind::BTreeLeaf,
        VersionNode::Internal(_) => PageKind::BTreeInternal,
    });
    let ghost s1 = page@;
    let mut d: Vec<u8> = vec![0u8; PAYLOAD_LEN];
    proof {
        lemma_le_roundtrip();
    }
    match node {
        VersionNode::Leaf(l) => {
            let n = l.keys.len();
            let ghost p0 = d@;
            w16(d.as_mut_slice(), 0, n as u16)?;
            let ghost p1 = d@;
            let raw = match l.next {
                Some(p) => p.0,
                None => NONE_PAGE,
            };
            w64(d.as_mut_slice(), 8, raw)?;
            proof {
                lemma_splice_subrange(p0, 0, le16(n as u16), 0, 2);
                lemma_splice_subrange(p1, 8, le64(raw), 0, 2);
                lemma_splice_subrange(p1, 8, le64(raw), 8, 16);
            }
            let mut o: usize = 16;
            let mut i: usize = 0;
            while i < n
                invariant
                    version_node_valid(node@),
                    node == VersionNode::Leaf(*l),
                    n == l.keys@.len(),
                    i <= n,
                    o == vleaf_entry_off(i as int),
                    d@.len() == PAYLOAD_LEN,
                    forall|j: int| 2 <= j < 8 ==> d@[j] == 0,
                    d@.subrange(0, 2) == le16(n as u16),
                    d@.subrange(8, 16) == le64(raw),
                    raw == next_raw(l.next),
                    forall|j: int| 0 <= j < i ==> #[trigger] vleaf_entry_encodes(d@, j, l.keys@[j], l.values@[j]),
                    forall|j: int| vleaf_entry_off(i as int) <= j < PAYLOAD_LEN ==> d@[j] == 0,
                decreases n - i,
            {
                let ghost q0 = d@;
                write_key(d.as_mut_slice(), o, l.keys[i])?;
                let ghost q1 = d@;
                w64(d.as_mut_slice(), o + 24, l.values[i].page_id.0)?;
                let ghost q2 = d@;
                w16(d.as_mut_slice(), o + 32, l.values[i].slot_id)?;
                proof {
                    lemma_le_roundtrip();
                    let oo = o as int;
                    let k = l.keys@[i as int];
                    let v = l.values@[i as int];
                    lemma_write_key(q0, oo, k, 0, 2);
                    lemma_write_key(q0, oo, k, 8, 16);
                    lemma_splice_subrange(q1, oo + 24, le64(v.page_id.0), 0, 2);
                    lemma_splice_subrange(q2, oo + 32, le16(v.slot_id), 0, 2);
                    lemma_splice_subrange(q1, oo + 24, le64(v.page_id.0), 8, 16);
                    lemma_splice_subrange(q2, oo + 32, le16(v.slot_id), 8, 16);
                    lemma_splice_subrange(q1, oo + 24, le64(v.page_id.0), oo, oo + 16);
                    lemma_splice_subrange(q2, oo + 32, le16(v.slot_id), oo, oo + 16);
                    lemma_splice_subrange(q1, oo + 24, le64(v.page_id.0), oo + 16, oo + 24);
                    lemma_splice_subrange(q2, oo + 32, le16(v.slot_id), oo + 16, oo + 24);
                    lemma_splice_subrange(q1, oo + 24, le64(v.page_id.0), oo + 24, oo + 32);
                    lemma_splice_subrange(q2, oo + 32, le16(v.slot_id), oo + 24, oo + 32);
                    lemma_splice_subrange(q2, oo + 32, le16(v.slot_id), oo + 32, oo + 34);
                    assert forall|j: int| 0 <= j < i + 1 implies #[trigger] vleaf_entry_encodes(d@, j, l.keys@[j], l.values@[j]) by {
                        if j < i {
                            let oj = vleaf_entry_off(j);
                            assert(vleaf_entry_encodes(q0, j, l.keys@[j], l.values@[j]));
                            lemma_write_key(q0, oo, k, oj, oj + 16);
                            lemma_write_key(q0, oo, k, oj + 16, oj + 24);
                            lemma_write_key(q0, oo, k, oj + 24, oj + 32);
                            lemma_write_key(q0, oo, k, oj + 32, oj + 34);
                            lemma_splice_subrange(q1, oo + 24, le64(v.page_id.0), oj, oj + 16);
                            lemma_splice_subrange(q2, oo + 32, le16(v.slot_id), oj, oj + 16);
                            lemma_splice_subrange(q1, oo + 24, le64(v.page_id.0), oj + 16, oj + 24);
                            lemma_splice_subrange(q2, oo + 32, le16(v.slot_id), oj + 16, oj + 24);
                            lemma_splice_subrange(q1, oo + 24, le64(v.page_id.0), oj + 24, oj + 32);
                            lemma_splice_subrange(q2, oo + 32, le16(v.slot_id), oj + 24, oj + 32);
                            lemma_splice_subrange(q1, oo + 24, le64(v.page_id.0), oj + 32, oj + 34);
                            lemma_splice_subrange(q2, oo + 32, le16(v.slot_id), oj + 32, oj + 34);
                        }
                    }
                }
                o = o + VERSION_LEAF_ENTRY;
                i = i + 1;
            }
        },
        VersionNode::Internal(it) => {
            let n = it.keys.len();
            let ghost p0 = d@;
            w16(d.as_mut_slice(), 0, n as u16)?;
            proof {
                lemma_splice_subrange(p0, 0, le16(n as u16), 0, 2);
            }
            let mut o: usize = 8;
            let mut i: usize = 0;
            while i < n + 1
                invariant
                    version_node_valid(node@),
                    node == VersionNode::Internal(*it),
                    n == it.keys@.len(),
                    it.children@.len() == n + 1,
                    i <= n + 1,
                    o == child_off(i as int),
                    d@.len() == PAYLOAD_LEN,
                    forall|j: int| 2 <= j < 8 ==> d@[j] == 0,
                    d@.subrange(0, 2) == le16(n as u16),
                    forall|j: int| 0 <= j < i ==> #[trigger] d@.subrange(child_off(j), child_off(j) + 8) == le64(it.children@[j].0),
                    forall|j: int| child_off(i as int) <= j < PAYLOAD_LEN ==> d@[j] == 0,
                decreases n + 1 - i,
            {
                let ghost q0 = d@;
                w64(d.as_mut_slice(), o, it.children[i].0)?;
                proof {
                    lemma_le_roundtrip();
                    let oo = o as int;
                    lemma_splice_subrange(q0, oo, le64(it.children@[i as int].0), 0, 2);
                    lemma_splice_subrange(q0, oo, le64(it.children@[i as int].0), oo, oo + 8);
                    assert forall|j: int| 0 <= j < i + 1 implies #[trigger] d@.subrange(child_off(j), child_off(j) + 8) == le64(it.children@[j].0) by {
                        if j < i {
                            lemma_splice_subrange(q0, oo, le64(it.children@[i as int].0), child_off(j), child_off(j) + 8);
                        }
                    }
                }
                o = o + 8;
                i = i + 1;
            }
            let mut i: usize = 0;
            while i < n
                invariant
                    version_node_valid(node@),
                    node == VersionNode::Internal(*it),
                    n == it.keys@.len(),
                    it.children@.len() == n + 1,
                    i <= n,
                    o == vkey_off(n as int, i as int),
                    d@.len() == PAYLOAD_LEN,
                    forall|j: int| 2 <= j < 8 ==> d@[j] == 0,
                    d@.subrange(0, 2) == le16(n as u16),
                    forall|j: int| 0 <= j < n + 1 ==> #[trigger] d@.subrange(child_off(j), child_off(j) + 8) == le64(it.children@[j].0),
                    forall|j: int| 0 <= j < i ==> #[trigger] key_encodes(d@, vkey_off(n as int, j), it.keys@[j]),
                    forall|j: int| vkey_off(n as int, i as int) <= j < PAYLOAD_LEN ==> d@[j] == 0,
                decreases n - i,
            {
                let ghost q0 = d@;
                write_key(d.as_mut_slice(), o, it.keys[i])?;
                proof {
                    let oo = o as int;
                    let k = it.keys@[i as int];
                    lemma_write_key(q0, oo, k, 0, 2);
                    assert forall|j: int| 0 <= j < n + 1 implies #[trigger] d@.subrange(child_off(j), child_off(j) + 8) == le64(it.children@[j].0) by {
                        lemma_write_key(q0, oo, k, child_off(j), child_off(j) + 8);
                    }
                    assert forall|j: int| 0 <= j < i + 1 implies #[trigger] key_encodes(d@, vkey_off(n as int, j), it.keys@[j]) by {
                        if j < i {
                            let oj = vkey_off(n as int, j);
                            assert(key_encodes(q0, oj, it.keys@[j]));
                            lemma_write_key(q0, oo, k, oj, oj + 16);
                            lemma_write_key(q0, oo, k, oj + 16, oj + 24);
                        }
                    }
                }
                o = o + VERSION_KEY_SIZE;
                i = i + 1;
            }
        },
    }
    write_bytes(page.bytes_mut(), PAGE_HEADER_SIZE, d.as_slice());
    proof {
        let t = page@;
        assert(t.subrange(PAGE_HEADER_SIZE as int, PAGE_SIZE as int) =~= d@);
        assert(t.subrange(0, PAGE_HEADER_SIZE as int) =~= s1.subrange(0, PAGE_HEADER_SIZE as int));
    }
    Ok(())
}

/// Validates version-node vector shape and key ordering.
fn validate(n: &VersionNode) -> (r: Result<(), BTreeError>)
    ensures
        match r {
            Ok(()) => version_node_valid(n@),
            Err(e) => !version_node_valid(n@) && e is Corrupt,
        },
{
    match n {
        VersionNode::Leaf(l) => {
            if l.keys.len() != l.values.len() || l.keys.len() > MAX_VERSION_LEAF_ENTRIES {
                return Err(BTreeError::Corrupt("invalid version leaf shape".to_owned()));
            }
            sorted(l.keys.as_slice(), "version leaf")
        },
        VersionNode::Internal(i) => {
            if i.keys.len() > MAX_VERSION_INTERNAL_KEYS || i.children.len() != i.keys.len() + 1 {
                return Err(BTreeError::Corrupt("invalid version internal shape".to_owned()));
            }
            sorted(i.keys.as_slice(), "version internal")
        },
    }
}

/// Requires strictly increasing version keys.
pub(crate) fn sorted(k: &[VersionKey], kind: &str) -> (r: Result<(), BTreeError>)
    ensures
        match r {
            Ok(()) => version_keys_sorted(k@),
            Err(e) => !version_keys_sorted(k@) && e is Corrupt,
        },
{
    let _ = kind;
    let n = k.len();
    if n < 2 {
        return Ok(());
    }
    let mut i: usize = 1;
    while i < n
        invariant
            n == k@.len(),
            1 <= i <= n,
            forall|a: int, b: int| 0 <= a < b < i ==> version_key_lt(#[trigger] k@[a], #[trigger] k@[b]),
        decreases n - i,
    {
        if !k[i - 1].lt(&k[i]) {
            assert(!version_key_lt(k@[i - 1], k@[i as int]));
            return Err(BTreeError::Corrupt("version keys not sorted".to_owned()));
        }
        i = i + 1;
    }
    Ok(())
}

/// Reads a `u16` safely.
fn r16(b: &[u8], o: usize) -> (r: Result<u16, BTreeError>)
    requires
        o <= usize::MAX - 64,
    ensures
        match r {
            Ok(v) => o + 2 <= b@.len() && v == get16(b@, o as int),
            Err(e) => o + 2 > b@.len() && e is Corrupt,
        },
{
    if o + 2 > b.len() {
        return Err(BTreeError::Corrupt("u16 read outside payload".to_owned()));
    }
    Ok(read16(b, o))
}

/// Reads a `u64` safely.
fn r64(b: &[u8], o: usize) -> (r: Result<u64, BTreeError>)
    requires
        o <= usize::MAX - 64,
    ensures
        match r {
            Ok(v) => o + 8 <= b@.len() && v == get64(b@, o as int),
            Err(e) => o + 8 > b@.len() && e is Corrupt,
        },
{
    if o + 8 > b.len() {
        return Err(BTreeError::Corrupt("u64 read outside payload".to_owned()));
    }
    Ok(read64(b, o))
}

/// Reads a `u128` safely.
fn r128(b: &[u8], o: usize) -> (r: Result<u128, BTreeError>)
    requires
        o <= usize::MAX - 64,
    ensures
        match r {
            Ok(v) => o + 16 <= b@.len() && v == get128(b@, o as int),
            Err(e) => o + 16 > b@.len() && e is Corrupt,
        },
{
    if o + 16 > b.len() {
        return Err(BTreeError::Corrupt("u128 read outside payload".to_owned()));
    }
    Ok(read128(b, o))
}

/// Writes a `u16` safely.
fn w16(b: &mut [u8], o: usize, v: u16) -> (r: Result<(), BTreeError>)
    requires
        o <= usize::MAX - 64,
    ensures
        match r {
            Ok(()) => o + 2 <= old(b)@.len() && final(b)@ == splice(old(b)@, o as int, le16(v)),
            Err(e) => o + 2 > old(b)@.len() && e is Corrupt && final(b)@ == old(b)@,
        },
{
    if o + 2 > b.len() {
        return Err(BTreeError::Corrupt("u16 write outside payload".to_owned()));
    }
    put16(b, o, v);
    Ok(())
}

/// Writes a `u64` safely.
fn w64(b: &mut [u8], o: usize, v: u64) -> (r: Result<(), BTreeError>)
    requires
        o <= usize::MAX - 64,
    ensures
        match r {
            Ok(()) => o + 8 <= old(b)@.len() && final(b)@ == splice(old(b)@, o as int, le64(v)),
            Err(e) => o + 8 > old(b)@.len() && e is Corrupt && final(b)@ == old(b)@,
        },
{
    if o + 8 > b.len() {
        return Err(BTreeError::Corrupt("u64 write outside payload".to_owned()));
    }
    put64(b, o, v);
    Ok(())
}

/// Writes a `u128` safely.
fn w128(b: &mut [u8], o: usize, v: u128) -> (r: Result<(), BTreeError>)
    requires
        o <= usize::MAX - 64,
    ensures
        match r {
            Ok(()) => o + 16 <= old(b)@.len() && final(b)@ == splice(old(b)@, o as int, le128(v)),
            Err(e) => o + 16 > old(b)@.len() && e is Corrupt && final(b)@ == old(b)@,
        },
{
    if o + 16 > b.len() {
        return Err(BTreeError::Corrupt("u128 write outside payload".to_owned()));
    }
    put128(b, o, v);
    Ok(())
}

/// The version node as it reads back from its encoding: a leaf whose right
/// sibling is the page numbered `u64::MAX` reads back with no sibling.
pub open spec fn stored_version_node(n: VersionNodeView) -> VersionNodeView {
    match n {
        VersionNodeView::Leaf { keys, values, next } => VersionNodeView::Leaf { keys, values, next: next_of_raw(next_raw(next)) },
        VersionNodeView::Internal { .. } => n,
    }
}

/// Decoding reads back what encoding wrote, up to the sibling number that
/// stands for "none" (see `stored_version_node`).
pub proof fn lemma_version_node_codec_stored(s: Seq<u8>, n: VersionNodeView)
    requires
        s.len() == PAGE_SIZE,
        version_node_valid(n),
        hdr_kind(s) == version_node_kind_tag(n),
        version_payload_encodes(s.subrange(PAGE_HEADER_SIZE as int, PAGE_SIZE as int), n),
    ensures
        decoded_version_node(s) == Some(stored_version_node(n)),
{
    lemma_le_roundtrip();
    let d = s.subrange(PAGE_HEADER_SIZE as int, PAGE_SIZE as int);
    match n {
        VersionNodeView::Leaf { keys, values, next } => {
            let c = keys.len() as int;
            assert(get16(d, 0) as int == c);
            assert forall|i: int| 0 <= i < c implies #[trigger] vleaf_keys_of(d, c)[i] == keys[i] by {
                assert(vleaf_entry_encodes(d, i, keys[i], values[i]));
            }
            assert forall|i: int| 0 <= i < c implies #[trigger] vleaf_values_of(d, c)[i] == values[i] by {
                assert(vleaf_entry_encodes(d, i, keys[i], values[i]));
            }
            assert(vleaf_keys_of(d, c) =~= keys);
            assert(vleaf_values_of(d, c) =~= values);
            assert(get64(d, 8) == next_raw(next));
        },
        VersionNodeView::Internal { keys, children } => {
            let c = keys.len() as int;
            assert(get16(d, 0) as int == c);
            assert forall|i: int| 0 <= i < c + 1 implies #[trigger] vinternal_children_of(d, c)[i] == children[i] by {
                assert(d.subrange(child_off(i), child_off(i) + 8) == le64(children[i].0));
            }
            assert forall|i: int| 0 <= i < c implies #[trigger] vinternal_keys_of(d, c)[i] == keys[i] by {
                assert(key_encodes(d, vkey_off(c, i), keys[i]));
            }
            assert(vinternal_children_of(d, c) =~= children);
            assert(vinternal_keys_of(d, c) =~= keys);
        },
    }
}

/// Decoding gives back what encoding wrote: a page whose kind tag and payload
/// encode a valid version node decodes to exactly that node. A leaf whose
/// right sibling is the page numbered `u64::MAX` is the one exception, since
/// that number encodes "no sibling".
pub proof fn lemma_version_node_codec_roundtrip(s: Seq<u8>, n: VersionNodeView)
    requires
        s.len() == PAGE_SIZE,
        version_node_valid(n),
        hdr_kind(s) == version_node_kind_tag(n),
        version_payload_encodes(s.subrange(PAGE_HEADER_SIZE as int, PAGE_SIZE as int), n),
        n matches VersionNodeView::Leaf { next, .. } ==> next != Some(PageId(NONE_PAGE)),
    ensures
        decoded_version_node(s) == Some(n),
{
    lemma_version_node_codec_stored(s, n);
}

/// Sealing a page for write changes no byte that the version-node decoder
/// reads.
pub proof fn lemma_decoded_version_node_sealed(s: Seq<u8>)
    requires
        s.len() == PAGE_SIZE,
    ensures
        decoded_version_node(sealed_image(s)) == decoded_version_node(s),
{
    lemma_sealed_unchanged_outside(s, OFF_KIND as int, OFF_KIND + 2);
    lemma_sealed_unchanged_outside(s, PAGE_HEADER_SIZE as int, PAGE_SIZE as int);
}

} // verus!
