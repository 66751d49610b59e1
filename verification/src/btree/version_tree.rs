//! The persistent temporal version index: version keys (row id, begin
//! timestamp) to heap row locations, one node per page, read and written
//! through a buffer pool.
use vstd::prelude::*;
use crate::btree::tree::{extended, holds};
use crate::btree::version_codec::{
    decode_version_node, decoded_version_node, encode_version_node, lemma_decoded_version_node_sealed,
    lemma_version_node_codec_stored, sorted, stored_version_node, version_node_kind_tag,
};
use crate::btree::error::BTreeError;
use crate::btree::version_node::{
    version_keys_sorted, version_node_valid, VersionInternalNode, VersionLeafNode, VersionNode,
    VersionNodeView, MAX_VERSION_INTERNAL_KEYS, MAX_VERSION_LEAF_ENTRIES,
};
use crate::buffer::buffer_pool::BufferPool;
use crate::buffer::page_store::PageStore;
use crate::ids::{version_key_lt, CommitTs, Lsn, PageId, RowId, RowLocation, VersionKey};
use crate::le::{le16, lemma_le_roundtrip, lemma_splice_subrange, splice};
use crate::page::{hdr_kind, hdr_lsn, lemma_lsn_after_kind, lemma_sealed_keeps_lsn, PageKind, PAGE_HEADER_SIZE};

verus! {

/// The deepest level below the root that an insertion descends to.
pub const MAX_VERSION_DEPTH: u64 = 1024;

/// The number of pages a search may visit in a page file of `total` pages:
/// one more than it holds, up to `u64::MAX`.
pub open spec fn descent_fuel(total: nat) -> nat {
    if total < u64::MAX {
        total + 1
    } else {
        u64::MAX as nat
    }
}

/// `i` is the child a search for `key` follows among separator `keys`: every
/// separator before `i` is at most `key`, and the one at `i`, if any, is
/// greater.
pub open spec fn vroutes_to(keys: Seq<VersionKey>, key: VersionKey, i: int) -> bool {
    &&& 0 <= i <= keys.len()
    &&& forall|j: int| 0 <= j < i ==> !version_key_lt(key, #[trigger] keys[j])
    &&& i < keys.len() ==> version_key_lt(key, keys[i])
}

/// The child index a search for `key` follows.
pub open spec fn vroute(keys: Seq<VersionKey>, key: VersionKey) -> int {
    choose|i: int| vroutes_to(keys, key, i)
}

/// The location a leaf holds for `key`, if any.
pub open spec fn vleaf_value(keys: Seq<VersionKey>, values: Seq<RowLocation>, key: VersionKey) -> Option<RowLocation> {
    if exists|i: int| 0 <= i < keys.len() && keys[i] == key {
        Some(values[choose|i: int| 0 <= i < keys.len() && keys[i] == key])
    } else {
        None
    }
}

/// What a search for `key` starting at `page` finds within `fuel` pages of
/// the page images `c`: `Some(loc)` from the leaf it reaches, or `None` when a
/// page on the way is missing or does not decode, or the fuel runs out.
pub open spec fn version_lookup(c: Map<u64, Seq<u8>>, page: PageId, key: VersionKey, fuel: nat) -> Option<Option<RowLocation>>
    decreases fuel,
{
    if fuel == 0 || !c.contains_key(page.0) {
        None
    } else {
        match decoded_version_node(c[page.0]) {
            Some(VersionNodeView::Leaf { keys, values, .. }) => Some(vleaf_value(keys, values, key)),
            Some(VersionNodeView::Internal { keys, children }) => version_lookup(c, children[vroute(keys, key)], key, (fuel - 1) as nat),
            None => None,
        }
    }
}

/// The pages that search visits, in order.
pub open spec fn version_lookup_path(c: Map<u64, Seq<u8>>, page: PageId, key: VersionKey, fuel: nat) -> Seq<u64>
    decreases fuel,
{
    if fuel == 0 {
        Seq::empty()
    } else if !c.contains_key(page.0) {
        seq![page.0]
    } else {
        match decoded_version_node(c[page.0]) {
            Some(VersionNodeView::Internal { keys, children }) => seq![page.0] + version_lookup_path(c, children[vroute(keys, key)], key, (fuel - 1) as nat),
            _ => seq![page.0],
        }
    }
}

/// The leaf that a search for `key` from `page` reaches within `fuel`
/// pages holds `key` already or has room for one more entry.
pub open spec fn vleaf_has_room(c: Map<u64, Seq<u8>>, page: PageId, key: VersionKey, fuel: nat) -> bool
    decreases fuel,
{
    if fuel == 0 || !c.contains_key(page.0) {
        false
    } else {
        match decoded_version_node(c[page.0]) {
            Some(VersionNodeView::Leaf { keys, .. }) => keys.contains(key) || keys.len() < MAX_VERSION_LEAF_ENTRIES,
            Some(VersionNodeView::Internal { keys, children }) => vleaf_has_room(c, children[vroute(keys, key)], key, (fuel - 1) as nat),
            None => false,
        }
    }
}

/// The leaf page a search for `key` starting at `page` reaches within
/// `fuel` pages, if it reaches one.
pub open spec fn version_leaf_page(c: Map<u64, Seq<u8>>, page: PageId, key: VersionKey, fuel: nat) -> Option<PageId>
    decreases fuel,
{
    if fuel == 0 || !c.contains_key(page.0) {
        None
    } else {
        match decoded_version_node(c[page.0]) {
            Some(VersionNodeView::Leaf { .. }) => Some(page),
            Some(VersionNodeView::Internal { keys, children }) => version_leaf_page(c, children[vroute(keys, key)], key, (fuel - 1) as nat),
            None => None,
        }
    }
}

/// A page number in front of a path that does not hold it keeps the path
/// free of repeats.
pub proof fn lemma_cons_no_dup(x: u64, sub: Seq<u64>)
    requires
        sub.no_duplicates(),
        !sub.contains(x),
    ensures
        (seq![x] + sub).no_duplicates(),
{
    let t = seq![x] + sub;
    assert forall|i: int, j: int| 0 <= i < t.len() && 0 <= j < t.len() && i != j implies t[i] != t[j] by {
        if i == 0 {
            assert(t[j] == sub[j - 1]);
        } else if j == 0 {
            assert(t[i] == sub[i - 1]);
        } else {
            assert(t[i] == sub[i - 1] && t[j] == sub[j - 1]);
        }
    }
}

/// Distinct numbers below `n` are at most `n` many.
pub proof fn lemma_distinct_below(s: Seq<u64>, n: nat)
    requires
        s.no_duplicates(),
        forall|i: int| 0 <= i < s.len() ==> (#[trigger] s[i]) < n,
    ensures
        s.len() <= n,
    decreases n,
{
    if n == 0 {
        if s.len() > 0 {
            assert(s[0] < n);
        }
    } else {
        let top = (n - 1) as u64;
        if s.contains(top) {
            let j = choose|j: int| 0 <= j < s.len() && s[j] == top;
            let t = s.remove(j);
            assert forall|i: int| 0 <= i < t.len() implies (#[trigger] t[i]) < n - 1 by {
                if i < j {
                    assert(t[i] == s[i]);
                } else {
                    assert(t[i] == s[i + 1]);
                }
            }
            assert forall|a: int, b: int| 0 <= a < t.len() && 0 <= b < t.len() && a != b implies t[a] != t[b] by {
                let sa = if a < j { a } else { a + 1 };
                let sb = if b < j { b } else { b + 1 };
                assert(t[a] == s[sa] && t[b] == s[sb]);
            }
            lemma_distinct_below(t, (n - 1) as nat);
        } else {
            assert forall|i: int| 0 <= i < s.len() implies (#[trigger] s[i]) < n - 1 by {
                if s[i] == top {
                    assert(s.contains(top));
                }
            }
            lemma_distinct_below(s, (n - 1) as nat);
        }
    }
}

/// A successful search uses one unit of fuel per page it visits: given
/// exactly as many units as its path has pages, it finds the same.
pub proof fn lemma_version_lookup_path_fuel(c: Map<u64, Seq<u8>>, page: PageId, key: VersionKey, fuel: nat)
    requires
        version_lookup(c, page, key, fuel) is Some,
    ensures
        version_lookup_path(c, page, key, fuel).len() <= fuel,
        version_lookup(c, page, key, version_lookup_path(c, page, key, fuel).len()) == version_lookup(c, page, key, fuel),
    decreases fuel,
{
    match decoded_version_node(c[page.0]) {
        Some(VersionNodeView::Internal { keys, children }) => {
            let next = children[vroute(keys, key)];
            let f1 = (fuel - 1) as nat;
            lemma_version_lookup_path_fuel(c, next, key, f1);
            let sub = version_lookup_path(c, next, key, f1);
            assert(version_lookup_path(c, page, key, fuel).len() == sub.len() + 1);
            assert(version_lookup(c, page, key, sub.len() + 1) == version_lookup(c, next, key, sub.len()));
        },
        _ => {
            assert(version_lookup_path(c, page, key, fuel).len() == 1);
        },
    }
}

/// A search whose pages are distinct pages of a page file of `total` pages
/// finds the same when given the fuel that `get` gives it.
pub proof fn lemma_lookup_within_descent(c: Map<u64, Seq<u8>>, page: PageId, key: VersionKey, fuel: nat, total: nat)
    requires
        version_lookup(c, page, key, fuel) is Some,
        version_lookup_path(c, page, key, fuel).no_duplicates(),
        forall|id: u64| #[trigger] c.contains_key(id) ==> id < total,
        fuel <= u64::MAX,
    ensures
        version_lookup(c, page, key, descent_fuel(total)) == version_lookup(c, page, key, fuel),
{
    let p = version_lookup_path(c, page, key, fuel);
    lemma_version_lookup_path_exists(c, page, key, fuel);
    assert forall|i: int| 0 <= i < p.len() implies (#[trigger] p[i]) < total by {
        assert(c.contains_key(p[i]));
    }
    lemma_distinct_below(p, total);
    lemma_version_lookup_path_fuel(c, page, key, fuel);
    lemma_version_lookup_fuel(c, page, key, p.len(), descent_fuel(total));
}

/// A leaf's entries as (key, location) pairs.
pub open spec fn leaf_entries(keys: Seq<VersionKey>, values: Seq<RowLocation>) -> Seq<(VersionKey, RowLocation)> {
    Seq::new(keys.len(), |i: int| (keys[i], values[i]))
}

/// `o` with `a` in front of the sequence it holds, if any.
pub open spec fn prefixed(a: Seq<(VersionKey, RowLocation)>, o: Option<Seq<(VersionKey, RowLocation)>>) -> Option<Seq<(VersionKey, RowLocation)>> {
    match o {
        Some(rest) => Some(a + rest),
        None => None,
    }
}

/// The leftmost leaf page below `page`, reached through first children
/// within `fuel` pages.
pub open spec fn leftmost_leaf(c: Map<u64, Seq<u8>>, page: PageId, fuel: nat) -> Option<PageId>
    decreases fuel,
{
    if fuel == 0 || !c.contains_key(page.0) {
        None
    } else {
        match decoded_version_node(c[page.0]) {
            Some(VersionNodeView::Leaf { .. }) => Some(page),
            Some(VersionNodeView::Internal { children, .. }) => leftmost_leaf(c, children[0], (fuel - 1) as nat),
            None => None,
        }
    }
}

/// The entries of the chain of at most `fuel` leaves that starts at `page`
/// and follows the right-sibling links, if every page on it is a leaf.
pub open spec fn chain_entries(c: Map<u64, Seq<u8>>, page: PageId, fuel: nat) -> Option<Seq<(VersionKey, RowLocation)>>
    decreases fuel,
{
    if fuel == 0 || !c.contains_key(page.0) {
        None
    } else {
        match decoded_version_node(c[page.0]) {
            Some(VersionNodeView::Leaf { keys, values, next }) => match next {
                Some(n) => prefixed(leaf_entries(keys, values), chain_entries(c, n, (fuel - 1) as nat)),
                None => Some(leaf_entries(keys, values)),
            },
            _ => None,
        }
    }
}

/// All entries of the tree in leaf-chain order, each walk bounded by `fuel`
/// pages.
pub open spec fn version_scan(c: Map<u64, Seq<u8>>, root: PageId, fuel: nat) -> Option<Seq<(VersionKey, RowLocation)>> {
    match leftmost_leaf(c, root, fuel) {
        Some(first) => chain_entries(c, first, fuel),
        None => None,
    }
}

/// The entries for row `row` among `z[i..]`, up to the first entry of a
/// greater row.
pub open spec fn row_take(z: Seq<(VersionKey, RowLocation)>, row: u128, i: int) -> Seq<(VersionKey, RowLocation)>
    decreases z.len() - i,
{
    if i < 0 || i >= z.len() || z[i].0.row_id.0 > row {
        Seq::empty()
    } else if z[i].0.row_id.0 == row {
        seq![z[i]] + row_take(z, row, i + 1)
    } else {
        row_take(z, row, i + 1)
    }
}

/// Whether an entry of a greater row than `row` stands in `z[i..]`.
pub open spec fn row_stop(z: Seq<(VersionKey, RowLocation)>, row: u128, i: int) -> bool
    decreases z.len() - i,
{
    if i < 0 || i >= z.len() {
        false
    } else if z[i].0.row_id.0 > row {
        true
    } else {
        row_stop(z, row, i + 1)
    }
}

/// The entries for row `row` along the leaf chain from `page`, stopping at
/// the first entry of a greater row or at the end of the chain.
pub open spec fn row_chain(c: Map<u64, Seq<u8>>, page: PageId, row: u128, fuel: nat) -> Option<Seq<(VersionKey, RowLocation)>>
    decreases fuel,
{
    if fuel == 0 || !c.contains_key(page.0) {
        None
    } else {
        match decoded_version_node(c[page.0]) {
            Some(VersionNodeView::Leaf { keys, values, next }) => {
                let z = leaf_entries(keys, values);
                if row_stop(z, row, 0) {
                    Some(row_take(z, row, 0))
                } else {
                    match next {
                        Some(n) => prefixed(row_take(z, row, 0), row_chain(c, n, row, (fuel - 1) as nat)),
                        None => Some(row_take(z, row, 0)),
                    }
                }
            },
            _ => None,
        }
    }
}

/// The last entry of the longest prefix of `z[i..]` whose keys are at most
/// `key`, or `best` when that prefix is empty.
pub open spec fn floor_in(z: Seq<(VersionKey, RowLocation)>, key: VersionKey, i: int, best: Option<(VersionKey, RowLocation)>) -> Option<(VersionKey, RowLocation)>
    decreases z.len() - i,
{
    if i < 0 || i >= z.len() || version_key_lt(key, z[i].0) {
        best
    } else {
        floor_in(z, key, i + 1, Some(z[i]))
    }
}

/// `i` holds the greatest key of a leaf that is at most `key`.
pub open spec fn leaf_floor_at(keys: Seq<VersionKey>, key: VersionKey, i: int) -> bool {
    &&& 0 <= i < keys.len()
    &&& !version_key_lt(key, keys[i])
    &&& i + 1 < keys.len() ==> version_key_lt(key, keys[i + 1])
}

/// The entry of a leaf with the greatest key at most `key`, if any.
pub open spec fn leaf_floor(keys: Seq<VersionKey>, values: Seq<RowLocation>, key: VersionKey) -> Option<(VersionKey, RowLocation)> {
    if exists|i: int| leaf_floor_at(keys, key, i) {
        let i = choose|i: int| leaf_floor_at(keys, key, i);
        Some((keys[i], values[i]))
    } else {
        None
    }
}

/// What `get_floor` finds for `key`: the greatest entry at most `key` in the
/// leaf a search for `key` reaches, else the last entry of the longest
/// prefix of the whole scan whose keys are at most `key`.
pub open spec fn version_floor(c: Map<u64, Seq<u8>>, root: PageId, key: VersionKey, fuel: nat) -> Option<Option<(VersionKey, RowLocation)>> {
    match version_leaf_page(c, root, key, fuel) {
        Some(p) => match decoded_version_node(c[p.0]) {
            Some(VersionNodeView::Leaf { keys, values, .. }) => if leaf_floor(keys, values, key) is Some {
                Some(leaf_floor(keys, values, key))
            } else {
                match version_scan(c, root, fuel) {
                    Some(z) => Some(floor_in(z, key, 0, None)),
                    None => None,
                }
            },
            _ => None,
        },
        None => None,
    }
}

/// What `range_for_row` finds for `row`: the row's entries along the leaf
/// chain from the leaf that a search for its first possible version reaches.
pub open spec fn version_range(c: Map<u64, Seq<u8>>, root: PageId, row: RowId, fuel: nat) -> Option<Seq<(VersionKey, RowLocation)>> {
    match version_leaf_page(c, root, VersionKey { row_id: row, begin_ts: CommitTs(0) }, fuel) {
        Some(p) => row_chain(c, p, row.0, fuel),
        None => None,
    }
}

/// Entries in strictly ascending key order.
pub open spec fn entries_sorted(z: Seq<(VersionKey, RowLocation)>) -> bool {
    forall|i: int, j: int| 0 <= i < j < z.len() ==> version_key_lt(#[trigger] z[i].0, #[trigger] z[j].0)
}

/// The entries of `z[i..]` whose key belongs to row `row`, in order.
pub open spec fn row_entries(z: Seq<(VersionKey, RowLocation)>, row: u128, i: int) -> Seq<(VersionKey, RowLocation)>
    decreases z.len() - i,
{
    if i < 0 || i >= z.len() {
        Seq::empty()
    } else if z[i].0.row_id.0 == row {
        seq![z[i]] + row_entries(z, row, i + 1)
    } else {
        row_entries(z, row, i + 1)
    }
}

/// No entry of `z[i..]` belongs to row `row`, so none is picked.
pub proof fn lemma_row_entries_none(z: Seq<(VersionKey, RowLocation)>, row: u128, i: int)
    requires
        0 <= i,
        forall|j: int| i <= j < z.len() ==> (#[trigger] z[j]).0.row_id.0 != row,
    ensures
        row_entries(z, row, i) == Seq::<(VersionKey, RowLocation)>::empty(),
    decreases z.len() - i,
{
    if i < z.len() {
        lemma_row_entries_none(z, row, i + 1);
    }
}

/// Picking a row's entries from `a + b` picks them from `a`, then from `b`.
pub proof fn lemma_row_entries_concat(a: Seq<(VersionKey, RowLocation)>, b: Seq<(VersionKey, RowLocation)>, row: u128, i: int)
    requires
        0 <= i <= a.len(),
    ensures
        row_entries(a + b, row, i) == row_entries(a, row, i) + row_entries(b, row, 0),
    decreases a.len() - i,
{
    if i < a.len() {
        lemma_row_entries_concat(a, b, row, i + 1);
        assert((a + b)[i] == a[i]);
        if a[i].0.row_id.0 == row {
            assert(seq![a[i]] + (row_entries(a, row, i + 1) + row_entries(b, row, 0))
                =~= (seq![a[i]] + row_entries(a, row, i + 1)) + row_entries(b, row, 0));
        }
    } else {
        assert(row_entries(a, row, i) == Seq::<(VersionKey, RowLocation)>::empty());
        lemma_row_entries_shift(a, b, row, 0);
        assert(row_entries(b, row, 0) =~= Seq::<(VersionKey, RowLocation)>::empty() + row_entries(b, row, 0));
    }
}

/// Past the end of `a`, picking from `a + b` is picking from `b`.
pub proof fn lemma_row_entries_shift(a: Seq<(VersionKey, RowLocation)>, b: Seq<(VersionKey, RowLocation)>, row: u128, j: int)
    requires
        0 <= j <= b.len(),
    ensures
        row_entries(a + b, row, a.len() + j) == row_entries(b, row, j),
    decreases b.len() - j,
{
    if j < b.len() {
        lemma_row_entries_shift(a, b, row, j + 1);
        assert((a + b)[a.len() + j] == b[j]);
    }
}

/// Without an entry of a greater row in `z[i..]`, the stopping pick is the
/// plain pick.
pub proof fn lemma_row_take_no_stop(z: Seq<(VersionKey, RowLocation)>, row: u128, i: int)
    requires
        0 <= i,
        !row_stop(z, row, i),
    ensures
        row_take(z, row, i) == row_entries(z, row, i),
    decreases z.len() - i,
{
    if i < z.len() {
        lemma_row_take_no_stop(z, row, i + 1);
    }
}

/// When `a[i..]` holds an entry of a greater row and `a + b` is sorted, the
/// stopping pick from `a` misses nothing of the row in `a + b`.
pub proof fn lemma_row_take_stop(a: Seq<(VersionKey, RowLocation)>, b: Seq<(VersionKey, RowLocation)>, row: u128, i: int)
    requires
        0 <= i,
        row_stop(a, row, i),
        entries_sorted(a + b),
    ensures
        row_take(a, row, i) == row_entries(a + b, row, i),
    decreases a.len() - i,
{
    let z = a + b;
    if i < a.len() {
        assert(z[i] == a[i]);
        if a[i].0.row_id.0 > row {
            assert forall|j: int| i <= j < z.len() implies (#[trigger] z[j]).0.row_id.0 != row by {
                if j > i {
                    assert(version_key_lt(z[i].0, z[j].0));
                }
            }
            lemma_row_entries_none(z, row, i);
        } else {
            lemma_row_take_stop(a, b, row, i + 1);
        }
    }
}

/// Walking the leaf chain from `page` for the entries of row `row` finds, in
/// order, every entry of the chain that belongs to the row, whenever the
/// chain is in key order: the walk goes on past a leaf until it meets a
/// greater row or the end of the chain.
pub proof fn lemma_row_chain_is_filter(c: Map<u64, Seq<u8>>, page: PageId, row: u128, fuel: nat, z: Seq<(VersionKey, RowLocation)>)
    requires
        chain_entries(c, page, fuel) == Some(z),
        entries_sorted(z),
    ensures
        row_chain(c, page, row, fuel) == Some(row_entries(z, row, 0)),
    decreases fuel,
{
    match decoded_version_node(c[page.0]) {
        Some(VersionNodeView::Leaf { keys, values, next }) => {
            let zl = leaf_entries(keys, values);
            match next {
                Some(n) => {
                    let rest = chain_entries(c, n, (fuel - 1) as nat)->0;
                    assert(z == zl + rest);
                    assert(entries_sorted(rest)) by {
                        assert forall|i: int, j: int| 0 <= i < j < rest.len() implies version_key_lt(#[trigger] rest[i].0, #[trigger] rest[j].0) by {
                            assert(z[zl.len() + i] == rest[i] && z[zl.len() + j] == rest[j]);
                        }
                    }
                    if row_stop(zl, row, 0) {
                        lemma_row_take_stop(zl, rest, row, 0);
                    } else {
                        lemma_row_take_no_stop(zl, row, 0);
                        lemma_row_chain_is_filter(c, n, row, (fuel - 1) as nat, rest);
                        lemma_row_entries_concat(zl, rest, row, 0);
                    }
                },
                None => {
                    assert(z == zl);
                    if row_stop(zl, row, 0) {
                        lemma_row_take_stop(zl, Seq::empty(), row, 0);
                        assert(zl + Seq::<(VersionKey, RowLocation)>::empty() =~= zl);
                    } else {
                        lemma_row_take_no_stop(zl, row, 0);
                    }
                },
            }
        },
        _ => {},
    }
}

/// `range_for_row(row)` gives exactly the entries of the full scan that
/// belong to `row`, in key order, whenever the scan is in key order and the
/// leaf a search for the row's first possible version reaches stands in the
/// leaf chain after every smaller key (at position `i` of the scan).
pub proof fn lemma_range_is_scan_filter(c: Map<u64, Seq<u8>>, root: PageId, row: RowId, fuel: nat, z: Seq<(VersionKey, RowLocation)>, p: PageId, i: int)
    requires
        version_scan(c, root, fuel) == Some(z),
        entries_sorted(z),
        version_leaf_page(c, root, VersionKey { row_id: row, begin_ts: CommitTs(0) }, fuel) == Some(p),
        0 <= i <= z.len(),
        chain_entries(c, p, fuel) == Some(z.skip(i)),
        forall|j: int| 0 <= j < i ==> version_key_lt((#[trigger] z[j]).0, VersionKey { row_id: row, begin_ts: CommitTs(0) }),
    ensures
        version_range(c, root, row, fuel) == Some(row_entries(z, row.0, 0)),
{
    let tail = z.skip(i);
    let head = z.take(i);
    assert(entries_sorted(tail)) by {
        assert forall|a: int, b: int| 0 <= a < b < tail.len() implies version_key_lt(#[trigger] tail[a].0, #[trigger] tail[b].0) by {
            assert(z[i + a] == tail[a] && z[i + b] == tail[b]);
        }
    }
    lemma_row_chain_is_filter(c, p, row.0, fuel, tail);
    assert(z == head + tail);
    lemma_row_entries_concat(head, tail, row.0, 0);
    assert forall|j: int| 0 <= j < head.len() implies (#[trigger] head[j]).0.row_id.0 != row.0 by {
        assert(head[j] == z[j]);
    }
    lemma_row_entries_none(head, row.0, 0);
    assert(row_entries(z, row.0, 0) =~= row_entries(tail, row.0, 0));
}

/// `o` is the entry of `z` with the greatest key at most `key`, or nothing
/// when no key of `z` is at most `key`.
pub open spec fn is_floor_of(z: Seq<(VersionKey, RowLocation)>, key: VersionKey, o: Option<(VersionKey, RowLocation)>) -> bool {
    match o {
        Some(e) => {
            &&& z.contains(e)
            &&& !version_key_lt(key, e.0)
            &&& forall|j: int| 0 <= j < z.len() && !version_key_lt(key, #[trigger] z[j].0) ==> !version_key_lt(e.0, z[j].0)
        },
        None => forall|j: int| 0 <= j < z.len() ==> version_key_lt(key, #[trigger] z[j].0),
    }
}

/// Over entries in key order, scanning for the longest prefix at most `key`
/// finds the floor of `key`.
pub proof fn lemma_floor_in_is_floor(z: Seq<(VersionKey, RowLocation)>, key: VersionKey, i: int)
    requires
        entries_sorted(z),
        0 <= i <= z.len(),
        forall|j: int| 0 <= j < i ==> !version_key_lt(key, #[trigger] z[j].0),
    ensures
        is_floor_of(z, key, floor_in(z, key, i, if i == 0 { None } else { Some(z[i - 1]) })),
    decreases z.len() - i,
{
    let best: Option<(VersionKey, RowLocation)> = if i == 0 { None } else { Some(z[i - 1]) };
    if i < z.len() && !version_key_lt(key, z[i].0) {
        lemma_floor_in_is_floor(z, key, i + 1);
    } else {
        assert forall|j: int| i <= j < z.len() implies version_key_lt(key, #[trigger] z[j].0) by {
            if j > i {
                assert(version_key_lt(z[i].0, z[j].0));
            }
        }
        if i > 0 {
            assert(z.contains(z[i - 1]));
            assert forall|j: int| 0 <= j < z.len() && !version_key_lt(key, #[trigger] z[j].0) implies !version_key_lt(z[i - 1].0, z[j].0) by {
                if j < i - 1 {
                    assert(version_key_lt(z[j].0, z[i - 1].0));
                }
            }
        }
    }
}

/// A key at most `key` in ascending keys has a last such key at or after it.
pub proof fn lemma_leaf_floor_exists(keys: Seq<VersionKey>, key: VersionKey, j: int)
    requires
        version_keys_sorted(keys),
        0 <= j < keys.len(),
        !version_key_lt(key, keys[j]),
    ensures
        exists|i: int| leaf_floor_at(keys, key, i),
    decreases keys.len() - j,
{
    if j + 1 < keys.len() && !version_key_lt(key, keys[j + 1]) {
        lemma_leaf_floor_exists(keys, key, j + 1);
    } else {
        assert(leaf_floor_at(keys, key, j));
    }
}

/// In a leaf with ascending keys, the leaf's floor of `key` is the floor of
/// its entries.
pub proof fn lemma_leaf_floor_is_floor(keys: Seq<VersionKey>, values: Seq<RowLocation>, key: VersionKey)
    requires
        version_keys_sorted(keys),
        keys.len() <= values.len(),
    ensures
        is_floor_of(leaf_entries(keys, values), key, leaf_floor(keys, values, key)),
{
    let z = leaf_entries(keys, values);
    if exists|i: int| leaf_floor_at(keys, key, i) {
        let i = choose|i: int| leaf_floor_at(keys, key, i);
        assert(z[i] == (keys[i], values[i]));
        assert(z.contains(z[i]));
        assert forall|j: int| 0 <= j < z.len() && !version_key_lt(key, #[trigger] z[j].0) implies !version_key_lt(keys[i], z[j].0) by {
            assert(z[j].0 == keys[j]);
            if j > i + 1 {
                assert(version_key_lt(keys[i + 1], keys[j]));
            } else if j < i {
                assert(version_key_lt(keys[j], keys[i]));
            }
        }
    } else {
        assert forall|j: int| 0 <= j < z.len() implies version_key_lt(key, #[trigger] z[j].0) by {
            assert(z[j].0 == keys[j]);
            if !version_key_lt(key, keys[j]) {
                lemma_leaf_floor_exists(keys, key, j);
            }
        }
    }
}

/// `get_floor(key)` gives the entry of the full scan with the greatest key
/// at most `key`, or nothing when there is none, whenever the scan is in key
/// order and the leaf a search for `key` reaches stands in the scan (at
/// position `i`) with every later entry above `key`.
pub proof fn lemma_floor_is_scan_floor(
    c: Map<u64, Seq<u8>>,
    root: PageId,
    key: VersionKey,
    fuel: nat,
    z: Seq<(VersionKey, RowLocation)>,
    p: PageId,
    keys: Seq<VersionKey>,
    values: Seq<RowLocation>,
    next: Option<PageId>,
    i: int,
)
    requires
        version_scan(c, root, fuel) == Some(z),
        entries_sorted(z),
        version_leaf_page(c, root, key, fuel) == Some(p),
        decoded_version_node(c[p.0]) == Some(VersionNodeView::Leaf { keys, values, next }),
        keys.len() <= values.len(),
        0 <= i,
        i + keys.len() <= z.len(),
        z.subrange(i, i + keys.len()) == leaf_entries(keys, values),
        forall|j: int| i + keys.len() <= j < z.len() ==> version_key_lt(key, (#[trigger] z[j]).0),
    ensures
        version_floor(c, root, key, fuel) matches Some(o) && is_floor_of(z, key, o),
{
    let m = keys.len() as int;
    let zl = leaf_entries(keys, values);
    assert forall|a: int| 0 <= a < m implies #[trigger] zl[a] == z[i + a] by {
        assert(z.subrange(i, i + m)[a] == z[i + a]);
    }
    assert(version_keys_sorted(keys)) by {
        assert forall|a: int, b: int| 0 <= a < b < keys.len() implies version_key_lt(#[trigger] keys[a], #[trigger] keys[b]) by {
            assert(zl[a].0 == keys[a] && zl[b].0 == keys[b]);
            assert(version_key_lt(z[i + a].0, z[i + b].0));
        }
    }
    lemma_leaf_floor_is_floor(keys, values, key);
    match leaf_floor(keys, values, key) {
        Some(e) => {
            let a = choose|a: int| 0 <= a < zl.len() && zl[a] == e;
            assert(z[i + a] == e);
            assert(z.contains(e));
            assert forall|j: int| 0 <= j < z.len() && !version_key_lt(key, #[trigger] z[j].0) implies !version_key_lt(e.0, z[j].0) by {
                if j < i {
                    assert(version_key_lt(z[j].0, z[i + a].0));
                } else if j < i + m {
                    assert(zl[j - i] == z[j]);
                }
            }
        },
        None => {
            lemma_floor_in_is_floor(z, key, 0);
        },
    }
}

/// Appends a leaf's entries to `out`.
fn append_entries(out: &mut Vec<(VersionKey, RowLocation)>, leaf: &VersionLeafNode)
    requires
        leaf.keys@.len() == leaf.values@.len(),
    ensures
        final(out)@ == old(out)@ + leaf_entries(leaf.keys@, leaf.values@),
{
    let ghost out0 = out@;
    let mut i: usize = 0;
    while i < leaf.keys.len()
        invariant
            leaf.keys@.len() == leaf.values@.len(),
            i <= leaf.keys@.len(),
            out@ == out0 + leaf_entries(leaf.keys@, leaf.values@).subrange(0, i as int),
        decreases leaf.keys@.len() - i,
    {
        out.push((leaf.keys[i], leaf.values[i]));
        i = i + 1;
        assert(out@ =~= out0 + leaf_entries(leaf.keys@, leaf.values@).subrange(0, i as int));
    }
    assert(leaf_entries(leaf.keys@, leaf.values@).subrange(0, i as int) =~= leaf_entries(leaf.keys@, leaf.values@));
}

/// Appends to `out` the entries of `leaf` for row `row`, up to the first
/// entry of a greater row; returns whether such an entry stopped it.
fn collect_row(leaf: &VersionLeafNode, row: u128, out: &mut Vec<(VersionKey, RowLocation)>) -> (stopped: bool)
    requires
        leaf.keys@.len() == leaf.values@.len(),
    ensures
        final(out)@ == old(out)@ + row_take(leaf_entries(leaf.keys@, leaf.values@), row, 0),
        stopped == row_stop(leaf_entries(leaf.keys@, leaf.values@), row, 0),
{
    let ghost z = leaf_entries(leaf.keys@, leaf.values@);
    let ghost out0 = out@;
    let mut i: usize = 0;
    while i < leaf.keys.len()
        invariant
            leaf.keys@.len() == leaf.values@.len(),
            z == leaf_entries(leaf.keys@, leaf.values@),
            out0 == old(out)@,
            i <= leaf.keys@.len(),
            out@ + row_take(z, row, i as int) == out0 + row_take(z, row, 0),
            row_stop(z, row, 0) == row_stop(z, row, i as int),
        decreases leaf.keys@.len() - i,
    {
        let key = leaf.keys[i];
        if key.row_id.0 == row {
            let ghost before = out@;
            out.push((key, leaf.values[i]));
            proof {
                assert(z[i as int] == (key, leaf.values@[i as int]));
                assert(row_take(z, row, i as int) == seq![z[i as int]] + row_take(z, row, i + 1));
                assert(out@ + row_take(z, row, i + 1) =~= before + row_take(z, row, i as int));
            }
        } else if key.row_id.0 > row {
            proof {
                assert(z[i as int].0 == key);
                assert(row_take(z, row, i as int) == Seq::<(VersionKey, RowLocation)>::empty());
                assert(out@ =~= out0 + row_take(z, row, 0));
                assert(row_stop(z, row, i as int));
            }
            return true;
        } else {
            proof {
                assert(row_take(z, row, i as int) == row_take(z, row, i + 1));
            }
        }
        i = i + 1;
    }
    proof {
        assert(row_take(z, row, i as int) == Seq::<(VersionKey, RowLocation)>::empty());
        assert(out@ =~= out0 + row_take(z, row, 0));
        assert(!row_stop(z, row, i as int));
    }
    false
}

/// The last entry of the longest prefix of `all` whose keys are at most
/// `key`.
fn floor_of(all: &Vec<(VersionKey, RowLocation)>, key: VersionKey) -> (r: Option<(VersionKey, RowLocation)>)
    ensures
        r == floor_in(all@, key, 0, None),
{
    let mut best: Option<(VersionKey, RowLocation)> = None;
    let mut i: usize = 0;
    while i < all.len()
        invariant
            i <= all@.len(),
            floor_in(all@, key, 0, None) == floor_in(all@, key, i as int, best),
        decreases all@.len() - i,
    {
        let (candidate, location) = all[i];
        if !key.lt(&candidate) {
            best = Some((candidate, location));
        } else {
            return best;
        }
        i = i + 1;
    }
    best
}

pub proof fn lemma_leaf_floor_at(keys: Seq<VersionKey>, values: Seq<RowLocation>, key: VersionKey, i: int)
    requires
        version_keys_sorted(keys),
        leaf_floor_at(keys, key, i),
    ensures
        leaf_floor(keys, values, key) == Some((keys[i], values[i])),
{
    let c = choose|j: int| leaf_floor_at(keys, key, j);
    assert(leaf_floor_at(keys, key, c));
    if c < i {
        assert(version_key_lt(key, keys[c + 1]));
        if c + 1 < i {
            assert(version_key_lt(keys[c + 1], keys[i]));
        }
    } else if i < c {
        assert(version_key_lt(key, keys[i + 1]));
        if i + 1 < c {
            assert(version_key_lt(keys[i + 1], keys[c]));
        }
    }
}

/// The page a search reaches is a leaf page.
pub proof fn lemma_leaf_page_is_leaf(c: Map<u64, Seq<u8>>, page: PageId, key: VersionKey, fuel: nat)
    requires
        version_leaf_page(c, page, key, fuel) is Some,
    ensures
        c.contains_key((version_leaf_page(c, page, key, fuel)->0).0),
        decoded_version_node(c[(version_leaf_page(c, page, key, fuel)->0).0]) matches Some(VersionNodeView::Leaf { .. }),
    decreases fuel,
{
    match decoded_version_node(c[page.0]) {
        Some(VersionNodeView::Internal { keys, children }) => {
            lemma_leaf_page_is_leaf(c, children[vroute(keys, key)], key, (fuel - 1) as nat);
        },
        _ => {},
    }
}

/// A search finds a location exactly when it reaches a leaf, and then finds
/// what that leaf holds for the key.
pub proof fn lemma_leaf_page_lookup(c: Map<u64, Seq<u8>>, page: PageId, key: VersionKey, fuel: nat)
    ensures
        version_lookup(c, page, key, fuel) == match version_leaf_page(c, page, key, fuel) {
            Some(p) => match decoded_version_node(c[p.0]) {
                Some(VersionNodeView::Leaf { keys, values, .. }) => Some(vleaf_value(keys, values, key)),
                _ => None,
            },
            None => None,
        },
    decreases fuel,
{
    if fuel > 0 && c.contains_key(page.0) {
        match decoded_version_node(c[page.0]) {
            Some(VersionNodeView::Internal { keys, children }) => {
                lemma_leaf_page_lookup(c, children[vroute(keys, key)], key, (fuel - 1) as nat);
            },
            _ => {},
        }
    }
}

pub proof fn lemma_vroute(keys: Seq<VersionKey>, key: VersionKey, i: int)
    requires
        vroutes_to(keys, key, i),
    ensures
        vroute(keys, key) == i,
{
    let c = vroute(keys, key);
    assert(vroutes_to(keys, key, c));
    if c < i {
        assert(!version_key_lt(key, keys[c]));
    } else if i < c {
        assert(!version_key_lt(key, keys[i]));
    }
}

pub proof fn lemma_vleaf_value_at(keys: Seq<VersionKey>, values: Seq<RowLocation>, key: VersionKey, i: int)
    requires
        version_keys_sorted(keys),
        0 <= i < keys.len(),
        keys[i] == key,
    ensures
        vleaf_value(keys, values, key) == Some(values[i]),
{
    let c = choose|j: int| 0 <= j < keys.len() && keys[j] == key;
    assert(0 <= c < keys.len() && keys[c] == key);
    if c < i {
        assert(version_key_lt(keys[c], keys[i]));
    } else if i < c {
        assert(version_key_lt(keys[i], keys[c]));
    }
}

/// Writing a page that a search does not visit changes neither what it finds
/// nor where it goes.
pub proof fn lemma_version_lookup_frame(c: Map<u64, Seq<u8>>, page: PageId, key: VersionKey, fuel: nat, x: u64, v: Seq<u8>)
    requires
        !version_lookup_path(c, page, key, fuel).contains(x),
    ensures
        version_lookup(c.insert(x, v), page, key, fuel) == version_lookup(c, page, key, fuel),
        version_lookup_path(c.insert(x, v), page, key, fuel) == version_lookup_path(c, page, key, fuel),
    decreases fuel,
{
    if fuel > 0 {
        assert(version_lookup_path(c, page, key, fuel)[0] == page.0);
        assert(x != page.0);
        assert(c.insert(x, v).contains_key(page.0) == c.contains_key(page.0));
        if c.contains_key(page.0) {
            assert(c.insert(x, v)[page.0] == c[page.0]);
            match decoded_version_node(c[page.0]) {
                Some(VersionNodeView::Internal { keys, children }) => {
                    let next = children[vroute(keys, key)];
                    let sub = version_lookup_path(c, next, key, (fuel - 1) as nat);
                    assert(version_lookup_path(c, page, key, fuel) == seq![page.0] + sub);
                    assert forall|k: int| 0 <= k < sub.len() implies sub[k] != x by {
                        assert((seq![page.0] + sub)[k + 1] == sub[k]);
                    }
                    lemma_version_lookup_frame(c, next, key, (fuel - 1) as nat, x, v);
                },
                _ => {},
            }
        }
    }
}

/// A search that succeeds with some fuel finds the same with more.
pub proof fn lemma_version_lookup_fuel(c: Map<u64, Seq<u8>>, page: PageId, key: VersionKey, f: nat, g: nat)
    requires
        f <= g,
        version_lookup(c, page, key, f) is Some,
    ensures
        version_lookup(c, page, key, g) == version_lookup(c, page, key, f),
    decreases f,
{
    match decoded_version_node(c[page.0]) {
        Some(VersionNodeView::Internal { keys, children }) => {
            lemma_version_lookup_fuel(c, children[vroute(keys, key)], key, (f - 1) as nat, (g - 1) as nat);
        },
        _ => {},
    }
}

/// Every page a successful search visits exists.
pub proof fn lemma_version_lookup_path_exists(c: Map<u64, Seq<u8>>, page: PageId, key: VersionKey, fuel: nat)
    requires
        version_lookup(c, page, key, fuel) is Some,
    ensures
        forall|k: int| 0 <= k < version_lookup_path(c, page, key, fuel).len() ==> c.contains_key(#[trigger] version_lookup_path(c, page, key, fuel)[k]),
    decreases fuel,
{
    match decoded_version_node(c[page.0]) {
        Some(VersionNodeView::Internal { keys, children }) => {
            let next = children[vroute(keys, key)];
            let sub = version_lookup_path(c, next, key, (fuel - 1) as nat);
            lemma_version_lookup_path_exists(c, next, key, (fuel - 1) as nat);
            assert forall|k: int| 0 <= k < version_lookup_path(c, page, key, fuel).len() implies c.contains_key(
                #[trigger] version_lookup_path(c, page, key, fuel)[k],
            ) by {
                if k > 0 {
                    assert(version_lookup_path(c, page, key, fuel)[k] == sub[k - 1]);
                }
            }
        },
        _ => {},
    }
}

/// Every search has a child to follow.
pub proof fn lemma_vroute_exists(keys: Seq<VersionKey>, key: VersionKey)
    ensures
        vroutes_to(keys, key, vroute(keys, key)),
    decreases keys.len(),
{
    if keys.len() == 0 {
        assert(vroutes_to(keys, key, 0));
    } else {
        let init = keys.drop_last();
        lemma_vroute_exists(init, key);
        let i = vroute(init, key);
        assert forall|j: int| 0 <= j < init.len() implies #[trigger] init[j] == keys[j] by {}
        assert forall|j: int| 0 <= j < i implies !version_key_lt(key, #[trigger] keys[j]) by {
            assert(init[j] == keys[j]);
        }
        if i < init.len() {
            assert(init[i] == keys[i]);
            assert(vroutes_to(keys, key, i));
        } else if version_key_lt(key, keys[keys.len() - 1]) {
            assert(vroutes_to(keys, key, keys.len() - 1));
        } else {
            assert(vroutes_to(keys, key, keys.len() as int));
        }
    }
}

/// Page images that agree on every page a search visits give the same
/// search.
pub proof fn lemma_version_lookup_agree(c: Map<u64, Seq<u8>>, d: Map<u64, Seq<u8>>, page: PageId, key: VersionKey, fuel: nat)
    requires
        forall|j: int| #![trigger version_lookup_path(c, page, key, fuel)[j]] 0 <= j < version_lookup_path(c, page, key, fuel).len() ==> {
            &&& c.contains_key(version_lookup_path(c, page, key, fuel)[j]) == d.contains_key(version_lookup_path(c, page, key, fuel)[j])
            &&& d[version_lookup_path(c, page, key, fuel)[j]] == c[version_lookup_path(c, page, key, fuel)[j]]
        },
    ensures
        version_lookup(d, page, key, fuel) == version_lookup(c, page, key, fuel),
        version_lookup_path(d, page, key, fuel) == version_lookup_path(c, page, key, fuel),
    decreases fuel,
{
    if fuel > 0 {
        let p = version_lookup_path(c, page, key, fuel);
        assert(p[0] == page.0);
        if c.contains_key(page.0) {
            match decoded_version_node(c[page.0]) {
                Some(VersionNodeView::Internal { keys, children }) => {
                    let next = children[vroute(keys, key)];
                    let sub = version_lookup_path(c, next, key, (fuel - 1) as nat);
                    assert(p == seq![page.0] + sub);
                    assert forall|j: int| #![trigger sub[j]] 0 <= j < sub.len() implies {
                        &&& c.contains_key(sub[j]) == d.contains_key(sub[j])
                        &&& d[sub[j]] == c[sub[j]]
                    } by {
                        assert(p[j + 1] == sub[j]);
                    }
                    lemma_version_lookup_agree(c, d, next, key, (fuel - 1) as nat);
                },
                _ => {},
            }
        }
    }
}

/// A path that visits each page once, after its first page, does not
/// visit that page again.
pub proof fn lemma_vpath_tail(c: Map<u64, Seq<u8>>, page: PageId, key: VersionKey, fuel: nat, keys: Seq<VersionKey>, children: Seq<PageId>)
    requires
        fuel > 0,
        c.contains_key(page.0),
        decoded_version_node(c[page.0]) == Some(VersionNodeView::Internal { keys, children }),
    ensures
        version_lookup_path(c, page, key, fuel) == seq![page.0] + version_lookup_path(c, children[vroute(keys, key)], key, (fuel - 1) as nat),
        version_lookup_path(c, page, key, fuel).no_duplicates() ==> version_lookup_path(c, children[vroute(keys, key)], key, (fuel - 1) as nat).no_duplicates()
            && !version_lookup_path(c, children[vroute(keys, key)], key, (fuel - 1) as nat).contains(page.0),
        forall|x: u64| version_lookup_path(c, children[vroute(keys, key)], key, (fuel - 1) as nat).contains(x) ==> version_lookup_path(c, page, key, fuel).contains(x),
{
    let sub = version_lookup_path(c, children[vroute(keys, key)], key, (fuel - 1) as nat);
    let p = version_lookup_path(c, page, key, fuel);
    assert(p == seq![page.0] + sub);
    if p.no_duplicates() {
        assert forall|i: int, j: int| 0 <= i < sub.len() && 0 <= j < sub.len() && i != j implies sub[i] != sub[j] by {
            assert(p[i + 1] == sub[i] && p[j + 1] == sub[j]);
        }
        if sub.contains(page.0) {
            let q = choose|q: int| 0 <= q < sub.len() && sub[q] == page.0;
            assert(p[q + 1] == page.0 && p[0] == page.0);
        }
    }
    assert forall|x: u64| sub.contains(x) implies p.contains(x) by {
        let q = choose|q: int| 0 <= q < sub.len() && sub[q] == x;
        assert(p[q + 1] == x);
    }
}

/// Replacing one location in a leaf changes nothing for the other keys.
pub proof fn lemma_vleaf_value_update(keys: Seq<VersionKey>, values: Seq<RowLocation>, i: int, v: RowLocation, other: VersionKey)
    requires
        version_keys_sorted(keys),
        keys.len() == values.len(),
        0 <= i < keys.len(),
        keys[i] != other,
    ensures
        vleaf_value(keys, values.update(i, v), other) == vleaf_value(keys, values, other),
{
    if exists|j: int| 0 <= j < keys.len() && keys[j] == other {
        let j = choose|j: int| 0 <= j < keys.len() && keys[j] == other;
        lemma_vleaf_value_at(keys, values, other, j);
        lemma_vleaf_value_at(keys, values.update(i, v), other, j);
    }
}

/// Inserting an entry for `key` into a leaf changes nothing for the other
/// keys.
pub proof fn lemma_vleaf_value_insert(keys: Seq<VersionKey>, values: Seq<RowLocation>, i: int, key: VersionKey, v: RowLocation, other: VersionKey)
    requires
        version_keys_sorted(keys),
        version_keys_sorted(keys.insert(i, key)),
        keys.len() == values.len(),
        0 <= i <= keys.len(),
        key != other,
    ensures
        vleaf_value(keys.insert(i, key), values.insert(i, v), other) == vleaf_value(keys, values, other),
{
    let k2 = keys.insert(i, key);
    let v2 = values.insert(i, v);
    if exists|j: int| 0 <= j < keys.len() && keys[j] == other {
        let j = choose|j: int| 0 <= j < keys.len() && keys[j] == other;
        lemma_vleaf_value_at(keys, values, other, j);
        let j2 = if j < i { j } else { j + 1 };
        assert(k2[j2] == other && v2[j2] == values[j]);
        lemma_vleaf_value_at(k2, v2, other, j2);
    } else {
        assert forall|j: int| 0 <= j < k2.len() implies k2[j] != other by {
            if j < i {
                assert(k2[j] == keys[j]);
            } else if j > i {
                assert(k2[j] == keys[j - 1]);
            }
        }
    }
}

/// A part of a leaf that holds every entry for `other` finds the same for
/// it as the whole leaf.
pub proof fn lemma_vleaf_value_range(keys: Seq<VersionKey>, values: Seq<RowLocation>, lo: int, hi: int, other: VersionKey)
    requires
        version_keys_sorted(keys),
        keys.len() == values.len(),
        0 <= lo <= hi <= keys.len(),
        forall|j: int| 0 <= j < keys.len() && keys[j] == other ==> lo <= j < hi,
    ensures
        vleaf_value(keys.subrange(lo, hi), values.subrange(lo, hi), other) == vleaf_value(keys, values, other),
{
    let ks = keys.subrange(lo, hi);
    let vs = values.subrange(lo, hi);
    assert(version_keys_sorted(ks)) by {
        assert forall|a: int, b: int| 0 <= a < b < ks.len() implies version_key_lt(#[trigger] ks[a], #[trigger] ks[b]) by {
            assert(ks[a] == keys[a + lo] && ks[b] == keys[b + lo]);
        }
    }
    if exists|j: int| 0 <= j < keys.len() && keys[j] == other {
        let j = choose|j: int| 0 <= j < keys.len() && keys[j] == other;
        lemma_vleaf_value_at(keys, values, other, j);
        assert(ks[j - lo] == other && vs[j - lo] == values[j]);
        lemma_vleaf_value_at(ks, vs, other, j - lo);
    } else {
        assert forall|j: int| 0 <= j < ks.len() implies ks[j] != other by {
            assert(ks[j] == keys[j + lo]);
        }
    }
}

/// Where a search for `other` goes in an internal node after the child at
/// `r` split, with separator `sep` and upper half `right`: to the same page
/// as before, or to `right` if it went to the split child and is not below
/// `sep`.
pub proof fn lemma_vroute_after_split(keys: Seq<VersionKey>, children: Seq<PageId>, r: int, sep: VersionKey, right: PageId, other: VersionKey)
    requires
        children.len() == keys.len() + 1,
        0 <= r <= keys.len(),
        version_keys_sorted(keys.insert(r, sep)),
        vroutes_to(keys, other, vroute(keys, other)),
    ensures
        ({
            let r2 = vroute(keys, other);
            let r3 = if r2 < r { r2 } else if r2 == r { if version_key_lt(other, sep) { r } else { r + 1 } } else { r2 + 1 };
            &&& vroutes_to(keys.insert(r, sep), other, r3)
            &&& children.insert(r + 1, right)[r3] == if r2 == r {
                if version_key_lt(other, sep) { children[r] } else { right }
            } else {
                children[r2]
            }
        }),
{
    let r2 = vroute(keys, other);
    let k2 = keys.insert(r, sep);
    let r3 = if r2 < r { r2 } else if r2 == r { if version_key_lt(other, sep) { r } else { r + 1 } } else { r2 + 1 };
    assert forall|j: int| 0 <= j < r3 implies !version_key_lt(other, #[trigger] k2[j]) by {
        if j < r {
            assert(k2[j] == keys[j]);
        } else if j == r {
            if r2 > r {
                assert(k2[r] == sep && k2[r + 1] == keys[r]);
                assert(version_key_lt(sep, keys[r]));
            }
        } else {
            assert(k2[j] == keys[j - 1]);
        }
    }
    if r3 < k2.len() {
        if r3 < r {
            assert(k2[r3] == keys[r3]);
        } else if r3 == r {
            assert(k2[r3] == sep);
        } else {
            assert(k2[r3] == keys[r3 - 1]);
        }
    }
}

/// Where a search for `other` goes in one half of an overfull internal node
/// split at `m`: the lower half if it is below the promoted key `keys[m]`,
/// else the upper half, to the same child.
pub proof fn lemma_vroute_in_half(keys: Seq<VersionKey>, other: VersionKey, q: int, m: int)
    requires
        version_keys_sorted(keys),
        0 <= m < keys.len(),
        vroutes_to(keys, other, q),
    ensures
        version_key_lt(other, keys[m]) ==> q <= m && vroutes_to(keys.subrange(0, m), other, q),
        !version_key_lt(other, keys[m]) ==> q > m && vroutes_to(keys.subrange(m + 1, keys.len() as int), other, q - m - 1),
{
    if version_key_lt(other, keys[m]) {
        if q > m {
            assert(!version_key_lt(other, keys[m]));
        }
        let l = keys.subrange(0, m);
        assert forall|j: int| 0 <= j < q implies !version_key_lt(other, #[trigger] l[j]) by {
            assert(l[j] == keys[j]);
        }
        if q < m {
            assert(l[q] == keys[q]);
        }
    } else {
        if q <= m {
            if q < m {
                assert(version_key_lt(keys[q], keys[m]));
            }
        }
        let rt = keys.subrange(m + 1, keys.len() as int);
        assert forall|j: int| 0 <= j < q - m - 1 implies !version_key_lt(other, #[trigger] rt[j]) by {
            assert(rt[j] == keys[j + m + 1]);
        }
        if q - m - 1 < rt.len() {
            assert(rt[q - m - 1] == keys[q]);
        }
    }
}

/// A search through an internal node continues at the child it routes to.
pub proof fn lemma_vlookup_through(c: Map<u64, Seq<u8>>, page: PageId, keys: Seq<VersionKey>, children: Seq<PageId>, other: VersionKey, fuel: nat, q: int, t: PageId)
    requires
        fuel > 0,
        c.contains_key(page.0),
        decoded_version_node(c[page.0]) == Some(VersionNodeView::Internal { keys, children }),
        vroutes_to(keys, other, q),
        children[q] == t,
    ensures
        version_lookup(c, page, other, fuel) == version_lookup(c, t, other, (fuel - 1) as nat),
        version_lookup_path(c, page, other, fuel) == seq![page.0] + version_lookup_path(c, t, other, (fuel - 1) as nat),
{
    lemma_vroute(keys, other, q);
}

/// The searches for `key` and `other` from `page` part cleanly: while they
/// take the same child they visit the same pages, and once they take
/// different children, the rest of the search for `other` visits no page of
/// the search for `key`.
pub open spec fn vsearches_part(c: Map<u64, Seq<u8>>, page: PageId, key: VersionKey, other: VersionKey, fuel: nat) -> bool
    decreases fuel,
{
    if fuel == 0 || !c.contains_key(page.0) {
        true
    } else {
        match decoded_version_node(c[page.0]) {
            Some(VersionNodeView::Internal { keys, children }) => if vroute(keys, key) == vroute(keys, other) {
                vsearches_part(c, children[vroute(keys, key)], key, other, (fuel - 1) as nat)
            } else {
                forall|j: int|
                    0 <= j < version_lookup_path(c, children[vroute(keys, other)], other, (fuel - 1) as nat).len()
                        ==> !version_lookup_path(c, page, key, fuel).contains(
                        #[trigger] version_lookup_path(c, children[vroute(keys, other)], other, (fuel - 1) as nat)[j],
                    )
            },
            _ => true,
        }
    }
}

/// The search for `other` from `page` is one that inserting `key` into the
/// subtree leaves alone: `other` differs from `key`, the search completes,
/// parts cleanly from the search for `key`, visits each page once and
/// meets none of the `ancestors` pages above.
pub open spec fn vclear_of_insert(c: Map<u64, Seq<u8>>, page: PageId, key: VersionKey, other: VersionKey, fuel: nat, ancestors: Seq<u64>) -> bool {
    &&& other != key
    &&& version_lookup(c, page, other, fuel) is Some
    &&& vsearches_part(c, page, key, other, fuel)
    &&& version_lookup_path(c, page, other, fuel).no_duplicates()
    &&& forall|k: int| 0 <= k < ancestors.len() ==> !version_lookup_path(c, page, other, fuel).contains(#[trigger] ancestors[k])
}

/// After an internal node at `page` is rewritten (in `d`) with the
/// separator and upper half of its split child, a search for `other` from
/// it continues where it continued before, through pages that are
/// unchanged: `d` differs from `c` only at `w1` and `w2`, which the rest of
/// the search does not visit.
proof fn lemma_vother_through_rewrite(
    c: Map<u64, Seq<u8>>,
    d: Map<u64, Seq<u8>>,
    page: PageId,
    keys: Seq<VersionKey>,
    children: Seq<PageId>,
    q: int,
    t2: PageId,
    other: VersionKey,
    fuel: nat,
    ancestors: Seq<u64>,
    w1: u64,
    w2: u64,
)
    requires
        fuel >= 1,
        d.contains_key(page.0),
        decoded_version_node(d[page.0]) == Some(VersionNodeView::Internal { keys, children }),
        vroutes_to(keys, other, q),
        children[q] == t2,
        version_lookup(c, t2, other, (fuel - 1) as nat) is Some,
        forall|id: u64| #[trigger] c.contains_key(id) ==> d.contains_key(id) && (id != w1 && id != w2 ==> d[id] == c[id]),
        !version_lookup_path(c, t2, other, (fuel - 1) as nat).contains(w1),
        !version_lookup_path(c, t2, other, (fuel - 1) as nat).contains(w2),
        !version_lookup_path(c, t2, other, (fuel - 1) as nat).contains(page.0),
        version_lookup_path(c, t2, other, (fuel - 1) as nat).no_duplicates(),
        forall|k: int| 0 <= k < ancestors.len() ==> !version_lookup_path(c, t2, other, (fuel - 1) as nat).contains(#[trigger] ancestors[k]),
        !ancestors.contains(page.0),
    ensures
        version_lookup(d, page, other, fuel) == version_lookup(c, t2, other, (fuel - 1) as nat),
        forall|k: int| 0 <= k < ancestors.len() ==> !version_lookup_path(d, page, other, fuel).contains(#[trigger] ancestors[k]),
        version_lookup_path(d, page, other, fuel).no_duplicates(),
{
    let f1 = (fuel - 1) as nat;
    lemma_vlookup_through(d, page, keys, children, other, fuel, q, t2);
    lemma_version_lookup_path_exists(c, t2, other, f1);
    let po = version_lookup_path(c, t2, other, f1);
    assert forall|j: int| #![trigger po[j]] 0 <= j < po.len() implies {
        &&& c.contains_key(po[j]) == d.contains_key(po[j])
        &&& d[po[j]] == c[po[j]]
    } by {
        assert(c.contains_key(po[j]));
        assert(po[j] != w1);
        assert(po[j] != w2);
    }
    lemma_version_lookup_agree(c, d, t2, other, f1);
    assert(version_lookup_path(d, page, other, fuel) == seq![page.0] + po);
    lemma_cons_no_dup(page.0, po);
    assert forall|k: int| 0 <= k < ancestors.len() implies !version_lookup_path(d, page, other, fuel).contains(#[trigger] ancestors[k]) by {
        assert(!po.contains(ancestors[k]));
        if version_lookup_path(d, page, other, fuel).contains(ancestors[k]) {
            let i = choose|i: int| 0 <= i < version_lookup_path(d, page, other, fuel).len() && version_lookup_path(d, page, other, fuel)[i] == ancestors[k];
            if i == 0 {
                assert(ancestors[k] == page.0);
            } else {
                assert(po[i - 1] == ancestors[k]);
            }
        }
    }
}

/// After the insertion into the child that a search for `key` follows, a
/// search for `other` that the insertion leaves alone continues, from the
/// child it follows (or from where that child's insertion put it), as it did
/// before, through none of the pages above and through no page twice.
proof fn lemma_vafter_child_insert(
    c0: Map<u64, Seq<u8>>,
    c1: Map<u64, Seq<u8>>,
    page: PageId,
    keys: Seq<VersionKey>,
    children: Seq<PageId>,
    child_idx: int,
    key: VersionKey,
    other: VersionKey,
    fuel: nat,
    ancestors: Seq<u64>,
    below: Seq<u64>,
    res_target: PageId,
    total0: nat,
)
    requires
        fuel >= 1,
        c0.contains_key(page.0),
        decoded_version_node(c0[page.0]) == Some(VersionNodeView::Internal { keys, children }),
        vroutes_to(keys, key, child_idx),
        below == ancestors.push(page.0),
        vclear_of_insert(c0, page, key, other, fuel, ancestors),
        forall|id: u64| #[trigger] c0.contains_key(id) <==> id < total0,
        forall|id: u64| id < total0 ==> #[trigger] c1.contains_key(id),
        forall|id: u64| #![trigger c1[id]] id < total0 && !version_lookup_path(c0, children[child_idx], key, (fuel - 1) as nat).contains(id) ==> c1[id] == c0[id],
        vclear_of_insert(c0, children[child_idx], key, other, (fuel - 1) as nat, below) ==> {
            &&& version_lookup(c1, res_target, other, (fuel - 1) as nat) == version_lookup(c0, children[child_idx], other, (fuel - 1) as nat)
            &&& forall|k: int| 0 <= k < below.len() ==> !version_lookup_path(c1, res_target, other, (fuel - 1) as nat).contains(#[trigger] below[k])
            &&& version_lookup_path(c1, res_target, other, (fuel - 1) as nat).no_duplicates()
        },
    ensures
        ({
            let r2 = vroute(keys, other);
            let t2 = if r2 == child_idx { res_target } else { children[r2] };
            &&& vroutes_to(keys, other, r2)
            &&& version_lookup(c1, t2, other, (fuel - 1) as nat) == version_lookup(c0, page, other, fuel)
            &&& forall|k: int| 0 <= k < below.len() ==> !version_lookup_path(c1, t2, other, (fuel - 1) as nat).contains(#[trigger] below[k])
            &&& version_lookup_path(c1, t2, other, (fuel - 1) as nat).no_duplicates()
        }),
{
    let f1 = (fuel - 1) as nat;
    lemma_vroute_exists(keys, other);
    lemma_vroute(keys, key, child_idx);
    let r2 = vroute(keys, other);
    let c2 = children[r2];
    lemma_vlookup_through(c0, page, keys, children, other, fuel, r2, c2);
    lemma_vpath_tail(c0, page, other, fuel, keys, children);
    lemma_vpath_tail(c0, page, key, fuel, keys, children);
    let sub = version_lookup_path(c0, c2, other, f1);
    assert forall|k: int| 0 <= k < below.len() implies !sub.contains(#[trigger] below[k]) by {
        if k < ancestors.len() {
            assert(below[k] == ancestors[k]);
            if sub.contains(ancestors[k]) {
                assert(version_lookup_path(c0, page, other, fuel).contains(ancestors[k]));
            }
        } else {
            assert(below[k] == page.0);
        }
    }
    if r2 == child_idx {
        assert(vclear_of_insert(c0, children[child_idx], key, other, f1, below));
    } else {
        lemma_version_lookup_path_exists(c0, c2, other, f1);
        assert forall|j: int| #![trigger sub[j]] 0 <= j < sub.len() implies {
            &&& c0.contains_key(sub[j]) == c1.contains_key(sub[j])
            &&& c1[sub[j]] == c0[sub[j]]
        } by {
            assert(c0.contains_key(sub[j]));
            assert(!version_lookup_path(c0, page, key, fuel).contains(sub[j]));
            if version_lookup_path(c0, children[child_idx], key, f1).contains(sub[j]) {
                assert(version_lookup_path(c0, page, key, fuel).contains(sub[j]));
            }
        }
        lemma_version_lookup_agree(c0, c1, c2, other, f1);
    }
}

/// `x` is a page of the subtree of height `h` under `page`: the page itself
/// or, below an internal node, a page of one of its children's subtrees.
pub open spec fn vreaches(c: Map<u64, Seq<u8>>, page: PageId, h: nat, x: u64) -> bool
    decreases h, 0nat,
{
    x == page.0 || (h > 0 && c.contains_key(page.0) && match decoded_version_node(c[page.0]) {
        Some(VersionNodeView::Internal { children, .. }) => vkids_reach(c, children, (h - 1) as nat, x, children.len()),
        _ => false,
    })
}

/// `x` is a page of the subtree of height `h` under one of the first `n`
/// children.
pub open spec fn vkids_reach(c: Map<u64, Seq<u8>>, children: Seq<PageId>, h: nat, x: u64, n: nat) -> bool
    decreases h, n,
{
    n > 0 && (vkids_reach(c, children, h, x, (n - 1) as nat) || vreaches(c, children[n - 1], h, x))
}

/// The subtree of height `h` under `page` is a proper B+Tree: its leaves lie
/// exactly at height zero, each internal node has one child more than
/// separator keys, and the subtrees of distinct children share no page and
/// do not hold the node itself.
pub open spec fn vwf_tree(c: Map<u64, Seq<u8>>, page: PageId, h: nat) -> bool
    decreases h, 0nat,
{
    &&& c.contains_key(page.0)
    &&& match decoded_version_node(c[page.0]) {
        Some(VersionNodeView::Leaf { .. }) => h == 0,
        Some(VersionNodeView::Internal { keys, children }) => {
            &&& h > 0
            &&& children.len() == keys.len() + 1
            &&& vkids_wf(c, children, (h - 1) as nat, children.len())
            &&& forall|i: int, j: int, x: u64| 0 <= i < children.len() && 0 <= j < children.len() && i != j
                && #[trigger] vreaches(c, children[i], (h - 1) as nat, x) ==> !#[trigger] vreaches(c, children[j], (h - 1) as nat, x)
            &&& forall|i: int| 0 <= i < children.len() ==> !#[trigger] vreaches(c, children[i], (h - 1) as nat, page.0)
        },
        None => false,
    }
}

/// The first `n` children head proper subtrees of height `h`.
pub open spec fn vkids_wf(c: Map<u64, Seq<u8>>, children: Seq<PageId>, h: nat, n: nat) -> bool
    decreases h, n,
{
    n == 0 || (vkids_wf(c, children, h, (n - 1) as nat) && vwf_tree(c, children[n - 1], h))
}

/// `vkids_reach` is reaching through one of the first `n` children.
pub proof fn lemma_vkids_reach(c: Map<u64, Seq<u8>>, children: Seq<PageId>, h: nat, x: u64, n: nat)
    ensures
        vkids_reach(c, children, h, x, n) == exists|i: int| 0 <= i < n && #[trigger] vreaches(c, children[i], h, x),
    decreases n,
{
    if n > 0 {
        lemma_vkids_reach(c, children, h, x, (n - 1) as nat);
        if vkids_reach(c, children, h, x, n) {
            if !vreaches(c, children[n - 1], h, x) {
                let i = choose|i: int| 0 <= i < n - 1 && #[trigger] vreaches(c, children[i], h, x);
                assert(0 <= i < n && vreaches(c, children[i], h, x));
            } else {
                assert(vreaches(c, children[n - 1], h, x));
            }
        } else {
            assert forall|i: int| 0 <= i < n implies !#[trigger] vreaches(c, children[i], h, x) by {
                if i < n - 1 {
                    assert(!(exists|i: int| 0 <= i < n - 1 && #[trigger] vreaches(c, children[i], h, x)));
                }
            }
        }
    }
}

/// `vkids_wf` is every one of the first `n` children heading a proper
/// subtree.
pub proof fn lemma_vkids_wf(c: Map<u64, Seq<u8>>, children: Seq<PageId>, h: nat, n: nat)
    ensures
        vkids_wf(c, children, h, n) == forall|i: int| 0 <= i < n ==> #[trigger] vwf_tree(c, children[i], h),
    decreases n,
{
    if n > 0 {
        lemma_vkids_wf(c, children, h, (n - 1) as nat);
        if !vkids_wf(c, children, h, n) {
            if vkids_wf(c, children, h, (n - 1) as nat) {
                assert(!vwf_tree(c, children[n - 1], h));
            } else {
                let i = choose|i: int| 0 <= i < n - 1 && !#[trigger] vwf_tree(c, children[i], h);
                assert(0 <= i < n && !vwf_tree(c, children[i], h));
            }
        }
    }
}

/// The pages reached below an internal node are the node and the pages
/// reached below its children.
pub proof fn lemma_vreaches_internal(c: Map<u64, Seq<u8>>, page: PageId, h: nat, x: u64, keys: Seq<VersionKey>, children: Seq<PageId>)
    requires
        h > 0,
        c.contains_key(page.0),
        decoded_version_node(c[page.0]) == Some(VersionNodeView::Internal { keys, children }),
    ensures
        vreaches(c, page, h, x) == (x == page.0 || exists|i: int| 0 <= i < children.len() && #[trigger] vreaches(c, children[i], (h - 1) as nat, x)),
{
    lemma_vkids_reach(c, children, (h - 1) as nat, x, children.len());
}

/// In a proper subtree every search vreaches a leaf within `h + 1` pages,
/// visits only pages of the subtree, never one twice, and parts cleanly from
/// the search for any other key.
pub proof fn lemma_vwf_search(c: Map<u64, Seq<u8>>, page: PageId, h: nat, key: VersionKey, other: VersionKey, fuel: nat)
    requires
        vwf_tree(c, page, h),
        fuel > h,
    ensures
        version_lookup(c, page, key, fuel) is Some,
        version_lookup_path(c, page, key, fuel).len() == h + 1,
        forall|k: int| 0 <= k < version_lookup_path(c, page, key, fuel).len() ==> vreaches(c, page, h, #[trigger] version_lookup_path(c, page, key, fuel)[k]),
        version_lookup_path(c, page, key, fuel).no_duplicates(),
        vsearches_part(c, page, key, other, fuel),
    decreases h,
{
    let p = version_lookup_path(c, page, key, fuel);
    match decoded_version_node(c[page.0]) {
        Some(VersionNodeView::Internal { keys, children }) => {
            let f1 = (fuel - 1) as nat;
            let h1 = (h - 1) as nat;
            lemma_vkids_wf(c, children, h1, children.len());
            lemma_vroute_exists(keys, key);
            lemma_vroute_exists(keys, other);
            let r = vroute(keys, key);
            let ro = vroute(keys, other);
            let ch = children[r];
            let cho = children[ro];
            assert(vwf_tree(c, ch, h1));
            assert(vwf_tree(c, cho, h1));
            lemma_vwf_search(c, ch, h1, key, other, f1);
            lemma_vwf_search(c, cho, h1, other, key, f1);
            let sub = version_lookup_path(c, ch, key, f1);
            assert(p == seq![page.0] + sub);
            assert forall|k: int| 0 <= k < p.len() implies vreaches(c, page, h, #[trigger] p[k]) by {
                lemma_vreaches_internal(c, page, h, p[k], keys, children);
                if k > 0 {
                    assert(p[k] == sub[k - 1]);
                    assert(vreaches(c, children[r], h1, sub[k - 1]));
                }
            }
            assert(!sub.contains(page.0)) by {
                if sub.contains(page.0) {
                    let q = choose|q: int| 0 <= q < sub.len() && sub[q] == page.0;
                    assert(vreaches(c, children[r], h1, sub[q]));
                }
            }
            assert(p.no_duplicates()) by {
                assert forall|a: int, b: int| 0 <= a < p.len() && 0 <= b < p.len() && a != b implies p[a] != p[b] by {
                    if a == 0 {
                        assert(p[b] == sub[b - 1]);
                    } else if b == 0 {
                        assert(p[a] == sub[a - 1]);
                    } else {
                        assert(p[a] == sub[a - 1] && p[b] == sub[b - 1]);
                    }
                }
            }
            if r != ro {
                let so = version_lookup_path(c, cho, other, f1);
                assert forall|j: int| 0 <= j < so.len() implies !p.contains(#[trigger] so[j]) by {
                    let x = so[j];
                    assert(vreaches(c, children[ro], h1, x));
                    if p.contains(x) {
                        let q = choose|q: int| 0 <= q < p.len() && p[q] == x;
                        if q == 0 {
                            assert(x == page.0);
                        } else {
                            assert(p[q] == sub[q - 1]);
                            assert(vreaches(c, children[r], h1, x));
                        }
                    }
                }
            }
        },
        _ => {},
    }
}

/// A proper subtree stays proper, over the same pages, in page images that
/// agree with `c` on its pages.
pub proof fn lemma_vwf_frame(c: Map<u64, Seq<u8>>, d: Map<u64, Seq<u8>>, page: PageId, h: nat)
    requires
        vwf_tree(c, page, h),
        forall|x: u64| #[trigger] vreaches(c, page, h, x) ==> d.contains_key(x) && d[x] == c[x],
    ensures
        vwf_tree(d, page, h),
        forall|x: u64| #[trigger] vreaches(d, page, h, x) == vreaches(c, page, h, x),
    decreases h,
{
    assert(vreaches(c, page, h, page.0));
    assert(d[page.0] == c[page.0]);
    match decoded_version_node(c[page.0]) {
        Some(VersionNodeView::Internal { keys, children }) => {
            let h1 = (h - 1) as nat;
            lemma_vkids_wf(c, children, h1, children.len());
            assert forall|i: int| 0 <= i < children.len() implies {
                &&& #[trigger] vwf_tree(d, children[i], h1)
                &&& forall|x: u64| #[trigger] vreaches(d, children[i], h1, x) == vreaches(c, children[i], h1, x)
            } by {
                assert(vwf_tree(c, children[i], h1));
                assert forall|x: u64| #[trigger] vreaches(c, children[i], h1, x) implies d.contains_key(x) && d[x] == c[x] by {
                    lemma_vreaches_internal(c, page, h, x, keys, children);
                }
                lemma_vwf_frame(c, d, children[i], h1);
            }
            lemma_vkids_wf(d, children, h1, children.len());
            assert forall|x: u64| #[trigger] vreaches(d, page, h, x) == vreaches(c, page, h, x) by {
                lemma_vreaches_internal(c, page, h, x, keys, children);
                lemma_vreaches_internal(d, page, h, x, keys, children);
                if x != page.0 {
                    if vreaches(c, page, h, x) {
                        let i = choose|i: int| 0 <= i < children.len() && #[trigger] vreaches(c, children[i], h1, x);
                        assert(vwf_tree(d, children[i], h1));
                        assert(vreaches(d, children[i], h1, x));
                    }
                    if vreaches(d, page, h, x) {
                        let i = choose|i: int| 0 <= i < children.len() && #[trigger] vreaches(d, children[i], h1, x);
                        assert(vwf_tree(d, children[i], h1));
                        assert(vreaches(c, children[i], h1, x));
                    }
                }
            }
            assert forall|i: int, j: int, x: u64| 0 <= i < children.len() && 0 <= j < children.len() && i != j
                && #[trigger] vreaches(d, children[i], h1, x) implies !#[trigger] vreaches(d, children[j], h1, x) by {
                assert(vwf_tree(d, children[i], h1));
                assert(vwf_tree(d, children[j], h1));
                assert(vreaches(c, children[i], h1, x));
            }
            assert forall|i: int| 0 <= i < children.len() implies !#[trigger] vreaches(d, children[i], h1, page.0) by {
                assert(vwf_tree(d, children[i], h1));
                assert(!vreaches(c, children[i], h1, page.0));
            }
        },
        _ => {},
    }
}

/// Every page of a proper subtree exists.
pub proof fn lemma_vwf_reached_exist(c: Map<u64, Seq<u8>>, page: PageId, h: nat, x: u64)
    requires
        vwf_tree(c, page, h),
        vreaches(c, page, h, x),
    ensures
        c.contains_key(x),
    decreases h,
{
    if x != page.0 {
        match decoded_version_node(c[page.0]) {
            Some(VersionNodeView::Internal { keys, children }) => {
                let h1 = (h - 1) as nat;
                lemma_vreaches_internal(c, page, h, x, keys, children);
                lemma_vkids_wf(c, children, h1, children.len());
                let i = choose|i: int| 0 <= i < children.len() && #[trigger] vreaches(c, children[i], h1, x);
                assert(vwf_tree(c, children[i], h1));
                lemma_vwf_reached_exist(c, children[i], h1, x);
            },
            _ => {},
        }
    }
}

/// What an insert into the proper subtree of height `h` under `page` leaves
/// (from page images `c0` of `t0` pages to `c1` of `t1` pages): a proper
/// subtree, and a proper upper half split off beside it if `res` says so,
/// sharing no page, each made of pages of the subtree before or pages the
/// insert added.
spec fn vgrown_from(c0: Map<u64, Seq<u8>>, t0: nat, c1: Map<u64, Seq<u8>>, t1: nat, page: PageId, h: nat, res: Option<VersionSplit>) -> bool {
    &&& vwf_tree(c1, page, h)
    &&& forall|x: u64| #[trigger] vreaches(c1, page, h, x) ==> (vreaches(c0, page, h, x) || (t0 <= x < t1))
    &&& res matches Some(sp) ==> {
        &&& vwf_tree(c1, sp.right, h)
        &&& forall|x: u64| #[trigger] vreaches(c1, sp.right, h, x) ==> (vreaches(c0, page, h, x) || (t0 <= x < t1))
        &&& forall|x: u64| #[trigger] vreaches(c1, page, h, x) ==> !vreaches(c1, sp.right, h, x)
    }
}

/// The children of an internal node after one child split: the upper half
/// `right` follows the child at `idx`.
spec fn vkids_after(children: Seq<PageId>, idx: int, res: Option<VersionSplit>) -> Seq<PageId> {
    match res {
        Some(sp) => children.insert(idx + 1, sp.right),
        None => children,
    }
}

/// After the insert into child `idx` of a proper internal node, its
/// children (with the split-off half, if any) head proper subtrees that
/// share no page, and each holds only pages below the node before or pages
/// the insert added.
proof fn lemma_vkids_after_child(
    c0: Map<u64, Seq<u8>>,
    t0: nat,
    ca: Map<u64, Seq<u8>>,
    ta: nat,
    page: PageId,
    h: nat,
    keys0: Seq<VersionKey>,
    children0: Seq<PageId>,
    idx: int,
    res: Option<VersionSplit>,
)
    requires
        vwf_tree(c0, page, h),
        decoded_version_node(c0[page.0]) == Some(VersionNodeView::Internal { keys: keys0, children: children0 }),
        0 <= idx < children0.len(),
        forall|id: u64| #[trigger] c0.contains_key(id) <==> id < t0,
        forall|id: u64| #[trigger] ca.contains_key(id) <==> id < ta,
        t0 <= ta,
        forall|id: u64| #![trigger ca[id]] id < t0 && !vreaches(c0, children0[idx], (h - 1) as nat, id) ==> ca[id] == c0[id],
        vgrown_from(c0, t0, ca, ta, children0[idx], (h - 1) as nat, res),
    ensures
        ({
            let kids = vkids_after(children0, idx, res);
            let h1 = (h - 1) as nat;
            &&& forall|i: int| 0 <= i < kids.len() ==> #[trigger] vwf_tree(ca, kids[i], h1)
            &&& forall|i: int, j: int, x: u64| 0 <= i < kids.len() && 0 <= j < kids.len() && i != j
                && #[trigger] vreaches(ca, kids[i], h1, x) ==> !#[trigger] vreaches(ca, kids[j], h1, x)
            &&& forall|i: int, x: u64| 0 <= i < kids.len() && #[trigger] vreaches(ca, kids[i], h1, x)
                ==> (vreaches(c0, page, h, x) && x != page.0) || (t0 <= x < ta)
        }),
{
    let h1 = (h - 1) as nat;
    let kids = vkids_after(children0, idx, res);
    let child = children0[idx];
    lemma_vkids_wf(c0, children0, h1, children0.len());
    // An untouched child keeps its subtree.
    assert forall|j: int| 0 <= j < children0.len() && j != idx implies {
        &&& #[trigger] vwf_tree(ca, children0[j], h1)
        &&& forall|x: u64| #[trigger] vreaches(ca, children0[j], h1, x) == vreaches(c0, children0[j], h1, x)
    } by {
        assert(vwf_tree(c0, children0[j], h1));
        assert forall|x: u64| #[trigger] vreaches(c0, children0[j], h1, x) implies ca.contains_key(x) && ca[x] == c0[x] by {
            lemma_vwf_reached_exist(c0, children0[j], h1, x);
            assert(!vreaches(c0, children0[idx], h1, x));
        }
        lemma_vwf_frame(c0, ca, children0[j], h1);
    }
    // Where each new child comes from: an untouched child, or the child
    // that took the insert, or its split-off half.
    let is_new = |i: int| i == idx || (res is Some && i == idx + 1);
    let src = |i: int| if res is Some && i > idx + 1 { i - 1 } else { i };
    assert forall|i: int| 0 <= i < kids.len() && !is_new(i) implies #[trigger] kids[i] == children0[src(i)] && src(i) != idx
        && 0 <= src(i) < children0.len() by {}
    assert forall|i: int| 0 <= i < kids.len() && is_new(i) implies {
        &&& vwf_tree(ca, #[trigger] kids[i], h1)
        &&& forall|x: u64| #[trigger] vreaches(ca, kids[i], h1, x) ==> (vreaches(c0, child, h1, x) || (t0 <= x < ta))
    } by {
        if i == idx {
            assert(kids[i] == child);
        } else {
            assert(kids[i] == res->0.right);
        }
    }
    assert forall|i: int| 0 <= i < kids.len() implies #[trigger] vwf_tree(ca, kids[i], h1) by {
        if !is_new(i) {
            assert(vwf_tree(ca, children0[src(i)], h1));
        }
    }
    assert forall|i: int, x: u64| 0 <= i < kids.len() && #[trigger] vreaches(ca, kids[i], h1, x)
        implies (vreaches(c0, page, h, x) && x != page.0) || (t0 <= x < ta) by {
        lemma_vreaches_internal(c0, page, h, x, keys0, children0);
        if !is_new(i) {
            assert(vwf_tree(ca, children0[src(i)], h1));
            assert(vreaches(c0, children0[src(i)], h1, x));
            assert(!vreaches(c0, children0[src(i)], h1, page.0));
        } else {
            assert(vwf_tree(ca, kids[i], h1));
            if vreaches(c0, child, h1, x) {
                assert(!vreaches(c0, children0[idx], h1, page.0));
            }
        }
    }
    assert forall|i: int, j: int, x: u64| 0 <= i < kids.len() && 0 <= j < kids.len() && i != j
        && #[trigger] vreaches(ca, kids[i], h1, x) implies !#[trigger] vreaches(ca, kids[j], h1, x) by {
        if vreaches(ca, kids[j], h1, x) {
            if !is_new(i) && !is_new(j) {
                assert(vwf_tree(ca, children0[src(i)], h1));
                assert(vwf_tree(ca, children0[src(j)], h1));
                assert(vreaches(c0, children0[src(i)], h1, x));
                assert(vreaches(c0, children0[src(j)], h1, x));
            } else if is_new(i) && is_new(j) {
                assert(vwf_tree(ca, kids[i], h1));
                if i == idx {
                    assert(kids[j] == res->0.right);
                    assert(vreaches(ca, child, h1, x));
                } else {
                    assert(kids[i] == res->0.right);
                    assert(kids[j] == child);
                }
            } else if is_new(i) {
                assert(vwf_tree(ca, kids[i], h1));
                assert(vwf_tree(ca, children0[src(j)], h1));
                assert(vreaches(c0, children0[src(j)], h1, x));
                lemma_vwf_reached_exist(c0, children0[src(j)], h1, x);
                assert(!vreaches(c0, children0[idx], h1, x));
            } else {
                assert(vwf_tree(ca, kids[j], h1));
                assert(vwf_tree(ca, children0[src(i)], h1));
                assert(vreaches(c0, children0[src(i)], h1, x));
                lemma_vwf_reached_exist(c0, children0[src(i)], h1, x);
                assert(!vreaches(c0, children0[idx], h1, x));
            }
        }
    }
}

/// An internal node stored at `page` in `d` over children that head proper,
/// pairwise disjoint subtrees in `ca` (which `d` keeps, and which do not
/// hold `page`) is a proper subtree, made of itself and those subtrees.
proof fn lemma_vwf_assemble(
    ca: Map<u64, Seq<u8>>,
    d: Map<u64, Seq<u8>>,
    page: PageId,
    h: nat,
    keys: Seq<VersionKey>,
    kids: Seq<PageId>,
)
    requires
        h > 0,
        d.contains_key(page.0),
        decoded_version_node(d[page.0]) == Some(VersionNodeView::Internal { keys, children: kids }),
        kids.len() == keys.len() + 1,
        forall|i: int| 0 <= i < kids.len() ==> #[trigger] vwf_tree(ca, kids[i], (h - 1) as nat),
        forall|i: int, j: int, x: u64| 0 <= i < kids.len() && 0 <= j < kids.len() && i != j
            && #[trigger] vreaches(ca, kids[i], (h - 1) as nat, x) ==> !#[trigger] vreaches(ca, kids[j], (h - 1) as nat, x),
        forall|i: int, x: u64| 0 <= i < kids.len() && #[trigger] vreaches(ca, kids[i], (h - 1) as nat, x)
            ==> d.contains_key(x) && d[x] == ca[x] && x != page.0,
    ensures
        vwf_tree(d, page, h),
        forall|x: u64| #[trigger] vreaches(d, page, h, x)
            == (x == page.0 || exists|i: int| 0 <= i < kids.len() && #[trigger] vreaches(ca, kids[i], (h - 1) as nat, x)),
{
    let h1 = (h - 1) as nat;
    assert forall|i: int| 0 <= i < kids.len() implies {
        &&& #[trigger] vwf_tree(d, kids[i], h1)
        &&& forall|x: u64| #[trigger] vreaches(d, kids[i], h1, x) == vreaches(ca, kids[i], h1, x)
    } by {
        assert(vwf_tree(ca, kids[i], h1));
        lemma_vwf_frame(ca, d, kids[i], h1);
    }
    lemma_vkids_wf(d, kids, h1, kids.len());
    assert forall|i: int, j: int, x: u64| 0 <= i < kids.len() && 0 <= j < kids.len() && i != j
        && #[trigger] vreaches(d, kids[i], h1, x) implies !#[trigger] vreaches(d, kids[j], h1, x) by {
        assert(vwf_tree(d, kids[i], h1));
        assert(vwf_tree(d, kids[j], h1));
        assert(vreaches(ca, kids[i], h1, x));
    }
    assert forall|i: int| 0 <= i < kids.len() implies !#[trigger] vreaches(d, kids[i], h1, page.0) by {
        assert(vwf_tree(d, kids[i], h1));
        if vreaches(ca, kids[i], h1, page.0) {
            assert(page.0 != page.0);
        }
    }
    assert forall|x: u64| #[trigger] vreaches(d, page, h, x)
        == (x == page.0 || exists|i: int| 0 <= i < kids.len() && #[trigger] vreaches(ca, kids[i], h1, x)) by {
        lemma_vreaches_internal(d, page, h, x, keys, kids);
        if exists|i: int| 0 <= i < kids.len() && #[trigger] vreaches(d, kids[i], h1, x) {
            let i = choose|i: int| 0 <= i < kids.len() && #[trigger] vreaches(d, kids[i], h1, x);
            assert(vwf_tree(d, kids[i], h1));
            assert(vreaches(ca, kids[i], h1, x));
        }
        if exists|i: int| 0 <= i < kids.len() && #[trigger] vreaches(ca, kids[i], h1, x) {
            let i = choose|i: int| 0 <= i < kids.len() && #[trigger] vreaches(ca, kids[i], h1, x);
            assert(vwf_tree(d, kids[i], h1));
            assert(vreaches(d, kids[i], h1, x));
        }
    }
}

/// The proper subtree under an internal node after the insert into its
/// child `idx` (from `c0` to `c1`) and the update of the node itself (from
/// `c1` to `cf`): unchanged when the child did not split, else with the
/// child's upper half recorded in the node, which splits in turn when
/// `res` says so.
proof fn lemma_vgrown_parent(
    c0: Map<u64, Seq<u8>>,
    t0: nat,
    c1: Map<u64, Seq<u8>>,
    t1: nat,
    cf: Map<u64, Seq<u8>>,
    tf: nat,
    page: PageId,
    h: nat,
    keys0: Seq<VersionKey>,
    children0: Seq<PageId>,
    idx: int,
    child_res: Option<VersionSplit>,
    res: Option<VersionSplit>,
)
    requires
        vwf_tree(c0, page, h),
        decoded_version_node(c0[page.0]) == Some(VersionNodeView::Internal { keys: keys0, children: children0 }),
        0 <= idx < children0.len(),
        forall|id: u64| #[trigger] c0.contains_key(id) <==> id < t0,
        forall|id: u64| #[trigger] c1.contains_key(id) <==> id < t1,
        forall|id: u64| #[trigger] cf.contains_key(id) <==> id < tf,
        t0 <= t1 <= tf,
        forall|id: u64| #![trigger c1[id]] id < t0 && !vreaches(c0, children0[idx], (h - 1) as nat, id) ==> c1[id] == c0[id],
        vgrown_from(c0, t0, c1, t1, children0[idx], (h - 1) as nat, child_res),
        child_res is None ==> cf == c1 && tf == t1 && res is None,
        child_res matches Some(split) ==> {
            let keys1 = keys0.insert(idx, split.separator);
            let children1 = children0.insert(idx + 1, split.right);
            let m = (keys1.len() / 2) as int;
            &&& res is None ==> {
                &&& tf == t1
                &&& cf == c1.insert(page.0, cf[page.0])
                &&& decoded_version_node(cf[page.0]) == Some(VersionNodeView::Internal { keys: keys1, children: children1 })
            }
            &&& res matches Some(sp) ==> {
                &&& sp.right.0 == t1
                &&& tf == t1 + 1
                &&& forall|id: u64| #![trigger cf[id]] id < t1 && id != page.0 ==> cf[id] == c1[id]
                &&& decoded_version_node(cf[page.0]) == Some(VersionNodeView::Internal { keys: keys1.subrange(0, m), children: children1.subrange(0, m + 1) })
                &&& decoded_version_node(cf[sp.right.0]) == Some(VersionNodeView::Internal {
                    keys: keys1.subrange(m + 1, keys1.len() as int),
                    children: children1.subrange(m + 1, children1.len() as int),
                })
            }
        },
    ensures
        vgrown_from(c0, t0, cf, tf, page, h, res),
{
    let h1 = (h - 1) as nat;
    lemma_vkids_after_child(c0, t0, c1, t1, page, h, keys0, children0, idx, child_res);
    let kids = vkids_after(children0, idx, child_res);
    assert(vreaches(c0, page, h, page.0));
    assert(c0.contains_key(page.0));
    assert(!vreaches(c0, children0[idx], h1, page.0));
    assert(c1[page.0] == c0[page.0]);
    // Pages below the children exist in `c1` and are not the node's page.
    assert forall|i: int, x: u64| 0 <= i < kids.len() && #[trigger] vreaches(c1, kids[i], h1, x) implies c1.contains_key(x) && x != page.0 by {
        assert(vwf_tree(c1, kids[i], h1));
        lemma_vwf_reached_exist(c1, kids[i], h1, x);
    }
    match child_res {
        None => {
            lemma_vwf_assemble(c1, c1, page, h, keys0, children0);
            assert forall|x: u64| #[trigger] vreaches(c1, page, h, x) implies (vreaches(c0, page, h, x) || (t0 <= x < t1)) by {
                if x != page.0 {
                    let i = choose|i: int| 0 <= i < kids.len() && #[trigger] vreaches(c1, kids[i], h1, x);
                }
            }
        },
        Some(split) => {
            let keys1 = keys0.insert(idx, split.separator);
            let children1 = children0.insert(idx + 1, split.right);
            assert(kids == children1);
            match res {
                None => {
                    lemma_vwf_assemble(c1, cf, page, h, keys1, children1);
                    assert forall|x: u64| #[trigger] vreaches(cf, page, h, x) implies (vreaches(c0, page, h, x) || (t0 <= x < tf)) by {
                        if x != page.0 {
                            let i = choose|i: int| 0 <= i < kids.len() && #[trigger] vreaches(c1, kids[i], h1, x);
                        }
                    }
                },
                Some(sp) => {
                    let m = (keys1.len() / 2) as int;
                    let lk = keys1.subrange(0, m);
                    let lc = children1.subrange(0, m + 1);
                    let rk = keys1.subrange(m + 1, keys1.len() as int);
                    let rc = children1.subrange(m + 1, children1.len() as int);
                    assert forall|i: int| 0 <= i < lc.len() implies #[trigger] lc[i] == children1[i] by {}
                    assert forall|i: int| 0 <= i < rc.len() implies #[trigger] rc[i] == children1[i + m + 1] by {}
                    assert forall|i: int| 0 <= i < lc.len() implies #[trigger] vwf_tree(c1, lc[i], h1) by {
                        assert(vwf_tree(c1, kids[i], h1));
                    }
                    assert forall|i: int, j: int, x: u64| 0 <= i < lc.len() && 0 <= j < lc.len() && i != j
                        && #[trigger] vreaches(c1, lc[i], h1, x) implies !#[trigger] vreaches(c1, lc[j], h1, x) by {
                        assert(vreaches(c1, kids[i], h1, x));
                        assert(lc[j] == kids[j]);
                    }
                    assert forall|i: int, x: u64| 0 <= i < lc.len() && #[trigger] vreaches(c1, lc[i], h1, x)
                        implies cf.contains_key(x) && cf[x] == c1[x] && x != page.0 by {
                        assert(vreaches(c1, kids[i], h1, x));
                    }
                    lemma_vwf_assemble(c1, cf, page, h, lk, lc);
                    assert forall|i: int| 0 <= i < rc.len() implies #[trigger] vwf_tree(c1, rc[i], h1) by {
                        assert(vwf_tree(c1, kids[i + m + 1], h1));
                    }
                    assert forall|i: int, j: int, x: u64| 0 <= i < rc.len() && 0 <= j < rc.len() && i != j
                        && #[trigger] vreaches(c1, rc[i], h1, x) implies !#[trigger] vreaches(c1, rc[j], h1, x) by {
                        assert(vreaches(c1, kids[i + m + 1], h1, x));
                        assert(rc[j] == kids[j + m + 1]);
                    }
                    assert forall|i: int, x: u64| 0 <= i < rc.len() && #[trigger] vreaches(c1, rc[i], h1, x)
                        implies cf.contains_key(x) && cf[x] == c1[x] && x != sp.right.0 by {
                        assert(vreaches(c1, kids[i + m + 1], h1, x));
                    }
                    lemma_vwf_assemble(c1, cf, sp.right, h, rk, rc);
                    assert forall|x: u64| #[trigger] vreaches(cf, page, h, x) implies (vreaches(c0, page, h, x) || (t0 <= x < tf)) by {
                        if x != page.0 {
                            let i = choose|i: int| 0 <= i < lc.len() && #[trigger] vreaches(c1, lc[i], h1, x);
                            assert(vreaches(c1, kids[i], h1, x));
                        }
                    }
                    assert forall|x: u64| #[trigger] vreaches(cf, sp.right, h, x) implies (vreaches(c0, page, h, x) || (t0 <= x < tf)) by {
                        if x != sp.right.0 {
                            let i = choose|i: int| 0 <= i < rc.len() && #[trigger] vreaches(c1, rc[i], h1, x);
                            assert(vreaches(c1, kids[i + m + 1], h1, x));
                        }
                    }
                    assert forall|x: u64| #[trigger] vreaches(cf, page, h, x) implies !vreaches(cf, sp.right, h, x) by {
                        if vreaches(cf, sp.right, h, x) {
                            if x == page.0 {
                                if x != sp.right.0 {
                                    let j = choose|j: int| 0 <= j < rc.len() && #[trigger] vreaches(c1, rc[j], h1, x);
                                    assert(vreaches(c1, kids[j + m + 1], h1, x));
                                }
                            } else {
                                let i = choose|i: int| 0 <= i < lc.len() && #[trigger] vreaches(c1, lc[i], h1, x);
                                assert(vreaches(c1, kids[i], h1, x));
                                if x != sp.right.0 {
                                    let j = choose|j: int| 0 <= j < rc.len() && #[trigger] vreaches(c1, rc[j], h1, x);
                                    assert(vreaches(c1, kids[j + m + 1], h1, x));
                                }
                            }
                        }
                    }
                },
            }
        },
    }
}

/// The shape clause of `insert_recursive` for an internal node, from the
/// same clause of the recursive insert into the child that `key` routes to
/// and what recording its split (if any) did to the node.
proof fn lemma_vgrown_after_child(
    c0: Map<u64, Seq<u8>>,
    t0: nat,
    c1: Map<u64, Seq<u8>>,
    t1: nat,
    cf: Map<u64, Seq<u8>>,
    tf: nat,
    page: PageId,
    keys0: Seq<VersionKey>,
    children0: Seq<PageId>,
    idx: int,
    key: VersionKey,
    fuel: nat,
    child_res: Option<VersionSplit>,
    res: Option<VersionSplit>,
)
    requires
        fuel >= 1,
        c0.contains_key(page.0),
        decoded_version_node(c0[page.0]) == Some(VersionNodeView::Internal { keys: keys0, children: children0 }),
        vroutes_to(keys0, key, idx),
        forall|id: u64| #[trigger] c0.contains_key(id) <==> id < t0,
        forall|id: u64| #[trigger] c1.contains_key(id) <==> id < t1,
        forall|id: u64| #[trigger] cf.contains_key(id) <==> id < tf,
        t0 <= t1 <= tf,
        forall|id: u64| #![trigger c1[id]] id < t0 && !version_lookup_path(c0, children0[idx], key, (fuel - 1) as nat).contains(id) ==> c1[id] == c0[id],
        forall|h: nat| #[trigger] vwf_tree(c0, children0[idx], h) ==> h < fuel - 1
            && vgrown_from(c0, t0, c1, t1, children0[idx], h, child_res),
        child_res is None ==> cf == c1 && tf == t1 && res is None,
        child_res matches Some(split) ==> {
            let keys1 = keys0.insert(idx, split.separator);
            let children1 = children0.insert(idx + 1, split.right);
            let m = (keys1.len() / 2) as int;
            &&& res is None ==> {
                &&& tf == t1
                &&& cf == c1.insert(page.0, cf[page.0])
                &&& decoded_version_node(cf[page.0]) == Some(VersionNodeView::Internal { keys: keys1, children: children1 })
            }
            &&& res matches Some(sp) ==> {
                &&& sp.right.0 == t1
                &&& tf == t1 + 1
                &&& forall|id: u64| #![trigger cf[id]] id < t1 && id != page.0 ==> cf[id] == c1[id]
                &&& decoded_version_node(cf[page.0]) == Some(VersionNodeView::Internal { keys: keys1.subrange(0, m), children: children1.subrange(0, m + 1) })
                &&& decoded_version_node(cf[sp.right.0]) == Some(VersionNodeView::Internal {
                    keys: keys1.subrange(m + 1, keys1.len() as int),
                    children: children1.subrange(m + 1, children1.len() as int),
                })
            }
        },
    ensures
        forall|h: nat| #[trigger] vwf_tree(c0, page, h) ==> h < fuel && vgrown_from(c0, t0, cf, tf, page, h, res),
{
    assert forall|h: nat| #[trigger] vwf_tree(c0, page, h) implies h < fuel && vgrown_from(c0, t0, cf, tf, page, h, res) by {
        let h1 = (h - 1) as nat;
        let child = children0[idx];
        lemma_vkids_wf(c0, children0, h1, children0.len());
        assert(vwf_tree(c0, child, h1));
        lemma_vwf_search(c0, child, h1, key, key, (fuel - 1) as nat);
        let p = version_lookup_path(c0, child, key, (fuel - 1) as nat);
        assert forall|id: u64| #![trigger c1[id]] id < t0 && !vreaches(c0, child, h1, id) implies c1[id] == c0[id] by {
            if p.contains(id) {
                let q = choose|q: int| 0 <= q < p.len() && p[q] == id;
                assert(vreaches(c0, child, h1, p[q]));
            }
        }
        lemma_vgrown_parent(c0, t0, c1, t1, cf, tf, page, h, keys0, children0, idx, child_res, res);
    }
}

/// A proper tree in a page file of at most `u64::MAX` pages is shallower
/// than the page count, so every search from its root reaches a leaf within
/// the fuel that `get` gives it.
pub proof fn lemma_vwf_lookup_found(c: Map<u64, Seq<u8>>, root: PageId, h: nat, key: VersionKey, total: nat)
    requires
        vwf_tree(c, root, h),
        forall|id: u64| #[trigger] c.contains_key(id) ==> id < total,
        total <= u64::MAX,
    ensures
        h < total,
        version_lookup(c, root, key, descent_fuel(total)) is Some,
{
    lemma_vwf_search(c, root, h, key, key, h + 1);
    let p = version_lookup_path(c, root, key, h + 1);
    assert forall|i: int| 0 <= i < p.len() implies (#[trigger] p[i]) < total by {
        lemma_vwf_reached_exist(c, root, h, p[i]);
    }
    lemma_distinct_below(p, total);
    lemma_vwf_search(c, root, h, key, key, descent_fuel(total));
}

/// Position of `key` among strictly increasing `keys`: `Ok(i)` where it
/// stands, else `Err(i)` where it would be inserted.
fn vsearch(keys: &Vec<VersionKey>, key: VersionKey) -> (r: Result<usize, usize>)
    requires
        version_keys_sorted(keys@),
    ensures
        match r {
            Ok(i) => i < keys@.len() && keys@[i as int] == key,
            Err(i) => {
                &&& i <= keys@.len()
                &&& forall|j: int| 0 <= j < i ==> version_key_lt(#[trigger] keys@[j], key)
                &&& forall|j: int| i <= j < keys@.len() ==> version_key_lt(key, #[trigger] keys@[j])
            },
        },
{
    let mut lo: usize = 0;
    let mut hi: usize = keys.len();
    while lo < hi
        invariant
            lo <= hi <= keys@.len(),
            version_keys_sorted(keys@),
            forall|j: int| 0 <= j < lo ==> version_key_lt(#[trigger] keys@[j], key),
            forall|j: int| hi <= j < keys@.len() ==> version_key_lt(key, #[trigger] keys@[j]),
        decreases hi - lo,
    {
        let mid = lo + (hi - lo) / 2;
        let k = keys[mid];
        if k.row_id.0 == key.row_id.0 && k.begin_ts.0 == key.begin_ts.0 {
            assert(keys@[mid as int] == key);
            return Ok(mid);
        } else if k.lt(&key) {
            assert forall|j: int| 0 <= j < mid + 1 implies version_key_lt(#[trigger] keys@[j], key) by {
                if j < mid {
                    assert(version_key_lt(keys@[j], keys@[mid as int]));
                }
            }
            lo = mid + 1;
        } else {
            assert forall|j: int| mid <= j < keys@.len() implies version_key_lt(key, #[trigger] keys@[j]) by {
                if j > mid {
                    assert(version_key_lt(keys@[mid as int], keys@[j]));
                }
            }
            hi = mid;
        }
    }
    Err(lo)
}

/// The child a search for `key` follows among separator `keys`.
fn vchild_index(keys: &Vec<VersionKey>, key: VersionKey) -> (r: usize)
    ensures
        vroutes_to(keys@, key, r as int),
{
    let mut idx: usize = 0;
    while idx < keys.len() && !key.lt(&keys[idx])
        invariant
            idx <= keys@.len(),
            forall|j: int| 0 <= j < idx ==> !version_key_lt(key, #[trigger] keys@[j]),
        decreases keys@.len() - idx,
    {
        idx = idx + 1;
    }
    idx
}

/// Where an insertion that overflowed a node put its upper half.
struct VersionSplit {
    separator: VersionKey,
    right: PageId,
}

/// The page where a search for `key` continues after an insertion into
/// `page` that returned `res`.
spec fn vsplit_target(res: Option<VersionSplit>, page: PageId, key: VersionKey) -> PageId {
    match res {
        Some(sp) => if version_key_lt(key, sp.separator) { page } else { sp.right },
        None => page,
    }
}

/// `i` lies after every key of `keys` below `key` and before every key above
/// it.
pub open spec fn vslot_fits(keys: Seq<VersionKey>, key: VersionKey, i: int) -> bool {
    &&& 0 <= i <= keys.len()
    &&& forall|j: int| 0 <= j < i ==> version_key_lt(#[trigger] keys[j], key)
    &&& forall|j: int| i <= j < keys.len() ==> version_key_lt(key, #[trigger] keys[j])
}

/// Where `key`, which the ascending `keys` do not hold, goes among them (see
/// `vslot_fits`).
pub open spec fn vleaf_slot(keys: Seq<VersionKey>, key: VersionKey) -> int {
    choose|i: int| vslot_fits(keys, key, i)
}

/// The keys of a leaf holding `keys` after `key` is put in: unchanged when
/// it is there already, else with `key` inserted in order.
pub open spec fn vleaf_put_keys(keys: Seq<VersionKey>, key: VersionKey) -> Seq<VersionKey> {
    if keys.contains(key) {
        keys
    } else {
        keys.insert(vleaf_slot(keys, key), key)
    }
}

/// The locations of a leaf after `key -> value` is put in: the location of
/// `key` replaced when the leaf holds it, else `value` inserted beside it.
pub open spec fn vleaf_put_values(keys: Seq<VersionKey>, values: Seq<RowLocation>, key: VersionKey, value: RowLocation) -> Seq<RowLocation> {
    if keys.contains(key) {
        values.update(choose|i: int| 0 <= i < keys.len() && keys[i] == key, value)
    } else {
        values.insert(vleaf_slot(keys, key), value)
    }
}

/// What putting `key -> value` into the leaf at `page`, which held `keys`,
/// `values` and sibling `next` in a file of `t0` pages, left in the page
/// images `c1` of `t1` pages, having returned `res`. The entries after the
/// put stay on the page when they are at most `MAX_VERSION_LEAF_ENTRIES` and
/// no page is added. Otherwise the page keeps exactly the entries below the
/// separator, linked to a fresh page at the end of the file that takes those
/// at or above it and the old sibling; the separator is the first key of the
/// upper half.
spec fn vleaf_put_done(
    t0: nat,
    c1: Map<u64, Seq<u8>>,
    t1: nat,
    page: PageId,
    keys: Seq<VersionKey>,
    values: Seq<RowLocation>,
    next: Option<PageId>,
    key: VersionKey,
    value: RowLocation,
    res: Option<VersionSplit>,
) -> bool {
    let lk = vleaf_put_keys(keys, key);
    let lv = vleaf_put_values(keys, values, key, value);
    let m = (lk.len() / 2) as int;
    if lk.len() <= MAX_VERSION_LEAF_ENTRIES {
        &&& res is None
        &&& t1 == t0
        &&& decoded_version_node(c1[page.0]) == Some(stored_version_node(VersionNodeView::Leaf { keys: lk, values: lv, next }))
    } else {
        &&& res is Some
        &&& res->0.right.0 == t0
        &&& t1 == t0 + 1
        &&& res->0.separator == lk[m]
        &&& forall|j: int| 0 <= j < m ==> version_key_lt(#[trigger] lk[j], lk[m])
        &&& forall|j: int| m < j < lk.len() ==> version_key_lt(lk[m], #[trigger] lk[j])
        &&& decoded_version_node(c1[page.0]) == Some(stored_version_node(VersionNodeView::Leaf {
            keys: lk.subrange(0, m),
            values: lv.subrange(0, m),
            next: Some(res->0.right),
        }))
        &&& decoded_version_node(c1[res->0.right.0]) == Some(stored_version_node(VersionNodeView::Leaf {
            keys: lk.subrange(m, lk.len() as int),
            values: lv.subrange(m, lk.len() as int),
            next,
        }))
    }
}

/// Every page of `c1` that is new or changed since `c0` holds a node within
/// the fanout and in key order (see `version_node_valid`), stamped with
/// `lsn`.
pub open spec fn vwritten_since(c0: Map<u64, Seq<u8>>, c1: Map<u64, Seq<u8>>, lsn: Lsn) -> bool {
    forall|id: u64| #[trigger] c1.contains_key(id) && !(c0.contains_key(id) && c1[id] == c0[id]) ==> {
        &&& hdr_lsn(c1[id]) == lsn.0
        &&& decoded_version_node(c1[id]) is Some
        &&& version_node_valid(decoded_version_node(c1[id])->0)
    }
}

/// Writing in two steps, each stamping with `lsn`, stamps with `lsn`.
pub proof fn lemma_vwritten_trans(c0: Map<u64, Seq<u8>>, c1: Map<u64, Seq<u8>>, c2: Map<u64, Seq<u8>>, lsn: Lsn)
    requires
        vwritten_since(c0, c1, lsn),
        vwritten_since(c1, c2, lsn),
    ensures
        vwritten_since(c0, c2, lsn),
{
    assert forall|id: u64| #[trigger] c2.contains_key(id) && !(c0.contains_key(id) && c2[id] == c0[id]) implies {
        &&& hdr_lsn(c2[id]) == lsn.0
        &&& decoded_version_node(c2[id]) is Some
        &&& version_node_valid(decoded_version_node(c2[id])->0)
    } by {
        if c1.contains_key(id) && c2[id] == c1[id] {
            assert(c1.contains_key(id));
        }
    }
}

/// The slot of a key missing from ascending keys is the one place between
/// the smaller and the larger keys.
pub proof fn lemma_vleaf_slot(keys: Seq<VersionKey>, key: VersionKey, i: int)
    requires
        vslot_fits(keys, key, i),
    ensures
        vleaf_slot(keys, key) == i,
        !keys.contains(key),
{
    let c = vleaf_slot(keys, key);
    assert(vslot_fits(keys, key, c));
    if c < i {
        assert(version_key_lt(keys[c], key));
    } else if i < c {
        assert(version_key_lt(keys[i], key));
    }
    if keys.contains(key) {
        let j = choose|j: int| 0 <= j < keys.len() && keys[j] == key;
        if j < i {
            assert(version_key_lt(keys[j], key));
        } else {
            assert(version_key_lt(key, keys[j]));
        }
    }
}

/// A key of ascending keys sits at one index only.
pub proof fn lemma_vkey_index(keys: Seq<VersionKey>, key: VersionKey, i: int)
    requires
        version_keys_sorted(keys),
        0 <= i < keys.len(),
        keys[i] == key,
    ensures
        keys.contains(key),
        (choose|j: int| 0 <= j < keys.len() && keys[j] == key) == i,
{
    assert(keys[i] == key);
    let c = choose|j: int| 0 <= j < keys.len() && keys[j] == key;
    assert(0 <= c < keys.len() && keys[c] == key);
    if c < i {
        assert(version_key_lt(keys[c], keys[i]));
    } else if i < c {
        assert(version_key_lt(keys[i], keys[c]));
    }
}

/// A B+Tree over version keys, used as the temporal version index.
pub struct VersionBTree<S: PageStore> {
    pool: BufferPool<S>,
    root: PageId,
}

impl<S: PageStore> VersionBTree<S> {
    /// The page images of the tree's page file.
    pub closed spec fn content(&self) -> Map<u64, Seq<u8>> {
        self.pool.content()
    }

    /// The page that holds the root node.
    pub closed spec fn root_page(&self) -> PageId {
        self.root
    }

    /// The number of pages in the page file.
    pub closed spec fn page_total(&self) -> nat {
        self.pool.stored().len()
    }

    /// The page store holds what the tree's pages contain: nothing is
    /// waiting in the buffer pool to be written.
    pub closed spec fn durable(&self) -> bool {
        self.pool.persisted()
    }

    /// Page `id` is held in the buffer pool, so that reading or writing it
    /// does not reach the page store.
    pub closed spec fn cached(&self, id: u64) -> bool {
        self.pool.cached(id)
    }

    /// The buffer pool under the tree is consistent.
    pub closed spec fn inv(&self) -> bool {
        self.pool.inv()
    }

    /// The pages with content are exactly the pages of the page file.
    pub proof fn lemma_content_dom(&self)
        ensures
            forall|id: u64| #[trigger] self.content().contains_key(id) <==> id < self.page_total(),
    {
        self.pool.lemma_content_dom();
    }

    /// What a search for `key` from the root finds, visiting at most one
    /// page more than the page file holds (see `version_lookup`).
    pub open spec fn lookup(&self, key: VersionKey) -> Option<Option<RowLocation>> {
        version_lookup(self.content(), self.root_page(), key, descent_fuel(self.page_total()))
    }

    /// An insert of `key` leaves the search for `other` alone: `other` is a
    /// different key whose search from the root ends at a leaf (holding it
    /// or not) within the insert's depth limit, that search visits no page
    /// twice, and once it parts from the search for `key` it meets none of
    /// that search's pages again. Of a well-formed tree (see `well_formed`)
    /// the insert shows every other key unchanged outright.
    pub open spec fn untouched_by_insert(&self, key: VersionKey, other: VersionKey) -> bool {
        vclear_of_insert(self.content(), self.root_page(), key, other, (MAX_VERSION_DEPTH + 1) as nat, Seq::empty())
    }

    /// The page file holds a proper tree under the root (see `vwf_tree`).
    /// `create` makes one, and every insert keeps it so.
    pub open spec fn well_formed(&self) -> bool {
        exists|h: nat| #[trigger] vwf_tree(self.content(), self.root_page(), h)
    }

    /// An insert of `key` needs neither the page store nor a split: the
    /// search for `key` from the root reaches a leaf that holds `key` or has
    /// room for it, visits no page twice, and every page it visits is cached.
    pub open spec fn fits_in_place(&self, key: VersionKey) -> bool {
        let p = version_lookup_path(self.content(), self.root_page(), key, (MAX_VERSION_DEPTH + 1) as nat);
        &&& vleaf_has_room(self.content(), self.root_page(), key, (MAX_VERSION_DEPTH + 1) as nat)
        &&& p.no_duplicates()
        &&& forall|k: int| 0 <= k < p.len() ==> self.cached(#[trigger] p[k])
    }

    /// Opens a tree whose root node is stored at `root`, refusing a root
    /// outside the page file.
    pub fn with_root(pool: BufferPool<S>, root: PageId) -> (r: Result<Self, BTreeError>)
        requires
            pool.inv(),
        ensures
            r matches Ok(t) ==> {
                &&& t.inv()
                &&& t.content() == pool.content()
                &&& t.root_page() == root
                &&& t.page_total() == pool.stored().len()
                &&& root.0 < pool.stored().len()
            },
            r matches Err(BTreeError::Corrupt(_)) ==> root.0 >= pool.stored().len(),
    {
        let count = match pool.page_count() {
            Ok(n) => n,
            Err(e) => return Err(BTreeError::Buffer(e)),
        };
        if root.0 >= count {
            return Err(BTreeError::Corrupt("root page is outside page file".to_owned()));
        }
        Ok(Self { pool, root })
    }

    /// Returns the number of pages of the page file.
    pub fn page_count(&self) -> (r: Result<u64, BTreeError>)
        ensures
            r matches Ok(n) ==> n == self.page_total(),
            r matches Err(e) ==> e is Buffer,
    {
        match self.pool.page_count() {
            Ok(n) => Ok(n),
            Err(e) => Err(BTreeError::Buffer(e)),
        }
    }

    /// Creates an empty tree: allocates a leaf page for the root, writes the
    /// empty leaf into it and flushes the pool. The caller records the root
    /// page in the tree's metadata.
    pub fn create(pool: BufferPool<S>) -> (r: Result<Self, BTreeError>)
        requires
            pool.inv(),
        ensures
            r matches Ok(t) ==> {
                &&& t.inv()
                &&& t.root_page().0 == pool.stored().len()
                &&& forall|key: VersionKey| #[trigger] t.lookup(key) == Some(None::<RowLocation>)
                &&& t.well_formed()
                &&& t.durable()
            },
            r matches Err(e) ==> e is Buffer,
    {
        let mut pool = pool;
        let root = match pool.allocate_page(PageKind::BTreeLeaf) {
            Ok(id) => id,
            Err(e) => return Err(BTreeError::Buffer(e)),
        };
        let mut tree = Self { pool, root };
        let empty = VersionNode::Leaf(VersionLeafNode::empty());
        tree.store_node(root, &empty, Lsn(0))?;
        let ghost c = tree.content();
        match tree.pool.flush_all() {
            Ok(()) => {},
            Err(e) => return Err(BTreeError::Buffer(e)),
        }
        proof {
            assert forall|key: VersionKey| #[trigger] tree.lookup(key) == Some(None::<RowLocation>) by {
                assert(decoded_version_node(c[root.0]) == Some(stored_version_node(empty@)));
            }
            assert(vwf_tree(tree.content(), tree.root_page(), 0));
        }
        Ok(tree)
    }

    /// Returns the page number of the root node.
    pub fn root_page_id(&self) -> (r: PageId)
        ensures
            r == self.root_page(),
    {
        self.root
    }

    /// Writes `node` into page `page_id`, stamped with `lsn`.
    fn store_node(&mut self, page_id: PageId, node: &VersionNode, lsn: Lsn) -> (r: Result<(), BTreeError>)
        requires
            old(self).inv(),
        ensures
            final(self).inv(),
            final(self).root_page() == old(self).root_page(),
            r is Ok ==> {
                &&& final(self).page_total() == old(self).page_total()
                &&& version_node_valid(node@)
                &&& old(self).content().contains_key(page_id.0)
                &&& final(self).content() == old(self).content().insert(page_id.0, final(self).content()[page_id.0])
                &&& decoded_version_node(final(self).content()[page_id.0]) == Some(stored_version_node(node@))
            },
            version_node_valid(node@) && old(self).cached(page_id.0) ==> r is Ok,
            r is Ok ==> hdr_lsn(final(self).content()[page_id.0]) == lsn.0
                && vwritten_since(old(self).content(), final(self).content(), lsn),
    {
        let mut page = match self.pool.read(page_id) {
            Ok(p) => p,
            Err(e) => return Err(BTreeError::Buffer(e)),
        };
        let ghost read_image = page@;
        page.set_page_lsn(lsn);
        let ghost before = page@;
        encode_version_node(&mut page, node)?;
        proof {
            lemma_lsn_after_kind(read_image, lsn.0, version_node_kind_tag(node@), page@);
            lemma_sealed_keeps_lsn(page@);
            lemma_le_roundtrip();
            let t = version_node_kind_tag(node@);
            lemma_splice_subrange(before, 4, le16(t), 4, 6);
            assert(page@.subrange(4, 6) == page@.subrange(0, PAGE_HEADER_SIZE as int).subrange(4, 6));
            assert(splice(before, 4, le16(t)).subrange(4, 6) == splice(before, 4, le16(t)).subrange(0, PAGE_HEADER_SIZE as int).subrange(4, 6));
            assert(hdr_kind(page@) == t);
            lemma_version_node_codec_stored(page@, node@);
            lemma_decoded_version_node_sealed(page@);
        }
        match self.pool.write(page) {
            Ok(()) => Ok(()),
            Err(e) => Err(BTreeError::Buffer(e)),
        }
    }

    /// Inserts or replaces the location of `key` and stamps the changed
    /// pages with `lsn`. When the root splits, a new root is allocated above
    /// it, the pool is flushed, and the new root page is returned for the
    /// caller to record in the tree's metadata.
    #[verifier::spinoff_prover]
    pub fn insert_at_lsn(&mut self, key: VersionKey, value: RowLocation, lsn: Lsn) -> (r: Result<Option<PageId>, BTreeError>)
        requires
            old(self).inv(),
        ensures
            final(self).inv(),
            old(self).fits_in_place(key) ==> r matches Ok(None),
            r is Ok ==> vwritten_since(old(self).content(), final(self).content(), lsn),
            r matches Ok(new_root) ==> {
                &&& final(self).lookup(key) == Some(Some(value))
                &&& forall|other: VersionKey| #![trigger final(self).lookup(other)]
                    old(self).untouched_by_insert(key, other) ==> final(self).lookup(other) == old(self).lookup(other)
                &&& old(self).well_formed() ==> final(self).well_formed()
                &&& old(self).well_formed() ==> forall|other: VersionKey| #![trigger final(self).lookup(other)]
                    other != key ==> final(self).lookup(other) == old(self).lookup(other)
                &&& final(self).page_total() >= old(self).page_total()
                &&& match new_root {
                    Some(p) => final(self).root_page() == p && p.0 >= old(self).page_total(),
                    None => final(self).root_page() == old(self).root_page(),
                }
            },
    {
        let root = self.root;
        let top: Vec<u64> = Vec::new();
        let ghost c_old = self.content();
        let ghost t_old = self.page_total();
        proof {
            self.lemma_content_dom();
        }
        let res = self.insert_recursive(root, key, value, lsn, &top, MAX_VERSION_DEPTH + 1)?;
        let ghost c1 = self.content();
        proof {
            if old(self).well_formed() {
                let h = choose|h: nat| #[trigger] vwf_tree(old(self).content(), root, h);
                assert(vwf_tree(old(self).content(), root, h));
                assert forall|other: VersionKey| other != key implies #[trigger] old(self).untouched_by_insert(key, other) by {
                    lemma_vwf_search(old(self).content(), root, h, key, other, (MAX_VERSION_DEPTH + 1) as nat);
                    lemma_vwf_search(old(self).content(), root, h, other, key, (MAX_VERSION_DEPTH + 1) as nat);
                    assert(top@ =~= Seq::<u64>::empty());
                }
            }
        }
        match res {
            None => {
                proof {
                    if old(self).well_formed() {
                        let h = choose|h: nat| #[trigger] vwf_tree(old(self).content(), root, h);
                        assert(vwf_tree(old(self).content(), root, h));
                        assert(vwf_tree(self.content(), self.root_page(), h));
                    }
                    self.lemma_content_dom();
                    lemma_lookup_within_descent(c1, root, key, (MAX_VERSION_DEPTH + 1) as nat, self.page_total());
                    assert forall|other: VersionKey| #![trigger self.lookup(other)]
                        old(self).untouched_by_insert(key, other) implies self.lookup(other) == old(self).lookup(other) by {
                        let f = (MAX_VERSION_DEPTH + 1) as nat;
                        assert(top@ =~= Seq::<u64>::empty());
                        assert(vclear_of_insert(c_old, root, key, other, f, top@));
                        assert(version_lookup(c1, vsplit_target(None, root, other), other, f) == version_lookup(c_old, root, other, f));
                        lemma_lookup_within_descent(c_old, root, other, f, t_old);
                        lemma_lookup_within_descent(c1, root, other, f, self.page_total());
                    }
                }
                Ok(None)
            },
            Some(split) => {
                let ghost t = vsplit_target(Some(split), root, key);
                proof {
                    self.lemma_content_dom();
                }
                let new_root = match self.pool.allocate_page(PageKind::BTreeInternal) {
                    Ok(id) => id,
                    Err(e) => return Err(BTreeError::Buffer(e)),
                };
                let ghost c2 = self.content();
                proof {
                    self.lemma_content_dom();
                }
                let mut keys: Vec<VersionKey> = Vec::new();
                keys.push(split.separator);
                let mut children: Vec<PageId> = Vec::new();
                children.push(root);
                children.push(split.right);
                let node = VersionNode::Internal(VersionInternalNode { keys, children });
                self.store_node(new_root, &node, lsn)?;
                let ghost c3 = self.content();
                proof {
                    assert(vwritten_since(old(self).content(), c3, lsn)) by {
                        assert forall|id: u64| #[trigger] c3.contains_key(id) && !(old(self).content().contains_key(id) && c3[id] == old(self).content()[id]) implies {
                            &&& hdr_lsn(c3[id]) == lsn.0
                            &&& decoded_version_node(c3[id]) is Some
                            &&& version_node_valid(decoded_version_node(c3[id])->0)
                        } by {
                            if id != new_root.0 {
                                assert(c3[id] == c1[id]);
                                assert(c1.contains_key(id));
                            }
                        }
                    }
                }
                proof {
                    let f = (MAX_VERSION_DEPTH + 1) as nat;
                    lemma_version_lookup_path_exists(c1, t, key, f);
                    assert(!version_lookup_path(c1, t, key, f).contains(new_root.0));
                    lemma_version_lookup_frame(c1, t, key, f, new_root.0, c2[new_root.0]);
                    assert(c2 == c1.insert(new_root.0, c2[new_root.0]));
                    lemma_version_lookup_frame(c2, t, key, f, new_root.0, c3[new_root.0]);
                    if version_key_lt(key, split.separator) {
                        assert(vroutes_to(keys@, key, 0));
                        lemma_vroute(keys@, key, 0);
                    } else {
                        assert(vroutes_to(keys@, key, 1));
                        lemma_vroute(keys@, key, 1);
                    }
                    assert(version_lookup(c3, new_root, key, (MAX_VERSION_DEPTH + 2) as nat) == Some(Some(value)));
                    let sub = version_lookup_path(c3, t, key, f);
                    assert(version_lookup_path(c3, new_root, key, (MAX_VERSION_DEPTH + 2) as nat) == seq![new_root.0] + sub);
                    lemma_cons_no_dup(new_root.0, sub);
                    self.lemma_content_dom();
                    lemma_lookup_within_descent(c3, new_root, key, (MAX_VERSION_DEPTH + 2) as nat, self.page_total());
                    assert forall|other: VersionKey| old(self).untouched_by_insert(key, other)
                        implies #[trigger] version_lookup(c3, new_root, other, descent_fuel(self.page_total())) == old(self).lookup(other) by {
                        assert(top@ =~= Seq::<u64>::empty());
                        assert(vclear_of_insert(c_old, root, key, other, f, top@));
                        let to = vsplit_target(Some(split), root, other);
                        assert(version_lookup(c1, to, other, f) == version_lookup(c_old, root, other, f));
                        lemma_lookup_within_descent(c_old, root, other, f, t_old);
                        lemma_version_lookup_path_exists(c1, to, other, f);
                        if version_lookup_path(c1, to, other, f).contains(new_root.0) {
                            let q = choose|q: int| 0 <= q < version_lookup_path(c1, to, other, f).len() && version_lookup_path(c1, to, other, f)[q] == new_root.0;
                            assert(c1.contains_key(version_lookup_path(c1, to, other, f)[q]));
                        }
                        lemma_version_lookup_frame(c1, to, other, f, new_root.0, c2[new_root.0]);
                        lemma_version_lookup_frame(c2, to, other, f, new_root.0, c3[new_root.0]);
                        if version_key_lt(other, split.separator) {
                            assert(vroutes_to(keys@, other, 0));
                            lemma_vroute(keys@, other, 0);
                        } else {
                            assert(vroutes_to(keys@, other, 1));
                            lemma_vroute(keys@, other, 1);
                        }
                        let sub2 = version_lookup_path(c3, to, other, f);
                        assert(version_lookup_path(c3, new_root, other, (MAX_VERSION_DEPTH + 2) as nat) == seq![new_root.0] + sub2);
                        lemma_cons_no_dup(new_root.0, sub2);
                        lemma_lookup_within_descent(c3, new_root, other, (MAX_VERSION_DEPTH + 2) as nat, self.page_total());
                    }
                }
                proof {
                    if old(self).well_formed() {
                        let h = choose|h: nat| #[trigger] vwf_tree(old(self).content(), root, h);
                        assert(vwf_tree(old(self).content(), root, h));
                        let kids = children@;
                        assert(kids[0] == root && kids[1] == split.right);
                        assert forall|i: int| 0 <= i < kids.len() implies #[trigger] vwf_tree(c1, kids[i], h) by {
                            assert(i == 0 || i == 1);
                        }
                        assert forall|i: int, j: int, x: u64| 0 <= i < kids.len() && 0 <= j < kids.len() && i != j
                            && #[trigger] vreaches(c1, kids[i], h, x) implies !#[trigger] vreaches(c1, kids[j], h, x) by {
                            if i == 1 && vreaches(c1, kids[j], h, x) {
                                assert(vreaches(c1, root, h, x));
                            }
                        }
                        assert forall|i: int, x: u64| 0 <= i < kids.len() && #[trigger] vreaches(c1, kids[i], h, x)
                            implies c3.contains_key(x) && c3[x] == c1[x] && x != new_root.0 by {
                            assert(vwf_tree(c1, kids[i], h));
                            lemma_vwf_reached_exist(c1, kids[i], h, x);
                        }
                        lemma_vwf_assemble(c1, c3, new_root, (h + 1) as nat, keys@, kids);
                    }
                }
                self.root = new_root;
                match self.pool.flush_all() {
                    Ok(()) => {},
                    Err(e) => return Err(BTreeError::Buffer(e)),
                }
                proof {
                    if old(self).well_formed() {
                        let h = choose|h: nat| #[trigger] vwf_tree(old(self).content(), root, h);
                        assert(vwf_tree(self.content(), self.root_page(), (h + 1) as nat));
                    }
                }
                Ok(Some(new_root))
            },
        }
    }

    /// Flushes the tree's dirty pages to the page store and synchronizes it.
    pub fn flush(&mut self) -> (r: Result<(), BTreeError>)
        requires
            old(self).inv(),
        ensures
            final(self).inv(),
            final(self).root_page() == old(self).root_page(),
            r is Ok ==> final(self).content() == old(self).content() && final(self).page_total() == old(self).page_total()
                && final(self).durable(),
    {
        match self.pool.flush_all() {
            Ok(()) => Ok(()),
            Err(e) => Err(BTreeError::Buffer(e)),
        }
    }

    /// Inserts `key -> value` into the subtree at `page_id`, splitting the
    /// nodes that overflow. `ancestors` are the pages above it on the way
    /// down; meeting one of them again means the page file is corrupt.
    #[verifier::spinoff_prover]
    fn insert_recursive(
        &mut self,
        page_id: PageId,
        key: VersionKey,
        value: RowLocation,
        lsn: Lsn,
        ancestors: &Vec<u64>,
        fuel: u64,
    ) -> (r: Result<Option<VersionSplit>, BTreeError>)
        requires
            old(self).inv(),
            forall|k: int| 0 <= k < ancestors@.len() ==> (#[trigger] ancestors@[k]) < old(self).page_total(),
        ensures
            ({
                let p = version_lookup_path(old(self).content(), page_id, key, fuel as nat);
                vleaf_has_room(old(self).content(), page_id, key, fuel as nat) && p.no_duplicates()
                    && (forall|k: int| 0 <= k < p.len() ==> old(self).cached(#[trigger] p[k]))
                    && (forall|k: int| 0 <= k < ancestors@.len() ==> !p.contains(#[trigger] ancestors@[k]))
                    ==> r matches Ok(None)
            }),
            r matches Ok(res) ==> (decoded_version_node(old(self).content()[page_id.0]) matches Some(VersionNodeView::Leaf { keys, values, next })
                ==> vleaf_put_done(old(self).page_total(), final(self).content(), final(self).page_total(), page_id, keys, values, next, key, value, res)),
            r is Ok ==> vwritten_since(old(self).content(), final(self).content(), lsn),
            final(self).inv(),
            final(self).root_page() == old(self).root_page(),
            r matches Ok(res) ==> {
                &&& final(self).page_total() >= old(self).page_total()
                &&& page_id.0 < old(self).page_total()
                &&& version_lookup(final(self).content(), vsplit_target(res, page_id, key), key, fuel as nat) == Some(Some(value))
                &&& forall|k: int| 0 <= k < ancestors@.len() ==> !version_lookup_path(final(self).content(), vsplit_target(res, page_id, key), key, fuel as nat).contains(#[trigger] ancestors@[k])
                &&& version_lookup_path(final(self).content(), vsplit_target(res, page_id, key), key, fuel as nat).no_duplicates()
                &&& forall|k: int| 0 <= k < ancestors@.len() ==> final(self).content()[#[trigger] ancestors@[k]] == old(self).content()[ancestors@[k]]
                &&& res matches Some(sp) ==> old(self).page_total() <= sp.right.0 < final(self).page_total()
                &&& forall|id: u64| #![trigger final(self).content()[id]] id < old(self).page_total()
                    && !version_lookup_path(old(self).content(), page_id, key, fuel as nat).contains(id) ==> final(self).content()[id] == old(self).content()[id]
                &&& forall|other: VersionKey| #![trigger vsplit_target(res, page_id, other)]
                    vclear_of_insert(old(self).content(), page_id, key, other, fuel as nat, ancestors@) ==> {
                        &&& version_lookup(final(self).content(), vsplit_target(res, page_id, other), other, fuel as nat)
                            == version_lookup(old(self).content(), page_id, other, fuel as nat)
                        &&& forall|k: int| 0 <= k < ancestors@.len() ==> !version_lookup_path(final(self).content(), vsplit_target(res, page_id, other), other, fuel as nat).contains(#[trigger] ancestors@[k])
                        &&& version_lookup_path(final(self).content(), vsplit_target(res, page_id, other), other, fuel as nat).no_duplicates()
                    }
                &&& forall|h: nat| #[trigger] vwf_tree(old(self).content(), page_id, h) ==> h < fuel
                    && vgrown_from(old(self).content(), old(self).page_total(), final(self).content(), final(self).page_total(), page_id, h, res)
            },
        decreases fuel,
    {
        if fuel == 0 {
            return Err(BTreeError::Corrupt("version B+Tree depth exceeds hardened limit".to_owned()));
        }
        let ghost path = version_lookup_path(old(self).content(), page_id, key, fuel as nat);
        let ghost room = vleaf_has_room(old(self).content(), page_id, key, fuel as nat) && path.no_duplicates()
            && (forall|k: int| 0 <= k < path.len() ==> old(self).cached(#[trigger] path[k]))
            && (forall|k: int| 0 <= k < ancestors@.len() ==> !path.contains(#[trigger] ancestors@[k]));
        proof {
            assert(path[0] == page_id.0);
        }
        if holds(ancestors, page_id.0) {
            proof {
                if room {
                    let k = choose|k: int| 0 <= k < ancestors@.len() && ancestors@[k] == page_id.0;
                    assert(path.contains(ancestors@[k]));
                }
            }
            return Err(BTreeError::Corrupt("version B+Tree page refers back to an ancestor".to_owned()));
        }
        proof {
            if room {
                assert(self.pool.cached(path[0]));
            }
        }
        let page = match self.pool.read(page_id) {
            Ok(p) => p,
            Err(e) => return Err(BTreeError::Buffer(e)),
        };
        proof {
            lemma_decoded_version_node_sealed(page@);
            self.lemma_content_dom();
        }
        let node = decode_version_node(&page)?;
        match node {
            VersionNode::Leaf(leaf) => {
                let ghost c0 = self.content();
                proof {
                    if room {
                        assert(self.cached(page_id.0));
                        assert(leaf.keys@.contains(key) || leaf.keys@.len() < MAX_VERSION_LEAF_ENTRIES);
                    }
                }
                let r = self.insert_into_leaf(page_id, leaf, key, value, lsn, ancestors, fuel);
                proof {
                    if r is Ok {
                        assert forall|k: int| 0 <= k < ancestors@.len() implies self.content()[#[trigger] ancestors@[k]] == old(self).content()[ancestors@[k]] by {
                            assert(self.content()[ancestors@[k]] == c0[ancestors@[k]]);
                        }
                        assert(version_lookup_path(c0, page_id, key, fuel as nat) == seq![page_id.0]);
                        assert forall|id: u64| #![trigger self.content()[id]] id < old(self).page_total()
                            && !version_lookup_path(old(self).content(), page_id, key, fuel as nat).contains(id) implies self.content()[id] == old(self).content()[id] by {
                            if id == page_id.0 {
                                assert(seq![page_id.0][0] == id);
                            }
                        }
                        let res = r->Ok_0;
                        assert forall|other: VersionKey| #![trigger vsplit_target(res, page_id, other)]
                            vclear_of_insert(old(self).content(), page_id, key, other, fuel as nat, ancestors@) implies {
                                &&& version_lookup(self.content(), vsplit_target(res, page_id, other), other, fuel as nat)
                                    == version_lookup(old(self).content(), page_id, other, fuel as nat)
                                &&& forall|k: int| 0 <= k < ancestors@.len() ==> !version_lookup_path(self.content(), vsplit_target(res, page_id, other), other, fuel as nat).contains(#[trigger] ancestors@[k])
                                &&& version_lookup_path(self.content(), vsplit_target(res, page_id, other), other, fuel as nat).no_duplicates()
                            } by {
                            assert(other != key);
                        }
                    }
                }
                r
            },
            VersionNode::Internal(internal) => {
                let child_idx = vchild_index(&internal.keys, key);
                let child = internal.children[child_idx];
                let below = extended(ancestors, page_id.0);
                let ghost c0 = self.content();
                let ghost t0 = self.page_total();
                let ghost keys0 = internal.keys@;
                let ghost children0 = internal.children@;
                proof {
                    if room {
                        lemma_vroute(internal.keys@, key, child_idx as int);
                        lemma_vpath_tail(c0, page_id, key, fuel as nat, internal.keys@, internal.children@);
                        let sub = version_lookup_path(c0, child, key, (fuel - 1) as nat);
                        assert(vleaf_has_room(c0, child, key, (fuel - 1) as nat));
                        assert forall|k: int| 0 <= k < sub.len() implies self.cached(#[trigger] sub[k]) by {
                            assert(path[k + 1] == sub[k]);
                            assert(old(self).cached(path[k + 1]));
                        }
                        assert forall|k: int| 0 <= k < below@.len() implies !sub.contains(#[trigger] below@[k]) by {
                            if k < ancestors@.len() {
                                assert(below@[k] == ancestors@[k]);
                                assert(!path.contains(ancestors@[k]));
                            } else {
                                assert(below@[k] == page_id.0);
                            }
                        }
                    }
                }
                let res = self.insert_recursive(child, key, value, lsn, &below, fuel - 1)?;
                let ghost c1 = self.content();
                let ghost t1 = self.page_total();
                proof {
                    self.lemma_content_dom();
                    lemma_vroute(internal.keys@, key, child_idx as int);
                    assert(below@[ancestors@.len() as int] == page_id.0);
                    assert forall|k: int| 0 <= k < ancestors@.len() implies #[trigger] below@[k] == ancestors@[k] by {}
                    assert(below@ == ancestors@.push(page_id.0));
                    assert forall|other: VersionKey| #![trigger vclear_of_insert(c0, page_id, key, other, fuel as nat, ancestors@)]
                        vclear_of_insert(c0, page_id, key, other, fuel as nat, ancestors@) implies {
                            let r2 = vroute(internal.keys@, other);
                            let t2 = if r2 == child_idx { vsplit_target(res, internal.children@[child_idx as int], other) } else { internal.children@[r2] };
                            &&& vroutes_to(internal.keys@, other, r2)
                            &&& version_lookup(c1, t2, other, (fuel - 1) as nat) == version_lookup(c0, page_id, other, fuel as nat)
                            &&& forall|k: int| 0 <= k < below@.len() ==> !version_lookup_path(c1, t2, other, (fuel - 1) as nat).contains(#[trigger] below@[k])
                            &&& version_lookup_path(c1, t2, other, (fuel - 1) as nat).no_duplicates()
                        } by {
                        lemma_vafter_child_insert(c0, c1, page_id, internal.keys@, internal.children@, child_idx as int, key, other, fuel as nat,
                            ancestors@, below@, vsplit_target(res, child, other), t0);
                    }
                }
                match res {
                    None => {
                        proof {
                            assert(c1[page_id.0] == c0[page_id.0]);
                            let sub = version_lookup_path(c1, child, key, (fuel - 1) as nat);
                            assert(version_lookup_path(c1, page_id, key, fuel as nat) == seq![page_id.0] + sub);
                            assert(!sub.contains(below@[ancestors@.len() as int]));
                            lemma_cons_no_dup(page_id.0, sub);
                            assert forall|k: int| 0 <= k < ancestors@.len() implies !version_lookup_path(c1, page_id, key, fuel as nat).contains(#[trigger] ancestors@[k]) by {
                                assert(!sub.contains(below@[k]));
                                if version_lookup_path(c1, page_id, key, fuel as nat).contains(ancestors@[k]) {
                                    let q = choose|q: int| 0 <= q < version_lookup_path(c1, page_id, key, fuel as nat).len() && version_lookup_path(c1, page_id, key, fuel as nat)[q] == ancestors@[k];
                                    if q > 0 {
                                        assert(sub[q - 1] == ancestors@[k]);
                                    }
                                }
                            }
                            assert forall|k: int| 0 <= k < ancestors@.len() implies c1[#[trigger] ancestors@[k]] == old(self).content()[ancestors@[k]] by {
                                assert(c1[below@[k]] == c0[below@[k]]);
                            }
                            let sub0 = version_lookup_path(c0, child, key, (fuel - 1) as nat);
                            assert(version_lookup_path(c0, page_id, key, fuel as nat) == seq![page_id.0] + sub0);
                            assert forall|id: u64| #![trigger c1[id]] id < old(self).page_total()
                                && !version_lookup_path(old(self).content(), page_id, key, fuel as nat).contains(id) implies c1[id] == old(self).content()[id] by {
                                if sub0.contains(id) {
                                    let q = choose|q: int| 0 <= q < sub0.len() && sub0[q] == id;
                                    assert(version_lookup_path(c0, page_id, key, fuel as nat)[q + 1] == id);
                                }
                            }
                            assert forall|other: VersionKey| #![trigger vsplit_target(None, page_id, other)]
                                vclear_of_insert(old(self).content(), page_id, key, other, fuel as nat, ancestors@) implies {
                                    &&& version_lookup(c1, vsplit_target(None, page_id, other), other, fuel as nat)
                                        == version_lookup(old(self).content(), page_id, other, fuel as nat)
                                    &&& forall|k: int| 0 <= k < ancestors@.len() ==> !version_lookup_path(c1, vsplit_target(None, page_id, other), other, fuel as nat).contains(#[trigger] ancestors@[k])
                                    &&& version_lookup_path(c1, vsplit_target(None, page_id, other), other, fuel as nat).no_duplicates()
                                } by {
                                assert(vclear_of_insert(c0, page_id, key, other, fuel as nat, ancestors@));
                                let r2 = vroute(internal.keys@, other);
                                let t2 = internal.children@[r2];
                                lemma_vlookup_through(c1, page_id, internal.keys@, internal.children@, other, fuel as nat, r2, t2);
                                let sub2 = version_lookup_path(c1, t2, other, (fuel - 1) as nat);
                                assert(!sub2.contains(below@[ancestors@.len() as int]));
                                lemma_cons_no_dup(page_id.0, sub2);
                                assert forall|k: int| 0 <= k < ancestors@.len() implies !version_lookup_path(c1, page_id, other, fuel as nat).contains(#[trigger] ancestors@[k]) by {
                                    assert(!sub2.contains(below@[k]));
                                    if version_lookup_path(c1, page_id, other, fuel as nat).contains(ancestors@[k]) {
                                        let q = choose|q: int| 0 <= q < version_lookup_path(c1, page_id, other, fuel as nat).len() && version_lookup_path(c1, page_id, other, fuel as nat)[q] == ancestors@[k];
                                        if q > 0 {
                                            assert(sub2[q - 1] == ancestors@[k]);
                                        }
                                    }
                                }
                            }
                            lemma_vgrown_after_child(c0, t0, c1, self.page_total(), c1, self.page_total(), page_id, keys0, children0,
                                child_idx as int, key, fuel as nat, None, None);
                        }
                        Ok(None)
                    },
                    Some(split) => {
                        let r = self.absorb_split(page_id, internal, child_idx, split, key, value, lsn, ancestors, fuel, Ghost(below@), Ghost(c0));
                        proof {
                            if r is Ok {
                                lemma_vwritten_trans(c0, c1, self.content(), lsn);
                                assert forall|k: int| 0 <= k < ancestors@.len() implies self.content()[#[trigger] ancestors@[k]] == old(self).content()[ancestors@[k]] by {
                                    assert(self.content()[ancestors@[k]] == c1[ancestors@[k]]);
                                    assert(c1[below@[k]] == c0[below@[k]]);
                                }
                                let sub0 = version_lookup_path(c0, child, key, (fuel - 1) as nat);
                                assert(version_lookup_path(c0, page_id, key, fuel as nat) == seq![page_id.0] + sub0);
                                assert forall|id: u64| #![trigger self.content()[id]] id < old(self).page_total()
                                    && !version_lookup_path(old(self).content(), page_id, key, fuel as nat).contains(id) implies self.content()[id] == old(self).content()[id] by {
                                    if sub0.contains(id) {
                                        let q = choose|q: int| 0 <= q < sub0.len() && sub0[q] == id;
                                        assert(version_lookup_path(c0, page_id, key, fuel as nat)[q + 1] == id);
                                    }
                                    if id == page_id.0 {
                                        assert(version_lookup_path(c0, page_id, key, fuel as nat)[0] == id);
                                    }
                                    assert(self.content()[id] == c1[id]);
                                }
                                assert forall|other: VersionKey| #![trigger vsplit_target(r->Ok_0, page_id, other)]
                                    vclear_of_insert(old(self).content(), page_id, key, other, fuel as nat, ancestors@) implies {
                                        &&& version_lookup(self.content(), vsplit_target(r->Ok_0, page_id, other), other, fuel as nat)
                                            == version_lookup(old(self).content(), page_id, other, fuel as nat)
                                        &&& forall|k: int| 0 <= k < ancestors@.len() ==> !version_lookup_path(self.content(), vsplit_target(r->Ok_0, page_id, other), other, fuel as nat).contains(#[trigger] ancestors@[k])
                                        &&& version_lookup_path(self.content(), vsplit_target(r->Ok_0, page_id, other), other, fuel as nat).no_duplicates()
                                    } by {
                                    assert(vclear_of_insert(c0, page_id, key, other, fuel as nat, ancestors@));
                                }
                                self.lemma_content_dom();
                                lemma_vgrown_after_child(c0, t0, c1, t1, self.content(), self.page_total(), page_id, keys0, children0,
                                    child_idx as int, key, fuel as nat, Some(split), r->Ok_0);
                            }
                        }
                        r
                    },
                }
            },
        }
    }

    /// Inserts `key -> value` into the leaf stored at `page_id`, splitting it
    /// in two when it overflows.
    #[verifier::spinoff_prover]
    #[verifier::rlimit(50)]
    fn insert_into_leaf(
        &mut self,
        page_id: PageId,
        leaf: VersionLeafNode,
        key: VersionKey,
        value: RowLocation,
        lsn: Lsn,
        ancestors: &Vec<u64>,
        fuel: u64,
    ) -> (r: Result<Option<VersionSplit>, BTreeError>)
        requires
            old(self).inv(),
            fuel >= 1,
            old(self).content().contains_key(page_id.0),
            decoded_version_node(old(self).content()[page_id.0]) == Some(VersionNodeView::Leaf { keys: leaf.keys@, values: leaf.values@, next: leaf.next }),
            !ancestors@.contains(page_id.0),
            forall|k: int| 0 <= k < ancestors@.len() ==> (#[trigger] ancestors@[k]) < old(self).page_total(),
        ensures
            old(self).cached(page_id.0) && (leaf.keys@.contains(key) || leaf.keys@.len() < MAX_VERSION_LEAF_ENTRIES) ==> r matches Ok(None),
            r matches Ok(res) ==> vleaf_put_done(old(self).page_total(), final(self).content(), final(self).page_total(), page_id,
                leaf.keys@, leaf.values@, leaf.next, key, value, res),
            r is Ok ==> vwritten_since(old(self).content(), final(self).content(), lsn),
            final(self).inv(),
            final(self).root_page() == old(self).root_page(),
            r matches Ok(res) ==> {
                &&& final(self).page_total() >= old(self).page_total()
                &&& version_lookup(final(self).content(), vsplit_target(res, page_id, key), key, fuel as nat) == Some(Some(value))
                &&& forall|k: int| 0 <= k < ancestors@.len() ==> !version_lookup_path(final(self).content(), vsplit_target(res, page_id, key), key, fuel as nat).contains(#[trigger] ancestors@[k])
                &&& version_lookup_path(final(self).content(), vsplit_target(res, page_id, key), key, fuel as nat).no_duplicates()
                &&& forall|k: int| 0 <= k < ancestors@.len() ==> final(self).content()[#[trigger] ancestors@[k]] == old(self).content()[ancestors@[k]]
                &&& res matches Some(sp) ==> old(self).page_total() <= sp.right.0 < final(self).page_total()
                &&& forall|id: u64| #![trigger final(self).content()[id]] id < old(self).page_total() && id != page_id.0
                    ==> final(self).content()[id] == old(self).content()[id]
                &&& forall|other: VersionKey| #![trigger vsplit_target(res, page_id, other)] other != key ==> {
                    &&& version_lookup(final(self).content(), vsplit_target(res, page_id, other), other, fuel as nat)
                        == version_lookup(old(self).content(), page_id, other, fuel as nat)
                    &&& forall|k: int| 0 <= k < ancestors@.len() ==> !version_lookup_path(final(self).content(), vsplit_target(res, page_id, other), other, fuel as nat).contains(#[trigger] ancestors@[k])
                    &&& version_lookup_path(final(self).content(), vsplit_target(res, page_id, other), other, fuel as nat).no_duplicates()
                }
                &&& forall|h: nat| #[trigger] vwf_tree(old(self).content(), page_id, h) ==> h < fuel
                    && vgrown_from(old(self).content(), old(self).page_total(), final(self).content(), final(self).page_total(), page_id, h, res)
            },
    {
        let ghost c0 = self.content();
        let ghost t0 = self.page_total();
        proof {
            self.lemma_content_dom();
        }
        let mut leaf = leaf;
        let ghost keys0 = leaf.keys@;
        let ghost values0 = leaf.values@;
        let ghost mut ins: int = 0;
        match vsearch(&leaf.keys, key) {
            Ok(i) => {
                leaf.values.set(i, value);
                let ghost keys1 = leaf.keys@;
                let ghost values1 = leaf.values@;
                let node = VersionNode::Leaf(leaf);
                self.store_node(page_id, &node, lsn)?;
                proof {
                    lemma_vkey_index(keys0, key, i as int);
                    assert(keys1 == vleaf_put_keys(keys0, key));
                    assert(values1 == vleaf_put_values(keys0, values0, key, value));
                    lemma_vleaf_value_at(keys1, values1, key, i as int);
                    assert(version_lookup_path(self.content(), page_id, key, fuel as nat) == seq![page_id.0]);
                    assert(seq![page_id.0].no_duplicates());
                    assert forall|k: int| 0 <= k < ancestors@.len() implies self.content()[#[trigger] ancestors@[k]] == c0[ancestors@[k]] by {
                        assert(ancestors@[k] != page_id.0);
                    }
                    assert forall|other: VersionKey| #![trigger vsplit_target(None, page_id, other)] other != key implies {
                        &&& version_lookup(self.content(), vsplit_target(None, page_id, other), other, fuel as nat)
                            == version_lookup(c0, page_id, other, fuel as nat)
                        &&& forall|k: int| 0 <= k < ancestors@.len() ==> !version_lookup_path(self.content(), vsplit_target(None, page_id, other), other, fuel as nat).contains(#[trigger] ancestors@[k])
                        &&& version_lookup_path(self.content(), vsplit_target(None, page_id, other), other, fuel as nat).no_duplicates()
                    } by {
                        lemma_vleaf_value_update(keys0, values0, i as int, value, other);
                        assert(values1 == values0.update(i as int, value));
                        assert(version_lookup_path(self.content(), page_id, other, fuel as nat) == seq![page_id.0]);
                    }
                    assert forall|h: nat| #[trigger] vwf_tree(c0, page_id, h) implies h < fuel
                        && vgrown_from(c0, t0, self.content(), self.page_total(), page_id, h, None) by {
                        assert(vwf_tree(self.content(), page_id, h));
                    }
                }
                return Ok(None);
            },
            Err(i) => {
                proof {
                    assert(vslot_fits(keys0, key, i as int));
                    lemma_vleaf_slot(keys0, key, i as int);
                }
                leaf.keys.insert(i, key);
                leaf.values.insert(i, value);
                proof {
                    assert(leaf.keys@[i as int] == key);
                    assert(leaf.values@[i as int] == value);
                    ins = i as int;
                    assert(leaf.keys@ == vleaf_put_keys(keys0, key));
                    assert(leaf.values@ == vleaf_put_values(keys0, values0, key, value));
                }
            },
        }
        let ghost keys1 = leaf.keys@;
        let ghost values1 = leaf.values@;
        proof {
            assert(version_keys_sorted(keys1)) by {
                assert forall|a: int, b: int| 0 <= a < b < keys1.len() implies version_key_lt(#[trigger] keys1[a], #[trigger] keys1[b]) by {
                    if b < ins {
                        assert(keys1[a] == keys0[a] && keys1[b] == keys0[b]);
                    } else if b == ins {
                        assert(keys1[a] == keys0[a]);
                    } else if a < ins {
                        assert(keys1[a] == keys0[a] && keys1[b] == keys0[b - 1]);
                    } else if a == ins {
                        assert(keys1[b] == keys0[b - 1]);
                    } else {
                        assert(keys1[a] == keys0[a - 1] && keys1[b] == keys0[b - 1]);
                    }
                }
            }
        }
        if leaf.keys.len() <= MAX_VERSION_LEAF_ENTRIES {
            let ghost i = choose|i: int| 0 <= i < keys1.len() && keys1[i] == key && values1[i] == value;
            let node = VersionNode::Leaf(leaf);
            self.store_node(page_id, &node, lsn)?;
            proof {
                lemma_vleaf_value_at(keys1, values1, key, i);
                assert(version_lookup_path(self.content(), page_id, key, fuel as nat) == seq![page_id.0]);
                assert(seq![page_id.0].no_duplicates());
                assert forall|k: int| 0 <= k < ancestors@.len() implies self.content()[#[trigger] ancestors@[k]] == c0[ancestors@[k]] by {
                    assert(ancestors@[k] != page_id.0);
                }
                assert forall|other: VersionKey| #![trigger vsplit_target(None, page_id, other)] other != key implies {
                    &&& version_lookup(self.content(), vsplit_target(None, page_id, other), other, fuel as nat)
                        == version_lookup(c0, page_id, other, fuel as nat)
                    &&& forall|k: int| 0 <= k < ancestors@.len() ==> !version_lookup_path(self.content(), vsplit_target(None, page_id, other), other, fuel as nat).contains(#[trigger] ancestors@[k])
                    &&& version_lookup_path(self.content(), vsplit_target(None, page_id, other), other, fuel as nat).no_duplicates()
                } by {
                    lemma_vleaf_value_insert(keys0, values0, ins, key, value, other);
                    assert(version_lookup_path(self.content(), page_id, other, fuel as nat) == seq![page_id.0]);
                }
                assert forall|h: nat| #[trigger] vwf_tree(c0, page_id, h) implies h < fuel
                    && vgrown_from(c0, t0, self.content(), self.page_total(), page_id, h, None) by {
                    assert(vwf_tree(self.content(), page_id, h));
                }
            }
            return Ok(None);
        }
        let ghost i = choose|i: int|
            0 <= i < keys1.len() && keys1[i] == key && values1[i] == value
                && (forall|j: int| 0 <= j < i ==> version_key_lt(#[trigger] keys1[j], key))
                && (forall|j: int| i < j < keys1.len() ==> version_key_lt(key, #[trigger] keys1[j]));
        let split_at = leaf.keys.len() / 2;
        let right_keys = leaf.keys.split_off(split_at);
        let right_values = leaf.values.split_off(split_at);
        let right_page = match self.pool.allocate_page(PageKind::BTreeLeaf) {
            Ok(id) => id,
            Err(e) => return Err(BTreeError::Buffer(e)),
        };
        let ghost c1 = self.content();
        proof {
            self.lemma_content_dom();
        }
        let old_next = leaf.next;
        leaf.next = Some(right_page);
        let right = VersionLeafNode { keys: right_keys, values: right_values, next: old_next };
        let separator = right.keys[0];
        let ghost left_keys = leaf.keys@;
        let ghost left_values = leaf.values@;
        let left_node = VersionNode::Leaf(leaf);
        self.store_node(page_id, &left_node, lsn)?;
        let ghost c2 = self.content();
        let right_node = VersionNode::Leaf(right);
        self.store_node(right_page, &right_node, lsn)?;
        let ghost c3 = self.content();
        proof {
            assert(right_page.0 != page_id.0);
            assert(c3[page_id.0] == c2[page_id.0]);
            assert(vwritten_since(c0, c3, lsn)) by {
                assert forall|id: u64| #[trigger] c3.contains_key(id) && !(c0.contains_key(id) && c3[id] == c0[id]) implies {
                    &&& hdr_lsn(c3[id]) == lsn.0
                    &&& decoded_version_node(c3[id]) is Some
                    &&& version_node_valid(decoded_version_node(c3[id])->0)
                } by {
                    if id != page_id.0 && id != right_page.0 {
                        assert(c3[id] == c1[id]);
                    }
                }
            }
            assert forall|j: int| 0 <= j < split_at implies version_key_lt(#[trigger] keys1[j], keys1[split_at as int]) by {}
            assert forall|j: int| split_at < j < keys1.len() implies version_key_lt(keys1[split_at as int], #[trigger] keys1[j]) by {}
            let sp = VersionSplit { separator, right: right_page };
            if i < split_at {
                assert(left_keys[i] == key);
                assert(separator == keys1[split_at as int]);
                assert(version_key_lt(key, separator));
                lemma_vleaf_value_at(left_keys, left_values, key, i);
                assert(vsplit_target(Some(sp), page_id, key) == page_id);
                assert(version_lookup_path(c3, page_id, key, fuel as nat) == seq![page_id.0]);
                assert(seq![page_id.0].no_duplicates());
            } else {
                assert(right.keys@[i - split_at] == key);
                assert(!(version_key_lt(key, separator)));
                lemma_vleaf_value_at(right.keys@, right.values@, key, i - split_at);
                assert(vsplit_target(Some(sp), page_id, key) == right_page);
                assert(version_lookup_path(c3, right_page, key, fuel as nat) == seq![right_page.0]);
                assert(seq![right_page.0].no_duplicates());
            }
            assert forall|k: int| 0 <= k < ancestors@.len() implies c3[#[trigger] ancestors@[k]] == c0[ancestors@[k]] by {
                assert(ancestors@[k] != page_id.0);
                assert(ancestors@[k] != right_page.0);
            }
            let s_at = split_at as int;
            assert(left_keys == keys1.subrange(0, s_at) && left_values == values1.subrange(0, s_at));
            assert(right.keys@ == keys1.subrange(s_at, keys1.len() as int) && right.values@ == values1.subrange(s_at, keys1.len() as int));
            assert forall|other: VersionKey| #![trigger vsplit_target(Some(sp), page_id, other)] other != key implies {
                &&& version_lookup(c3, vsplit_target(Some(sp), page_id, other), other, fuel as nat)
                    == version_lookup(c0, page_id, other, fuel as nat)
                &&& forall|k: int| 0 <= k < ancestors@.len() ==> !version_lookup_path(c3, vsplit_target(Some(sp), page_id, other), other, fuel as nat).contains(#[trigger] ancestors@[k])
                &&& version_lookup_path(c3, vsplit_target(Some(sp), page_id, other), other, fuel as nat).no_duplicates()
            } by {
                lemma_vleaf_value_insert(keys0, values0, ins, key, value, other);
                if version_key_lt(other, separator) {
                    assert forall|j: int| 0 <= j < keys1.len() && keys1[j] == other implies 0 <= j < s_at by {
                        if j > s_at {
                            assert(version_key_lt(keys1[s_at], keys1[j]));
                        }
                    }
                    lemma_vleaf_value_range(keys1, values1, 0, s_at, other);
                    assert(version_lookup_path(c3, page_id, other, fuel as nat) == seq![page_id.0]);
                    assert(seq![page_id.0].no_duplicates());
                } else {
                    assert forall|j: int| 0 <= j < keys1.len() && keys1[j] == other implies s_at <= j < keys1.len() by {
                        if j < s_at {
                            assert(version_key_lt(keys1[j], keys1[s_at]));
                        }
                    }
                    lemma_vleaf_value_range(keys1, values1, s_at, keys1.len() as int, other);
                    assert(version_lookup_path(c3, right_page, other, fuel as nat) == seq![right_page.0]);
                    assert(seq![right_page.0].no_duplicates());
                }
            }
            assert forall|h: nat| #[trigger] vwf_tree(c0, page_id, h) implies h < fuel
                && vgrown_from(c0, t0, c3, self.page_total(), page_id, h, Some(sp)) by {
                assert(vwf_tree(c3, page_id, h));
                assert(vwf_tree(c3, right_page, h));
            }
        }
        Ok(Some(VersionSplit { separator, right: right_page }))
    }

    /// Records in the internal node stored at `page_id` that its child
    /// `child_idx` split, splitting this node in turn when it overflows.
    #[verifier::spinoff_prover]
    #[verifier::rlimit(100)]
    fn absorb_split(
        &mut self,
        page_id: PageId,
        internal: VersionInternalNode,
        child_idx: usize,
        split: VersionSplit,
        key: VersionKey,
        value: RowLocation,
        lsn: Lsn,
        ancestors: &Vec<u64>,
        fuel: u64,
        Ghost(below): Ghost<Seq<u64>>,
        Ghost(c0): Ghost<Map<u64, Seq<u8>>>,
    ) -> (r: Result<Option<VersionSplit>, BTreeError>)
        requires
            old(self).inv(),
            fuel >= 1,
            page_id.0 < old(self).page_total(),
            version_keys_sorted(internal.keys@),
            internal.keys@.len() <= MAX_VERSION_INTERNAL_KEYS,
            internal.children@.len() == internal.keys@.len() + 1,
            vroutes_to(internal.keys@, key, child_idx as int),
            below == ancestors@.push(page_id.0),
            !ancestors@.contains(page_id.0),
            forall|k: int| 0 <= k < ancestors@.len() ==> (#[trigger] ancestors@[k]) < old(self).page_total(),
            split.right.0 < old(self).page_total(),
            version_lookup(old(self).content(), vsplit_target(Some(split), internal.children@[child_idx as int], key), key, (fuel - 1) as nat) == Some(Some(value)),
            forall|k: int| 0 <= k < below.len() ==> !version_lookup_path(old(self).content(), vsplit_target(Some(split), internal.children@[child_idx as int], key), key, (fuel - 1) as nat).contains(#[trigger] below[k]),
            version_lookup_path(old(self).content(), vsplit_target(Some(split), internal.children@[child_idx as int], key), key, (fuel - 1) as nat).no_duplicates(),
            forall|other: VersionKey| #![trigger vclear_of_insert(c0, page_id, key, other, fuel as nat, ancestors@)]
                vclear_of_insert(c0, page_id, key, other, fuel as nat, ancestors@) ==> {
                    let r2 = vroute(internal.keys@, other);
                    let t2 = if r2 == child_idx { vsplit_target(Some(split), internal.children@[child_idx as int], other) } else { internal.children@[r2] };
                    &&& vroutes_to(internal.keys@, other, r2)
                    &&& version_lookup(old(self).content(), t2, other, (fuel - 1) as nat) == version_lookup(c0, page_id, other, fuel as nat)
                    &&& forall|k: int| 0 <= k < below.len() ==> !version_lookup_path(old(self).content(), t2, other, (fuel - 1) as nat).contains(#[trigger] below[k])
                    &&& version_lookup_path(old(self).content(), t2, other, (fuel - 1) as nat).no_duplicates()
                },
        ensures
            old(self).cached(page_id.0) && internal.keys@.len() < MAX_VERSION_INTERNAL_KEYS
                && version_keys_sorted(internal.keys@.insert(child_idx as int, split.separator)) ==> r matches Ok(None),
            r is Ok ==> vwritten_since(old(self).content(), final(self).content(), lsn),
            final(self).inv(),
            final(self).root_page() == old(self).root_page(),
            r matches Ok(res) ==> {
                &&& final(self).page_total() >= old(self).page_total()
                &&& version_lookup(final(self).content(), vsplit_target(res, page_id, key), key, fuel as nat) == Some(Some(value))
                &&& forall|k: int| 0 <= k < ancestors@.len() ==> !version_lookup_path(final(self).content(), vsplit_target(res, page_id, key), key, fuel as nat).contains(#[trigger] ancestors@[k])
                &&& version_lookup_path(final(self).content(), vsplit_target(res, page_id, key), key, fuel as nat).no_duplicates()
                &&& forall|k: int| 0 <= k < ancestors@.len() ==> final(self).content()[#[trigger] ancestors@[k]] == old(self).content()[ancestors@[k]]
                &&& res matches Some(sp) ==> old(self).page_total() <= sp.right.0 < final(self).page_total()
                &&& forall|id: u64| #![trigger final(self).content()[id]] id < old(self).page_total() && id != page_id.0
                    ==> final(self).content()[id] == old(self).content()[id]
                &&& forall|other: VersionKey| #![trigger vsplit_target(res, page_id, other)]
                    vclear_of_insert(c0, page_id, key, other, fuel as nat, ancestors@) ==> {
                        &&& version_lookup(final(self).content(), vsplit_target(res, page_id, other), other, fuel as nat)
                            == version_lookup(c0, page_id, other, fuel as nat)
                        &&& forall|k: int| 0 <= k < ancestors@.len() ==> !version_lookup_path(final(self).content(), vsplit_target(res, page_id, other), other, fuel as nat).contains(#[trigger] ancestors@[k])
                        &&& version_lookup_path(final(self).content(), vsplit_target(res, page_id, other), other, fuel as nat).no_duplicates()
                    }
                &&& res is None ==> {
                    &&& final(self).page_total() == old(self).page_total()
                    &&& final(self).content() == old(self).content().insert(page_id.0, final(self).content()[page_id.0])
                    &&& decoded_version_node(final(self).content()[page_id.0]) == Some(VersionNodeView::Internal {
                        keys: internal.keys@.insert(child_idx as int, split.separator),
                        children: internal.children@.insert(child_idx + 1, split.right),
                    })
                }
                &&& res matches Some(sp) ==> {
                    let keys1 = internal.keys@.insert(child_idx as int, split.separator);
                    let children1 = internal.children@.insert(child_idx + 1, split.right);
                    let m = (keys1.len() / 2) as int;
                    &&& sp.right.0 == old(self).page_total()
                    &&& final(self).page_total() == old(self).page_total() + 1
                    &&& decoded_version_node(final(self).content()[page_id.0]) == Some(VersionNodeView::Internal {
                        keys: keys1.subrange(0, m),
                        children: children1.subrange(0, m + 1),
                    })
                    &&& decoded_version_node(final(self).content()[sp.right.0]) == Some(VersionNodeView::Internal {
                        keys: keys1.subrange(m + 1, keys1.len() as int),
                        children: children1.subrange(m + 1, children1.len() as int),
                    })
                }
            },
    {
        let ghost ca = self.content();
        proof {
            self.lemma_content_dom();
        }
        let ghost f1 = (fuel - 1) as nat;
        let ghost t = vsplit_target(Some(split), internal.children@[child_idx as int], key);
        let mut internal = internal;
        let ghost keys0 = internal.keys@;
        let ghost internal_children0 = internal.children@;
        internal.keys.insert(child_idx, split.separator);
        internal.children.insert(child_idx + 1, split.right);
        let ghost keys1 = internal.keys@;
        let ghost children1 = internal.children@;
        let ghost r1: int = if version_key_lt(key, split.separator) { child_idx as int } else { child_idx + 1 };
        proof {
            assert forall|j: int| 0 <= j < r1 implies !version_key_lt(key, #[trigger] keys1[j]) by {
                if j < child_idx {
                    assert(keys1[j] == keys0[j]);
                }
            }
            if r1 < keys1.len() {
                if r1 == child_idx {
                    assert(keys1[r1] == split.separator);
                } else {
                    assert(keys1[r1] == keys0[child_idx as int]);
                }
            }
            assert(vroutes_to(keys1, key, r1));
            assert(children1[r1] == t);
            lemma_version_lookup_path_exists(ca, t, key, f1);
        }
        if internal.keys.len() <= MAX_VERSION_INTERNAL_KEYS {
            let node = VersionNode::Internal(internal);
            self.store_node(page_id, &node, lsn)?;
            let ghost cf = self.content();
            proof {
                lemma_vroute(keys1, key, r1);
                assert(!version_lookup_path(ca, t, key, f1).contains(page_id.0)) by {
                    assert(below[ancestors@.len() as int] == page_id.0);
                }
                lemma_version_lookup_frame(ca, t, key, f1, page_id.0, cf[page_id.0]);
                assert(cf == ca.insert(page_id.0, cf[page_id.0]));
                let sub = version_lookup_path(cf, t, key, f1);
                assert(version_lookup_path(cf, page_id, key, fuel as nat) == seq![page_id.0] + sub);
                lemma_cons_no_dup(page_id.0, sub);
                assert forall|k: int| 0 <= k < ancestors@.len() implies !version_lookup_path(cf, page_id, key, fuel as nat).contains(#[trigger] ancestors@[k]) by {
                    assert(below[k] == ancestors@[k]);
                    assert(!sub.contains(below[k]));
                    if version_lookup_path(cf, page_id, key, fuel as nat).contains(ancestors@[k]) {
                        let q = choose|q: int| 0 <= q < version_lookup_path(cf, page_id, key, fuel as nat).len() && version_lookup_path(cf, page_id, key, fuel as nat)[q] == ancestors@[k];
                        if q > 0 {
                            assert(sub[q - 1] == ancestors@[k]);
                        }
                    }
                }
                assert forall|k: int| 0 <= k < ancestors@.len() implies cf[#[trigger] ancestors@[k]] == ca[ancestors@[k]] by {
                    assert(ancestors@[k] != page_id.0);
                }
                self.lemma_content_dom();
                assert forall|other: VersionKey| #![trigger vsplit_target(None, page_id, other)]
                    vclear_of_insert(c0, page_id, key, other, fuel as nat, ancestors@) implies {
                        &&& version_lookup(cf, vsplit_target(None, page_id, other), other, fuel as nat)
                            == version_lookup(c0, page_id, other, fuel as nat)
                        &&& forall|k: int| 0 <= k < ancestors@.len() ==> !version_lookup_path(cf, vsplit_target(None, page_id, other), other, fuel as nat).contains(#[trigger] ancestors@[k])
                        &&& version_lookup_path(cf, vsplit_target(None, page_id, other), other, fuel as nat).no_duplicates()
                    } by {
                    let r2 = vroute(keys0, other);
                    let t2 = if r2 == child_idx { vsplit_target(Some(split), internal_children0[child_idx as int], other) } else { internal_children0[r2] };
                    assert(vclear_of_insert(c0, page_id, key, other, fuel as nat, ancestors@));
                    lemma_vroute_after_split(keys0, internal_children0, child_idx as int, split.separator, split.right, other);
                    let r3 = if r2 < child_idx { r2 } else if r2 == child_idx { if version_key_lt(other, split.separator) { child_idx as int } else { child_idx + 1 } } else { r2 + 1 };
                    assert forall|k: int| 0 <= k < ancestors@.len() implies !version_lookup_path(ca, t2, other, f1).contains(#[trigger] ancestors@[k]) by {
                        assert(below[k] == ancestors@[k]);
                    }
                    assert(!version_lookup_path(ca, t2, other, f1).contains(page_id.0)) by {
                        assert(below[ancestors@.len() as int] == page_id.0);
                    }
                    lemma_vother_through_rewrite(ca, cf, page_id, keys1, children1, r3, t2, other, fuel as nat, ancestors@, page_id.0, page_id.0);
                }
            }
            return Ok(None);
        }
        sorted(internal.keys.as_slice(), "internal")?;
        let mid = internal.keys.len() / 2;
        let promoted = internal.keys[mid];
        let right_keys = internal.keys.split_off(mid + 1);
        internal.keys.truncate(mid);
        let right_children = internal.children.split_off(mid + 1);
        let right_page = match self.pool.allocate_page(PageKind::BTreeInternal) {
            Ok(id) => id,
            Err(e) => return Err(BTreeError::Buffer(e)),
        };
        let ghost c1 = self.content();
        proof {
            self.lemma_content_dom();
        }
        let right = VersionInternalNode { keys: right_keys, children: right_children };
        let ghost left_keys = internal.keys@;
        let ghost left_children = internal.children@;
        let left_node = VersionNode::Internal(internal);
        self.store_node(page_id, &left_node, lsn)?;
        let ghost c2 = self.content();
        let right_node = VersionNode::Internal(right);
        self.store_node(right_page, &right_node, lsn)?;
        let ghost c3 = self.content();
        proof {
            assert(vwritten_since(ca, c3, lsn)) by {
                assert forall|id: u64| #[trigger] c3.contains_key(id) && !(ca.contains_key(id) && c3[id] == ca[id]) implies {
                    &&& hdr_lsn(c3[id]) == lsn.0
                    &&& decoded_version_node(c3[id]) is Some
                    &&& version_node_valid(decoded_version_node(c3[id])->0)
                } by {
                    if id != page_id.0 && id != right_page.0 {
                        assert(c3[id] == c1[id]);
                    }
                }
            }
        }
        proof {
            let m = mid as int;
            assert(keys1.len() == MAX_VERSION_INTERNAL_KEYS + 1);
            assert(!version_lookup_path(ca, t, key, f1).contains(page_id.0)) by {
                assert(below[ancestors@.len() as int] == page_id.0);
            }
            assert(!version_lookup_path(ca, t, key, f1).contains(right_page.0)) by {
                if version_lookup_path(ca, t, key, f1).contains(right_page.0) {
                    let q = choose|q: int| 0 <= q < version_lookup_path(ca, t, key, f1).len() && version_lookup_path(ca, t, key, f1)[q] == right_page.0;
                    assert(ca.contains_key(version_lookup_path(ca, t, key, f1)[q]));
                }
            }
            lemma_version_lookup_frame(ca, t, key, f1, right_page.0, c1[right_page.0]);
            assert(c1 == ca.insert(right_page.0, c1[right_page.0]));
            lemma_version_lookup_frame(c1, t, key, f1, page_id.0, c2[page_id.0]);
            assert(c2 == c1.insert(page_id.0, c2[page_id.0]));
            lemma_version_lookup_frame(c2, t, key, f1, right_page.0, c3[right_page.0]);
            assert(c3 == c2.insert(right_page.0, c3[right_page.0]));
            assert(right_page.0 != page_id.0);
            assert(c3[page_id.0] == c2[page_id.0]);
            let sp = VersionSplit { separator: promoted, right: right_page };
            let target = vsplit_target(Some(sp), page_id, key);
            if version_key_lt(key, promoted) {
                assert(r1 <= m) by {
                    if r1 > m {
                        assert(!version_key_lt(key, keys1[m]));
                    }
                }
                assert forall|j: int| 0 <= j < r1 implies !version_key_lt(key, #[trigger] left_keys[j]) by {
                    assert(left_keys[j] == keys1[j]);
                }
                if r1 < m {
                    assert(left_keys[r1] == keys1[r1]);
                }
                assert(vroutes_to(left_keys, key, r1));
                lemma_vroute(left_keys, key, r1);
                assert(left_children[r1] == children1[r1]);
                assert(target == page_id);
            } else {
                assert(r1 > m) by {
                    if r1 <= m {
                        if r1 < m {
                            assert(version_key_lt(keys1[r1], keys1[m]));
                        }
                    }
                }
                let rr = r1 - m - 1;
                assert forall|j: int| 0 <= j < rr implies !version_key_lt(key, #[trigger] right.keys@[j]) by {
                    assert(right.keys@[j] == keys1[j + m + 1]);
                }
                if rr < right.keys@.len() {
                    assert(right.keys@[rr] == keys1[r1]);
                }
                assert(vroutes_to(right.keys@, key, rr));
                lemma_vroute(right.keys@, key, rr);
                assert(right.children@[rr] == children1[r1]);
                assert(target == right_page);
            }
            let sub = version_lookup_path(c3, t, key, f1);
            assert(version_lookup_path(c3, target, key, fuel as nat) == seq![target.0] + sub);
            lemma_cons_no_dup(target.0, sub);
            assert forall|k: int| 0 <= k < ancestors@.len() implies !version_lookup_path(c3, target, key, fuel as nat).contains(#[trigger] ancestors@[k]) by {
                assert(below[k] == ancestors@[k]);
                assert(!sub.contains(below[k]));
                assert(ancestors@[k] != page_id.0);
                assert(ancestors@[k] != right_page.0);
                if version_lookup_path(c3, target, key, fuel as nat).contains(ancestors@[k]) {
                    let q = choose|q: int| 0 <= q < version_lookup_path(c3, target, key, fuel as nat).len() && version_lookup_path(c3, target, key, fuel as nat)[q] == ancestors@[k];
                    if q > 0 {
                        assert(sub[q - 1] == ancestors@[k]);
                    }
                }
            }
            assert forall|k: int| 0 <= k < ancestors@.len() implies c3[#[trigger] ancestors@[k]] == ca[ancestors@[k]] by {
                assert(ancestors@[k] != page_id.0);
                assert(ancestors@[k] != right_page.0);
            }
            self.lemma_content_dom();
            assert(left_keys == keys1.subrange(0, m));
            assert(left_children == children1.subrange(0, m + 1));
            assert(right.keys@ == keys1.subrange(m + 1, keys1.len() as int));
            assert(right.children@ == children1.subrange(m + 1, children1.len() as int));
            assert forall|other: VersionKey| #![trigger vsplit_target(Some(sp), page_id, other)]
                vclear_of_insert(c0, page_id, key, other, fuel as nat, ancestors@) implies {
                    &&& version_lookup(c3, vsplit_target(Some(sp), page_id, other), other, fuel as nat)
                        == version_lookup(c0, page_id, other, fuel as nat)
                    &&& forall|k: int| 0 <= k < ancestors@.len() ==> !version_lookup_path(c3, vsplit_target(Some(sp), page_id, other), other, fuel as nat).contains(#[trigger] ancestors@[k])
                    &&& version_lookup_path(c3, vsplit_target(Some(sp), page_id, other), other, fuel as nat).no_duplicates()
                } by {
                let r2 = vroute(keys0, other);
                let t2 = if r2 == child_idx { vsplit_target(Some(split), internal_children0[child_idx as int], other) } else { internal_children0[r2] };
                assert(vclear_of_insert(c0, page_id, key, other, fuel as nat, ancestors@));
                lemma_vroute_after_split(keys0, internal_children0, child_idx as int, split.separator, split.right, other);
                let r3 = if r2 < child_idx { r2 } else if r2 == child_idx { if version_key_lt(other, split.separator) { child_idx as int } else { child_idx + 1 } } else { r2 + 1 };
                lemma_vroute_in_half(keys1, other, r3, m);
                assert forall|k: int| 0 <= k < ancestors@.len() implies !version_lookup_path(ca, t2, other, f1).contains(#[trigger] ancestors@[k]) by {
                    assert(below[k] == ancestors@[k]);
                }
                assert(!version_lookup_path(ca, t2, other, f1).contains(page_id.0)) by {
                    assert(below[ancestors@.len() as int] == page_id.0);
                }
                lemma_version_lookup_path_exists(ca, t2, other, f1);
                assert(!version_lookup_path(ca, t2, other, f1).contains(right_page.0)) by {
                    if version_lookup_path(ca, t2, other, f1).contains(right_page.0) {
                        let q = choose|q: int| 0 <= q < version_lookup_path(ca, t2, other, f1).len() && version_lookup_path(ca, t2, other, f1)[q] == right_page.0;
                        assert(ca.contains_key(version_lookup_path(ca, t2, other, f1)[q]));
                    }
                }
                if version_key_lt(other, promoted) {
                    assert(left_children[r3] == children1[r3]);
                    lemma_vother_through_rewrite(ca, c3, page_id, left_keys, left_children, r3, t2, other, fuel as nat, ancestors@, page_id.0, right_page.0);
                } else {
                    assert(right.children@[r3 - m - 1] == children1[r3]);
                    assert(!ancestors@.contains(right_page.0)) by {
                        if ancestors@.contains(right_page.0) {
                            let q = choose|q: int| 0 <= q < ancestors@.len() && ancestors@[q] == right_page.0;
                        }
                    }
                    lemma_vother_through_rewrite(ca, c3, right_page, right.keys@, right.children@, r3 - m - 1, t2, other, fuel as nat, ancestors@, page_id.0, right_page.0);
                }
            }
        }
        Ok(Some(VersionSplit { separator: promoted, right: right_page }))
    }

    /// Returns the page of the leaf that a search for `key` reaches,
    /// visiting at most one page more than the page file holds.
    fn find_leaf_page(&mut self, key: VersionKey) -> (r: Result<PageId, BTreeError>)
        requires
            old(self).inv(),
        ensures
            final(self).inv(),
            final(self).root_page() == old(self).root_page(),
            !(r matches Err(BTreeError::Buffer(_))) ==> {
                &&& final(self).content() == old(self).content()
                &&& final(self).page_total() == old(self).page_total()
            },
            match r {
                Ok(p) => version_leaf_page(old(self).content(), old(self).root_page(), key, descent_fuel(old(self).page_total())) == Some(p),
                Err(e) => version_leaf_page(old(self).content(), old(self).root_page(), key, descent_fuel(old(self).page_total())) is None || e is Buffer,
            },
    {
        let ghost c = self.content();
        let count = match self.pool.page_count() {
            Ok(n) => n,
            Err(e) => return Err(BTreeError::Buffer(e)),
        };
        let max_steps = count.saturating_add(1);
        let mut page_id = self.root;
        let mut fuel: u64 = max_steps;
        loop
            invariant
                self.inv(),
                c == old(self).content(),
                self.content() == c,
                self.root_page() == old(self).root_page(),
                self.page_total() == old(self).page_total(),
                version_leaf_page(c, old(self).root_page(), key, descent_fuel(old(self).page_total())) == version_leaf_page(c, page_id, key, fuel as nat),
            decreases fuel,
        {
            if fuel == 0 {
                return Err(BTreeError::Corrupt("cycle detected while descending version B+Tree".to_owned()));
            }
            let page = match self.pool.read(page_id) {
                Ok(p) => p,
                Err(e) => return Err(BTreeError::Buffer(e)),
            };
            proof {
                lemma_decoded_version_node_sealed(page@);
            }
            let node = decode_version_node(&page)?;
            match node {
                VersionNode::Leaf(_) => {
                    return Ok(page_id);
                },
                VersionNode::Internal(internal) => {
                    let idx = vchild_index(&internal.keys, key);
                    proof {
                        lemma_vroute(internal.keys@, key, idx as int);
                    }
                    page_id = internal.children[idx];
                    fuel = fuel - 1;
                },
            }
        }
    }

    /// Returns the leaf that a search for `key` reaches.
    fn find_leaf(&mut self, key: VersionKey) -> (r: Result<VersionLeafNode, BTreeError>)
        requires
            old(self).inv(),
        ensures
            final(self).inv(),
            final(self).root_page() == old(self).root_page(),
            !(r matches Err(BTreeError::Buffer(_))) ==> {
                &&& final(self).content() == old(self).content()
                &&& final(self).page_total() == old(self).page_total()
            },
            match r {
                Ok(leaf) => exists|p: PageId| {
                    &&& version_leaf_page(old(self).content(), old(self).root_page(), key, descent_fuel(old(self).page_total())) == Some(p)
                    &&& #[trigger] decoded_version_node(old(self).content()[p.0]) == Some(VersionNodeView::Leaf { keys: leaf.keys@, values: leaf.values@, next: leaf.next })
                },
                Err(e) => version_leaf_page(old(self).content(), old(self).root_page(), key, descent_fuel(old(self).page_total())) is None || e is Buffer,
            },
    {
        let page_id = self.find_leaf_page(key)?;
        proof {
            lemma_leaf_page_is_leaf(self.content(), self.root_page(), key, descent_fuel(self.page_total()));
        }
        let page = match self.pool.read(page_id) {
            Ok(p) => p,
            Err(e) => return Err(BTreeError::Buffer(e)),
        };
        proof {
            lemma_decoded_version_node_sealed(page@);
        }
        let node = decode_version_node(&page)?;
        match node {
            VersionNode::Leaf(leaf) => {
                assert(decoded_version_node(old(self).content()[page_id.0]) == Some(VersionNodeView::Leaf { keys: leaf.keys@, values: leaf.values@, next: leaf.next }));
                Ok(leaf)
            },
            VersionNode::Internal(_) => Err(BTreeError::Corrupt("expected a leaf page".to_owned())),
        }
    }

    /// Returns the greatest entry whose key is at most `key`: looked up in
    /// the leaf that a search for `key` reaches, else found by scanning all
    /// entries from the first leaf.
    pub fn get_floor(&mut self, key: VersionKey) -> (r: Result<Option<(VersionKey, RowLocation)>, BTreeError>)
        requires
            old(self).inv(),
        ensures
            final(self).inv(),
            final(self).root_page() == old(self).root_page(),
            !(r matches Err(BTreeError::Buffer(_))) ==> {
                &&& final(self).content() == old(self).content()
                &&& final(self).page_total() == old(self).page_total()
            },
            match r {
                Ok(v) => version_floor(old(self).content(), old(self).root_page(), key, descent_fuel(old(self).page_total())) == Some(v),
                Err(e) => version_floor(old(self).content(), old(self).root_page(), key, descent_fuel(old(self).page_total())) is None || e is Buffer,
            },
    {
        let ghost c = self.content();
        let ghost f = descent_fuel(self.page_total());
        let leaf = self.find_leaf(key)?;
        let ghost p = choose|p: PageId| {
            &&& version_leaf_page(c, old(self).root_page(), key, f) == Some(p)
            &&& #[trigger] decoded_version_node(c[p.0]) == Some(VersionNodeView::Leaf { keys: leaf.keys@, values: leaf.values@, next: leaf.next })
        };
        match vsearch(&leaf.keys, key) {
            Ok(i) => {
                proof {
                    assert(leaf_floor_at(leaf.keys@, key, i as int));
                    lemma_leaf_floor_at(leaf.keys@, leaf.values@, key, i as int);
                }
                Ok(Some((leaf.keys[i], leaf.values[i])))
            },
            Err(0) => {
                proof {
                    assert forall|j: int| !leaf_floor_at(leaf.keys@, key, j) by {
                        if 0 <= j < leaf.keys@.len() {
                            assert(version_key_lt(key, leaf.keys@[j]));
                        }
                    }
                }
                self.find_floor_before_leaf(key)
            },
            Err(i) => {
                proof {
                    assert(leaf_floor_at(leaf.keys@, key, i - 1));
                    lemma_leaf_floor_at(leaf.keys@, leaf.values@, key, i - 1);
                }
                Ok(Some((leaf.keys[i - 1], leaf.values[i - 1])))
            },
        }
    }

    /// Returns the entries of row `row_id`, in key order, walking the leaf
    /// chain from the leaf where its first version would stand.
    pub fn range_for_row(&mut self, row_id: RowId) -> (r: Result<Vec<(VersionKey, RowLocation)>, BTreeError>)
        requires
            old(self).inv(),
        ensures
            final(self).inv(),
            final(self).root_page() == old(self).root_page(),
            !(r matches Err(BTreeError::Buffer(_))) ==> {
                &&& final(self).content() == old(self).content()
                &&& final(self).page_total() == old(self).page_total()
            },
            match r {
                Ok(v) => version_range(old(self).content(), old(self).root_page(), row_id, descent_fuel(old(self).page_total())) == Some(v@),
                Err(e) => version_range(old(self).content(), old(self).root_page(), row_id, descent_fuel(old(self).page_total())) is None || e is Buffer,
            },
    {
        let ghost c = self.content();
        let ghost f = descent_fuel(self.page_total());
        let start = VersionKey::new(row_id, CommitTs(0));
        let mut page_id = self.find_leaf_page(start)?;
        let count = match self.pool.page_count() {
            Ok(n) => n,
            Err(e) => return Err(BTreeError::Buffer(e)),
        };
        let max_steps = count.saturating_add(1);
        let mut out: Vec<(VersionKey, RowLocation)> = Vec::new();
        let mut fuel: u64 = max_steps;
        loop
            invariant
                self.inv(),
                c == old(self).content(),
                self.content() == c,
                self.root_page() == old(self).root_page(),
                self.page_total() == old(self).page_total(),
                f == descent_fuel(old(self).page_total()),
                version_range(c, old(self).root_page(), row_id, f) == prefixed(out@, row_chain(c, page_id, row_id.0, fuel as nat)),
            decreases fuel,
        {
            if fuel == 0 {
                return Err(BTreeError::Corrupt("cycle detected in version leaf chain".to_owned()));
            }
            let page = match self.pool.read(page_id) {
                Ok(p) => p,
                Err(e) => return Err(BTreeError::Buffer(e)),
            };
            proof {
                lemma_decoded_version_node_sealed(page@);
            }
            let node = decode_version_node(&page)?;
            let leaf = match node {
                VersionNode::Leaf(l) => l,
                VersionNode::Internal(_) => return Err(BTreeError::Corrupt("leaf chain points to an internal node".to_owned())),
            };
            let ghost z = leaf_entries(leaf.keys@, leaf.values@);
            let ghost out0 = out@;
            let stopped = collect_row(&leaf, row_id.0, &mut out);
            if stopped {
                return Ok(out);
            }
            match leaf.next {
                Some(next) => {
                    proof {
                        let rest = row_chain(c, next, row_id.0, (fuel - 1) as nat);
                        if rest is Some {
                            assert(out0 + (row_take(z, row_id.0, 0) + rest->0) =~= out@ + rest->0);
                        }
                    }
                    page_id = next;
                },
                None => return Ok(out),
            }
            fuel = fuel - 1;
        }
    }

    /// Returns every entry of the tree in key order: descends to the first
    /// leaf through first children, then follows the leaf chain.
    pub fn scan_all(&mut self) -> (r: Result<Vec<(VersionKey, RowLocation)>, BTreeError>)
        requires
            old(self).inv(),
        ensures
            final(self).inv(),
            final(self).root_page() == old(self).root_page(),
            !(r matches Err(BTreeError::Buffer(_))) ==> {
                &&& final(self).content() == old(self).content()
                &&& final(self).page_total() == old(self).page_total()
            },
            match r {
                Ok(v) => version_scan(old(self).content(), old(self).root_page(), descent_fuel(old(self).page_total())) == Some(v@),
                Err(e) => version_scan(old(self).content(), old(self).root_page(), descent_fuel(old(self).page_total())) is None || e is Buffer,
            },
    {
        self.scan_all_unlocked()
    }

    /// The greatest entry at most `key` among all entries, scanning from the
    /// first leaf and stopping at the first greater key.
    fn find_floor_before_leaf(&mut self, key: VersionKey) -> (r: Result<Option<(VersionKey, RowLocation)>, BTreeError>)
        requires
            old(self).inv(),
        ensures
            final(self).inv(),
            final(self).root_page() == old(self).root_page(),
            !(r matches Err(BTreeError::Buffer(_))) ==> {
                &&& final(self).content() == old(self).content()
                &&& final(self).page_total() == old(self).page_total()
            },
            match r {
                Ok(v) => version_scan(old(self).content(), old(self).root_page(), descent_fuel(old(self).page_total())) matches Some(z) && v == floor_in(z, key, 0, None),
                Err(e) => version_scan(old(self).content(), old(self).root_page(), descent_fuel(old(self).page_total())) is None || e is Buffer,
            },
    {
        let all = self.scan_all_unlocked()?;
        Ok(floor_of(&all, key))
    }

    /// Walks to the first leaf and along the leaf chain, collecting every
    /// entry; each walk visits at most one page more than the page file
    /// holds.
    fn scan_all_unlocked(&mut self) -> (r: Result<Vec<(VersionKey, RowLocation)>, BTreeError>)
        requires
            old(self).inv(),
        ensures
            final(self).inv(),
            final(self).root_page() == old(self).root_page(),
            !(r matches Err(BTreeError::Buffer(_))) ==> {
                &&& final(self).content() == old(self).content()
                &&& final(self).page_total() == old(self).page_total()
            },
            match r {
                Ok(v) => version_scan(old(self).content(), old(self).root_page(), descent_fuel(old(self).page_total())) == Some(v@),
                Err(e) => version_scan(old(self).content(), old(self).root_page(), descent_fuel(old(self).page_total())) is None || e is Buffer,
            },
    {
        let ghost c = self.content();
        let ghost f = descent_fuel(self.page_total());
        let count = match self.pool.page_count() {
            Ok(n) => n,
            Err(e) => return Err(BTreeError::Buffer(e)),
        };
        let max_steps = count.saturating_add(1);
        let mut page_id = self.first_leaf(max_steps)?;
        let mut out: Vec<(VersionKey, RowLocation)> = Vec::new();
        let mut fuel: u64 = max_steps;
        loop
            invariant
                self.inv(),
                c == old(self).content(),
                self.content() == c,
                self.root_page() == old(self).root_page(),
                self.page_total() == old(self).page_total(),
                f == descent_fuel(old(self).page_total()),
                version_scan(c, old(self).root_page(), f) == prefixed(out@, chain_entries(c, page_id, fuel as nat)),
            decreases fuel,
        {
            if fuel == 0 {
                return Err(BTreeError::Corrupt("cycle detected in version leaf chain".to_owned()));
            }
            let page = match self.pool.read(page_id) {
                Ok(p) => p,
                Err(e) => return Err(BTreeError::Buffer(e)),
            };
            proof {
                lemma_decoded_version_node_sealed(page@);
            }
            let node = decode_version_node(&page)?;
            let leaf = match node {
                VersionNode::Leaf(l) => l,
                VersionNode::Internal(_) => return Err(BTreeError::Corrupt("leaf chain points to an internal node".to_owned())),
            };
            let ghost out0 = out@;
            append_entries(&mut out, &leaf);
            match leaf.next {
                Some(next) => {
                    proof {
                        let rest = chain_entries(c, next, (fuel - 1) as nat);
                        if rest is Some {
                            assert(out0 + (leaf_entries(leaf.keys@, leaf.values@) + rest->0) =~= out@ + rest->0);
                        }
                    }
                    page_id = next;
                },
                None => return Ok(out),
            }
            fuel = fuel - 1;
        }
    }

    /// Descends from the root through first children to the first leaf,
    /// visiting at most `max_steps` pages.
    fn first_leaf(&mut self, max_steps: u64) -> (r: Result<PageId, BTreeError>)
        requires
            old(self).inv(),
        ensures
            final(self).inv(),
            final(self).root_page() == old(self).root_page(),
            !(r matches Err(BTreeError::Buffer(_))) ==> {
                &&& final(self).content() == old(self).content()
                &&& final(self).page_total() == old(self).page_total()
            },
            match r {
                Ok(p) => leftmost_leaf(old(self).content(), old(self).root_page(), max_steps as nat) == Some(p),
                Err(e) => leftmost_leaf(old(self).content(), old(self).root_page(), max_steps as nat) is None || e is Buffer,
            },
    {
        let ghost c = self.content();
        let mut page_id = self.root;
        let mut fuel: u64 = max_steps;
        loop
            invariant
                self.inv(),
                c == old(self).content(),
                self.content() == c,
                self.root_page() == old(self).root_page(),
                self.page_total() == old(self).page_total(),
                leftmost_leaf(c, old(self).root_page(), max_steps as nat) == leftmost_leaf(c, page_id, fuel as nat),
            decreases fuel,
        {
            if fuel == 0 {
                return Err(BTreeError::Corrupt("cycle detected while locating first version leaf".to_owned()));
            }
            let page = match self.pool.read(page_id) {
                Ok(p) => p,
                Err(e) => return Err(BTreeError::Buffer(e)),
            };
            proof {
                lemma_decoded_version_node_sealed(page@);
            }
            let node = decode_version_node(&page)?;
            match node {
                VersionNode::Leaf(_) => return Ok(page_id),
                VersionNode::Internal(internal) => {
                    page_id = internal.children[0];
                },
            }
            fuel = fuel - 1;
        }
    }

    /// Returns the location stored for `key`.
    pub fn get(&mut self, key: VersionKey) -> (r: Result<Option<RowLocation>, BTreeError>)
        requires
            old(self).inv(),
        ensures
            final(self).inv(),
            final(self).root_page() == old(self).root_page(),
            !(r matches Err(BTreeError::Buffer(_))) ==> {
                &&& final(self).content() == old(self).content()
                &&& final(self).page_total() == old(self).page_total()
            },
            match r {
                Ok(v) => old(self).lookup(key) == Some(v),
                Err(e) => old(self).lookup(key) is None || e is Buffer,
            },
            old(self).well_formed() && old(self).page_total() <= u64::MAX ==> (r is Ok || r->Err_0 is Buffer),
    {
        proof {
            lemma_leaf_page_lookup(self.content(), self.root_page(), key, descent_fuel(self.page_total()));
            if self.well_formed() && self.page_total() <= u64::MAX {
                self.lemma_content_dom();
                let h = choose|h: nat| #[trigger] vwf_tree(self.content(), self.root_page(), h);
                lemma_vwf_lookup_found(self.content(), self.root_page(), h, key, self.page_total());
            }
        }
        let leaf = self.find_leaf(key)?;
        match vsearch(&leaf.keys, key) {
            Ok(i) => {
                proof {
                    lemma_vleaf_value_at(leaf.keys@, leaf.values@, key, i as int);
                }
                Ok(Some(leaf.values[i]))
            },
            Err(_) => Ok(None),
        }
    }
}

} // verus!
