//! The persistent primary B+Tree: row ids to heap row locations, one node per
//! page, read and written through a buffer pool.
use vstd::prelude::*;
use crate::btree::codec::{
    decode_node, decoded_node, encode_node, ensure_strictly_sorted, lemma_decoded_node_sealed, lemma_node_codec_stored,
    node_kind_tag, stored_node,
};
use crate::btree::error::BTreeError;
use crate::btree::version_tree::lemma_distinct_below;
use crate::btree::node::{
    keys_strictly_sorted, node_valid, InternalNode, LeafNode, Node, NodeView, MAX_INTERNAL_KEYS,
    MAX_LEAF_ENTRIES,
};
use crate::buffer::buffer_pool::BufferPool;
use crate::buffer::page_store::PageStore;
use crate::ids::{Lsn, PageId, RowId, RowLocation};
use crate::le::{le16, lemma_le_roundtrip, lemma_splice_subrange, splice};
use crate::page::{hdr_kind, hdr_lsn, lemma_lsn_after_kind, lemma_sealed_keeps_lsn, PageKind, PAGE_HEADER_SIZE};

verus! {

/// The most pages one descent from the root visits.
pub const MAX_DESCENT: u64 = 0xffff_ffff_ffff_ffff;

/// `i` is the child a search for `key` follows among separator `keys`: every
/// separator before `i` is at most `key`, and the one at `i`, if any, is
/// greater.
pub open spec fn routes_to(keys: Seq<RowId>, key: RowId, i: int) -> bool {
    &&& 0 <= i <= keys.len()
    &&& forall|j: int| 0 <= j < i ==> (#[trigger] keys[j]).0 <= key.0
    &&& i < keys.len() ==> key.0 < keys[i].0
}

/// The child index a search for `key` follows.
pub open spec fn route(keys: Seq<RowId>, key: RowId) -> int {
    choose|i: int| routes_to(keys, key, i)
}

/// The location a leaf holds for `key`, if any.
pub open spec fn leaf_value(keys: Seq<RowId>, values: Seq<RowLocation>, key: RowId) -> Option<RowLocation> {
    if exists|i: int| 0 <= i < keys.len() && keys[i] == key {
        Some(values[choose|i: int| 0 <= i < keys.len() && keys[i] == key])
    } else {
        None
    }
}

/// What a search for `key` starting at `page` finds within `fuel` pages of
/// the page images `c`: `Some(loc)` from the leaf it reaches, or `None` when a
/// page on the way is missing or does not decode, or the fuel runs out.
pub open spec fn tree_lookup(c: Map<u64, Seq<u8>>, page: PageId, key: RowId, fuel: nat) -> Option<Option<RowLocation>>
    decreases fuel,
{
    if fuel == 0 || !c.contains_key(page.0) {
        None
    } else {
        match decoded_node(c[page.0]) {
            Some(NodeView::Leaf { keys, values, .. }) => Some(leaf_value(keys, values, key)),
            Some(NodeView::Internal { keys, children }) => tree_lookup(c, children[route(keys, key)], key, (fuel - 1) as nat),
            None => None,
        }
    }
}

/// The pages that search visits, in order.
pub open spec fn lookup_path(c: Map<u64, Seq<u8>>, page: PageId, key: RowId, fuel: nat) -> Seq<u64>
    decreases fuel,
{
    if fuel == 0 {
        Seq::empty()
    } else if !c.contains_key(page.0) {
        seq![page.0]
    } else {
        match decoded_node(c[page.0]) {
            Some(NodeView::Internal { keys, children }) => seq![page.0] + lookup_path(c, children[route(keys, key)], key, (fuel - 1) as nat),
            _ => seq![page.0],
        }
    }
}

/// The leaf that a search for `key` from `page` reaches within `fuel`
/// pages holds `key` already or has room for one more entry.
pub open spec fn leaf_has_room(c: Map<u64, Seq<u8>>, page: PageId, key: RowId, fuel: nat) -> bool
    decreases fuel,
{
    if fuel == 0 || !c.contains_key(page.0) {
        false
    } else {
        match decoded_node(c[page.0]) {
            Some(NodeView::Leaf { keys, .. }) => keys.contains(key) || keys.len() < MAX_LEAF_ENTRIES,
            Some(NodeView::Internal { keys, children }) => leaf_has_room(c, children[route(keys, key)], key, (fuel - 1) as nat),
            None => false,
        }
    }
}

pub proof fn lemma_route(keys: Seq<RowId>, key: RowId, i: int)
    requires
        routes_to(keys, key, i),
    ensures
        route(keys, key) == i,
{
    let c = route(keys, key);
    assert(routes_to(keys, key, c));
    if c < i {
        assert(keys[c].0 <= key.0);
    } else if i < c {
        assert(keys[i].0 <= key.0);
    }
}

/// Every search has a child to follow.
pub proof fn lemma_route_exists(keys: Seq<RowId>, key: RowId)
    ensures
        routes_to(keys, key, route(keys, key)),
    decreases keys.len(),
{
    if keys.len() == 0 {
        assert(routes_to(keys, key, 0));
    } else {
        let init = keys.drop_last();
        lemma_route_exists(init, key);
        let i = route(init, key);
        assert forall|j: int| 0 <= j < init.len() implies #[trigger] init[j] == keys[j] by {}
        assert forall|j: int| 0 <= j < i implies (#[trigger] keys[j]).0 <= key.0 by {
            assert(init[j] == keys[j]);
        }
        if i < init.len() {
            assert(init[i] == keys[i]);
            assert(routes_to(keys, key, i));
        } else if key.0 < keys[keys.len() - 1].0 {
            assert(routes_to(keys, key, keys.len() - 1));
        } else {
            assert(routes_to(keys, key, keys.len() as int));
        }
    }
}

pub proof fn lemma_leaf_value_at(keys: Seq<RowId>, values: Seq<RowLocation>, key: RowId, i: int)
    requires
        keys_strictly_sorted(keys),
        0 <= i < keys.len(),
        keys[i] == key,
    ensures
        leaf_value(keys, values, key) == Some(values[i]),
{
    let c = choose|j: int| 0 <= j < keys.len() && keys[j] == key;
    assert(0 <= c < keys.len() && keys[c] == key);
    if c < i {
        assert(keys[c].0 < keys[i].0);
    } else if i < c {
        assert(keys[i].0 < keys[c].0);
    }
}

/// Writing a page that a search does not visit changes neither what it finds
/// nor where it goes.
pub proof fn lemma_lookup_frame(c: Map<u64, Seq<u8>>, page: PageId, key: RowId, fuel: nat, x: u64, v: Seq<u8>)
    requires
        !lookup_path(c, page, key, fuel).contains(x),
    ensures
        tree_lookup(c.insert(x, v), page, key, fuel) == tree_lookup(c, page, key, fuel),
        lookup_path(c.insert(x, v), page, key, fuel) == lookup_path(c, page, key, fuel),
    decreases fuel,
{
    if fuel > 0 {
        assert(lookup_path(c, page, key, fuel)[0] == page.0);
        assert(x != page.0);
        assert(c.insert(x, v).contains_key(page.0) == c.contains_key(page.0));
        if c.contains_key(page.0) {
            assert(c.insert(x, v)[page.0] == c[page.0]);
            match decoded_node(c[page.0]) {
                Some(NodeView::Internal { keys, children }) => {
                    let next = children[route(keys, key)];
                    let sub = lookup_path(c, next, key, (fuel - 1) as nat);
                    assert(lookup_path(c, page, key, fuel) == seq![page.0] + sub);
                    assert forall|k: int| 0 <= k < sub.len() implies sub[k] != x by {
                        assert((seq![page.0] + sub)[k + 1] == sub[k]);
                    }
                    lemma_lookup_frame(c, next, key, (fuel - 1) as nat, x, v);
                },
                _ => {},
            }
        }
    }
}

/// A search that succeeds with some fuel finds the same with more.
pub proof fn lemma_lookup_fuel(c: Map<u64, Seq<u8>>, page: PageId, key: RowId, f: nat, g: nat)
    requires
        f <= g,
        tree_lookup(c, page, key, f) is Some,
    ensures
        tree_lookup(c, page, key, g) == tree_lookup(c, page, key, f),
    decreases f,
{
    match decoded_node(c[page.0]) {
        Some(NodeView::Internal { keys, children }) => {
            lemma_lookup_fuel(c, children[route(keys, key)], key, (f - 1) as nat, (g - 1) as nat);
        },
        _ => {},
    }
}

/// Every page a successful search visits exists.
pub proof fn lemma_lookup_path_exists(c: Map<u64, Seq<u8>>, page: PageId, key: RowId, fuel: nat)
    requires
        tree_lookup(c, page, key, fuel) is Some,
    ensures
        forall|k: int| 0 <= k < lookup_path(c, page, key, fuel).len() ==> c.contains_key(#[trigger] lookup_path(c, page, key, fuel)[k]),
    decreases fuel,
{
    match decoded_node(c[page.0]) {
        Some(NodeView::Internal { keys, children }) => {
            let next = children[route(keys, key)];
            let sub = lookup_path(c, next, key, (fuel - 1) as nat);
            lemma_lookup_path_exists(c, next, key, (fuel - 1) as nat);
            assert forall|k: int| 0 <= k < lookup_path(c, page, key, fuel).len() implies c.contains_key(
                #[trigger] lookup_path(c, page, key, fuel)[k],
            ) by {
                if k > 0 {
                    assert(lookup_path(c, page, key, fuel)[k] == sub[k - 1]);
                }
            }
        },
        _ => {},
    }
}

/// The searches for `key` and `other` from `page` part cleanly: while they
/// take the same child they visit the same pages, and once they take
/// different children, the rest of the search for `other` visits no page of
/// the search for `key`.
pub open spec fn searches_part(c: Map<u64, Seq<u8>>, page: PageId, key: RowId, other: RowId, fuel: nat) -> bool
    decreases fuel,
{
    if fuel == 0 || !c.contains_key(page.0) {
        true
    } else {
        match decoded_node(c[page.0]) {
            Some(NodeView::Internal { keys, children }) => if route(keys, key) == route(keys, other) {
                searches_part(c, children[route(keys, key)], key, other, (fuel - 1) as nat)
            } else {
                forall|j: int|
                    0 <= j < lookup_path(c, children[route(keys, other)], other, (fuel - 1) as nat).len()
                        ==> !lookup_path(c, page, key, fuel).contains(
                        #[trigger] lookup_path(c, children[route(keys, other)], other, (fuel - 1) as nat)[j],
                    )
            },
            _ => true,
        }
    }
}

/// Page images that agree on every page a search visits give the same
/// search.
pub proof fn lemma_lookup_agree(c: Map<u64, Seq<u8>>, d: Map<u64, Seq<u8>>, page: PageId, key: RowId, fuel: nat)
    requires
        forall|j: int| #![trigger lookup_path(c, page, key, fuel)[j]] 0 <= j < lookup_path(c, page, key, fuel).len() ==> {
            &&& c.contains_key(lookup_path(c, page, key, fuel)[j]) == d.contains_key(lookup_path(c, page, key, fuel)[j])
            &&& d[lookup_path(c, page, key, fuel)[j]] == c[lookup_path(c, page, key, fuel)[j]]
        },
    ensures
        tree_lookup(d, page, key, fuel) == tree_lookup(c, page, key, fuel),
        lookup_path(d, page, key, fuel) == lookup_path(c, page, key, fuel),
    decreases fuel,
{
    if fuel > 0 {
        let p = lookup_path(c, page, key, fuel);
        assert(p[0] == page.0);
        if c.contains_key(page.0) {
            match decoded_node(c[page.0]) {
                Some(NodeView::Internal { keys, children }) => {
                    let next = children[route(keys, key)];
                    let sub = lookup_path(c, next, key, (fuel - 1) as nat);
                    assert(p == seq![page.0] + sub);
                    assert forall|j: int| #![trigger sub[j]] 0 <= j < sub.len() implies {
                        &&& c.contains_key(sub[j]) == d.contains_key(sub[j])
                        &&& d[sub[j]] == c[sub[j]]
                    } by {
                        assert(p[j + 1] == sub[j]);
                    }
                    lemma_lookup_agree(c, d, next, key, (fuel - 1) as nat);
                },
                _ => {},
            }
        }
    }
}

/// A path that visits each page once, after its first page, does not
/// visit that page again.
pub proof fn lemma_path_tail(c: Map<u64, Seq<u8>>, page: PageId, key: RowId, fuel: nat, keys: Seq<RowId>, children: Seq<PageId>)
    requires
        fuel > 0,
        c.contains_key(page.0),
        decoded_node(c[page.0]) == Some(NodeView::Internal { keys, children }),
    ensures
        lookup_path(c, page, key, fuel) == seq![page.0] + lookup_path(c, children[route(keys, key)], key, (fuel - 1) as nat),
        lookup_path(c, page, key, fuel).no_duplicates() ==> lookup_path(c, children[route(keys, key)], key, (fuel - 1) as nat).no_duplicates()
            && !lookup_path(c, children[route(keys, key)], key, (fuel - 1) as nat).contains(page.0),
        forall|x: u64| lookup_path(c, children[route(keys, key)], key, (fuel - 1) as nat).contains(x) ==> lookup_path(c, page, key, fuel).contains(x),
{
    let sub = lookup_path(c, children[route(keys, key)], key, (fuel - 1) as nat);
    let p = lookup_path(c, page, key, fuel);
    assert(p == seq![page.0] + sub);
    if p.no_duplicates() {
        assert forall|i: int, j: int| 0 <= i < sub.len() && 0 <= j < sub.len() && i != j implies sub[i] != sub[j] by {
            assert(p[i + 1] == sub[i] && p[j + 1] == sub[j]);
        }
        if sub.contains(page.0) {
            let q = choose|q: int| 0 <= q < sub.len() && sub[q] == page.0;
            assert(p[q + 1] == page.0 && p[0] == page.0);
        }
    }
    assert forall|x: u64| sub.contains(x) implies p.contains(x) by {
        let q = choose|q: int| 0 <= q < sub.len() && sub[q] == x;
        assert(p[q + 1] == x);
    }
}

/// Replacing one location in a leaf changes nothing for the other keys.
pub proof fn lemma_leaf_value_update(keys: Seq<RowId>, values: Seq<RowLocation>, i: int, v: RowLocation, other: RowId)
    requires
        keys_strictly_sorted(keys),
        keys.len() == values.len(),
        0 <= i < keys.len(),
        keys[i] != other,
    ensures
        leaf_value(keys, values.update(i, v), other) == leaf_value(keys, values, other),
{
    if exists|j: int| 0 <= j < keys.len() && keys[j] == other {
        let j = choose|j: int| 0 <= j < keys.len() && keys[j] == other;
        lemma_leaf_value_at(keys, values, other, j);
        lemma_leaf_value_at(keys, values.update(i, v), other, j);
    }
}

/// Inserting an entry for `key` into a leaf changes nothing for the other
/// keys.
pub proof fn lemma_leaf_value_insert(keys: Seq<RowId>, values: Seq<RowLocation>, i: int, key: RowId, v: RowLocation, other: RowId)
    requires
        keys_strictly_sorted(keys),
        keys_strictly_sorted(keys.insert(i, key)),
        keys.len() == values.len(),
        0 <= i <= keys.len(),
        key != other,
    ensures
        leaf_value(keys.insert(i, key), values.insert(i, v), other) == leaf_value(keys, values, other),
{
    let k2 = keys.insert(i, key);
    let v2 = values.insert(i, v);
    if exists|j: int| 0 <= j < keys.len() && keys[j] == other {
        let j = choose|j: int| 0 <= j < keys.len() && keys[j] == other;
        lemma_leaf_value_at(keys, values, other, j);
        let j2 = if j < i { j } else { j + 1 };
        assert(k2[j2] == other && v2[j2] == values[j]);
        lemma_leaf_value_at(k2, v2, other, j2);
    } else {
        assert forall|j: int| 0 <= j < k2.len() implies k2[j] != other by {
            if j < i {
                assert(k2[j] == keys[j]);
            } else if j > i {
                assert(k2[j] == keys[j - 1]);
            }
        }
    }
}

/// A part of a leaf that holds every entry for `other` finds the same for
/// it as the whole leaf.
pub proof fn lemma_leaf_value_range(keys: Seq<RowId>, values: Seq<RowLocation>, lo: int, hi: int, other: RowId)
    requires
        keys_strictly_sorted(keys),
        keys.len() == values.len(),
        0 <= lo <= hi <= keys.len(),
        forall|j: int| 0 <= j < keys.len() && keys[j] == other ==> lo <= j < hi,
    ensures
        leaf_value(keys.subrange(lo, hi), values.subrange(lo, hi), other) == leaf_value(keys, values, other),
{
    let ks = keys.subrange(lo, hi);
    let vs = values.subrange(lo, hi);
    assert(keys_strictly_sorted(ks)) by {
        assert forall|a: int, b: int| 0 <= a < b < ks.len() implies #[trigger] ks[a].0 < #[trigger] ks[b].0 by {
            assert(ks[a] == keys[a + lo] && ks[b] == keys[b + lo]);
        }
    }
    if exists|j: int| 0 <= j < keys.len() && keys[j] == other {
        let j = choose|j: int| 0 <= j < keys.len() && keys[j] == other;
        lemma_leaf_value_at(keys, values, other, j);
        assert(ks[j - lo] == other && vs[j - lo] == values[j]);
        lemma_leaf_value_at(ks, vs, other, j - lo);
    } else {
        assert forall|j: int| 0 <= j < ks.len() implies ks[j] != other by {
            assert(ks[j] == keys[j + lo]);
        }
    }
}

/// Where a search for `other` goes in an internal node after the child at
/// `r` split, with separator `sep` and upper half `right`: to the same page
/// as before, or to `right` if it went to the split child and is at least
/// `sep`.
pub proof fn lemma_route_after_split(keys: Seq<RowId>, children: Seq<PageId>, r: int, sep: RowId, right: PageId, other: RowId)
    requires
        children.len() == keys.len() + 1,
        0 <= r <= keys.len(),
        keys_strictly_sorted(keys.insert(r, sep)),
        routes_to(keys, other, route(keys, other)),
    ensures
        ({
            let r2 = route(keys, other);
            let r3 = if r2 < r { r2 } else if r2 == r { if other.0 < sep.0 { r } else { r + 1 } } else { r2 + 1 };
            &&& routes_to(keys.insert(r, sep), other, r3)
            &&& children.insert(r + 1, right)[r3] == if r2 == r {
                if other.0 < sep.0 { children[r] } else { right }
            } else {
                children[r2]
            }
        }),
{
    let r2 = route(keys, other);
    let k2 = keys.insert(r, sep);
    let r3 = if r2 < r { r2 } else if r2 == r { if other.0 < sep.0 { r } else { r + 1 } } else { r2 + 1 };
    assert forall|j: int| 0 <= j < r3 implies !(other.0 < (#[trigger] k2[j]).0) by {
        if j < r {
            assert(k2[j] == keys[j]);
        } else if j == r {
            if r2 > r {
                assert(k2[r] == sep && k2[r + 1] == keys[r]);
                assert(sep.0 < keys[r].0);
            }
        } else {
            assert(k2[j] == keys[j - 1]);
        }
    }
    if r3 < k2.len() {
        if r3 < r {
            assert(k2[r3] == keys[r3]);
        } else if r3 == r {
            assert(k2[r3] == sep);
        } else {
            assert(k2[r3] == keys[r3 - 1]);
        }
    }
}

/// Where a search for `other` goes in one half of an overfull internal node
/// split at `m`: the lower half if it is below the promoted key `keys[m]`,
/// else the upper half, to the same child.
pub proof fn lemma_route_in_half(keys: Seq<RowId>, other: RowId, q: int, m: int)
    requires
        keys_strictly_sorted(keys),
        0 <= m < keys.len(),
        routes_to(keys, other, q),
    ensures
        other.0 < keys[m].0 ==> q <= m && routes_to(keys.subrange(0, m), other, q),
        !(other.0 < keys[m].0) ==> q > m && routes_to(keys.subrange(m + 1, keys.len() as int), other, q - m - 1),
{
    if other.0 < keys[m].0 {
        if q > m {
            assert(keys[m].0 <= other.0);
        }
        let l = keys.subrange(0, m);
        assert forall|j: int| 0 <= j < q implies (#[trigger] l[j]).0 <= other.0 by {
            assert(l[j] == keys[j]);
        }
        if q < m {
            assert(l[q] == keys[q]);
        }
    } else {
        if q <= m {
            if q < m {
                assert(keys[q].0 < keys[m].0);
            }
        }
        let rt = keys.subrange(m + 1, keys.len() as int);
        assert forall|j: int| 0 <= j < q - m - 1 implies (#[trigger] rt[j]).0 <= other.0 by {
            assert(rt[j] == keys[j + m + 1]);
        }
        if q - m - 1 < rt.len() {
            assert(rt[q - m - 1] == keys[q]);
        }
    }
}

/// The search for `other` from `page` is one that inserting `key` into the
/// subtree leaves alone: `other` differs from `key`, the search completes,
/// parts cleanly from the search for `key`, visits each page once and
/// meets none of the `ancestors` pages above.
pub open spec fn clear_of_insert(c: Map<u64, Seq<u8>>, page: PageId, key: RowId, other: RowId, fuel: nat, ancestors: Seq<u64>) -> bool {
    &&& other != key
    &&& tree_lookup(c, page, other, fuel) is Some
    &&& searches_part(c, page, key, other, fuel)
    &&& lookup_path(c, page, other, fuel).no_duplicates()
    &&& forall|k: int| 0 <= k < ancestors.len() ==> !lookup_path(c, page, other, fuel).contains(#[trigger] ancestors[k])
}

/// A search through an internal node continues at the child it routes to.
pub proof fn lemma_lookup_through(c: Map<u64, Seq<u8>>, page: PageId, keys: Seq<RowId>, children: Seq<PageId>, other: RowId, fuel: nat, q: int, t: PageId)
    requires
        fuel > 0,
        c.contains_key(page.0),
        decoded_node(c[page.0]) == Some(NodeView::Internal { keys, children }),
        routes_to(keys, other, q),
        children[q] == t,
    ensures
        tree_lookup(c, page, other, fuel) == tree_lookup(c, t, other, (fuel - 1) as nat),
        lookup_path(c, page, other, fuel) == seq![page.0] + lookup_path(c, t, other, (fuel - 1) as nat),
{
    lemma_route(keys, other, q);
}

/// `x` is a page of the subtree of height `h` under `page`: the page itself
/// or, below an internal node, a page of one of its children's subtrees.
pub open spec fn reaches(c: Map<u64, Seq<u8>>, page: PageId, h: nat, x: u64) -> bool
    decreases h, 0nat,
{
    x == page.0 || (h > 0 && c.contains_key(page.0) && match decoded_node(c[page.0]) {
        Some(NodeView::Internal { children, .. }) => kids_reach(c, children, (h - 1) as nat, x, children.len()),
        _ => false,
    })
}

/// `x` is a page of the subtree of height `h` under one of the first `n`
/// children.
pub open spec fn kids_reach(c: Map<u64, Seq<u8>>, children: Seq<PageId>, h: nat, x: u64, n: nat) -> bool
    decreases h, n,
{
    n > 0 && (kids_reach(c, children, h, x, (n - 1) as nat) || reaches(c, children[n - 1], h, x))
}

/// The subtree of height `h` under `page` is a proper B+Tree: its leaves lie
/// exactly at height zero, each internal node has one child more than
/// separator keys, and the subtrees of distinct children share no page and
/// do not hold the node itself.
pub open spec fn wf_tree(c: Map<u64, Seq<u8>>, page: PageId, h: nat) -> bool
    decreases h, 0nat,
{
    &&& c.contains_key(page.0)
    &&& match decoded_node(c[page.0]) {
        Some(NodeView::Leaf { .. }) => h == 0,
        Some(NodeView::Internal { keys, children }) => {
            &&& h > 0
            &&& children.len() == keys.len() + 1
            &&& kids_wf(c, children, (h - 1) as nat, children.len())
            &&& forall|i: int, j: int, x: u64| 0 <= i < children.len() && 0 <= j < children.len() && i != j
                && #[trigger] reaches(c, children[i], (h - 1) as nat, x) ==> !#[trigger] reaches(c, children[j], (h - 1) as nat, x)
            &&& forall|i: int| 0 <= i < children.len() ==> !#[trigger] reaches(c, children[i], (h - 1) as nat, page.0)
        },
        None => false,
    }
}

/// The first `n` children head proper subtrees of height `h`.
pub open spec fn kids_wf(c: Map<u64, Seq<u8>>, children: Seq<PageId>, h: nat, n: nat) -> bool
    decreases h, n,
{
    n == 0 || (kids_wf(c, children, h, (n - 1) as nat) && wf_tree(c, children[n - 1], h))
}

/// `kids_reach` is reaching through one of the first `n` children.
pub proof fn lemma_kids_reach(c: Map<u64, Seq<u8>>, children: Seq<PageId>, h: nat, x: u64, n: nat)
    ensures
        kids_reach(c, children, h, x, n) == exists|i: int| 0 <= i < n && #[trigger] reaches(c, children[i], h, x),
    decreases n,
{
    if n > 0 {
        lemma_kids_reach(c, children, h, x, (n - 1) as nat);
        if kids_reach(c, children, h, x, n) {
            if !reaches(c, children[n - 1], h, x) {
                let i = choose|i: int| 0 <= i < n - 1 && #[trigger] reaches(c, children[i], h, x);
                assert(0 <= i < n && reaches(c, children[i], h, x));
            } else {
                assert(reaches(c, children[n - 1], h, x));
            }
        } else {
            assert forall|i: int| 0 <= i < n implies !#[trigger] reaches(c, children[i], h, x) by {
                if i < n - 1 {
                    assert(!(exists|i: int| 0 <= i < n - 1 && #[trigger] reaches(c, children[i], h, x)));
                }
            }
        }
    }
}

/// `kids_wf` is every one of the first `n` children heading a proper
/// subtree.
pub proof fn lemma_kids_wf(c: Map<u64, Seq<u8>>, children: Seq<PageId>, h: nat, n: nat)
    ensures
        kids_wf(c, children, h, n) == forall|i: int| 0 <= i < n ==> #[trigger] wf_tree(c, children[i], h),
    decreases n,
{
    if n > 0 {
        lemma_kids_wf(c, children, h, (n - 1) as nat);
        if !kids_wf(c, children, h, n) {
            if kids_wf(c, children, h, (n - 1) as nat) {
                assert(!wf_tree(c, children[n - 1], h));
            } else {
                let i = choose|i: int| 0 <= i < n - 1 && !#[trigger] wf_tree(c, children[i], h);
                assert(0 <= i < n && !wf_tree(c, children[i], h));
            }
        }
    }
}

/// The pages reached below an internal node are the node and the pages
/// reached below its children.
pub proof fn lemma_reaches_internal(c: Map<u64, Seq<u8>>, page: PageId, h: nat, x: u64, keys: Seq<RowId>, children: Seq<PageId>)
    requires
        h > 0,
        c.contains_key(page.0),
        decoded_node(c[page.0]) == Some(NodeView::Internal { keys, children }),
    ensures
        reaches(c, page, h, x) == (x == page.0 || exists|i: int| 0 <= i < children.len() && #[trigger] reaches(c, children[i], (h - 1) as nat, x)),
{
    lemma_kids_reach(c, children, (h - 1) as nat, x, children.len());
}

/// In a proper subtree every search reaches a leaf within `h + 1` pages,
/// visits only pages of the subtree, never one twice, and parts cleanly from
/// the search for any other key.
pub proof fn lemma_wf_search(c: Map<u64, Seq<u8>>, page: PageId, h: nat, key: RowId, other: RowId, fuel: nat)
    requires
        wf_tree(c, page, h),
        fuel > h,
    ensures
        tree_lookup(c, page, key, fuel) is Some,
        lookup_path(c, page, key, fuel).len() == h + 1,
        forall|k: int| 0 <= k < lookup_path(c, page, key, fuel).len() ==> reaches(c, page, h, #[trigger] lookup_path(c, page, key, fuel)[k]),
        lookup_path(c, page, key, fuel).no_duplicates(),
        searches_part(c, page, key, other, fuel),
    decreases h,
{
    let p = lookup_path(c, page, key, fuel);
    match decoded_node(c[page.0]) {
        Some(NodeView::Internal { keys, children }) => {
            let f1 = (fuel - 1) as nat;
            let h1 = (h - 1) as nat;
            lemma_kids_wf(c, children, h1, children.len());
            lemma_route_exists(keys, key);
            lemma_route_exists(keys, other);
            let r = route(keys, key);
            let ro = route(keys, other);
            let ch = children[r];
            let cho = children[ro];
            assert(wf_tree(c, ch, h1));
            assert(wf_tree(c, cho, h1));
            lemma_wf_search(c, ch, h1, key, other, f1);
            lemma_wf_search(c, cho, h1, other, key, f1);
            let sub = lookup_path(c, ch, key, f1);
            assert(p == seq![page.0] + sub);
            assert forall|k: int| 0 <= k < p.len() implies reaches(c, page, h, #[trigger] p[k]) by {
                lemma_reaches_internal(c, page, h, p[k], keys, children);
                if k > 0 {
                    assert(p[k] == sub[k - 1]);
                    assert(reaches(c, children[r], h1, sub[k - 1]));
                }
            }
            assert(!sub.contains(page.0)) by {
                if sub.contains(page.0) {
                    let q = choose|q: int| 0 <= q < sub.len() && sub[q] == page.0;
                    assert(reaches(c, children[r], h1, sub[q]));
                }
            }
            assert(p.no_duplicates()) by {
                assert forall|a: int, b: int| 0 <= a < p.len() && 0 <= b < p.len() && a != b implies p[a] != p[b] by {
                    if a == 0 {
                        assert(p[b] == sub[b - 1]);
                    } else if b == 0 {
                        assert(p[a] == sub[a - 1]);
                    } else {
                        assert(p[a] == sub[a - 1] && p[b] == sub[b - 1]);
                    }
                }
            }
            if r != ro {
                let so = lookup_path(c, cho, other, f1);
                assert forall|j: int| 0 <= j < so.len() implies !p.contains(#[trigger] so[j]) by {
                    let x = so[j];
                    assert(reaches(c, children[ro], h1, x));
                    if p.contains(x) {
                        let q = choose|q: int| 0 <= q < p.len() && p[q] == x;
                        if q == 0 {
                            assert(x == page.0);
                        } else {
                            assert(p[q] == sub[q - 1]);
                            assert(reaches(c, children[r], h1, x));
                        }
                    }
                }
            }
        },
        _ => {},
    }
}

/// A proper subtree stays proper, over the same pages, in page images that
/// agree with `c` on its pages.
pub proof fn lemma_wf_frame(c: Map<u64, Seq<u8>>, d: Map<u64, Seq<u8>>, page: PageId, h: nat)
    requires
        wf_tree(c, page, h),
        forall|x: u64| #[trigger] reaches(c, page, h, x) ==> d.contains_key(x) && d[x] == c[x],
    ensures
        wf_tree(d, page, h),
        forall|x: u64| #[trigger] reaches(d, page, h, x) == reaches(c, page, h, x),
    decreases h,
{
    assert(reaches(c, page, h, page.0));
    assert(d[page.0] == c[page.0]);
    match decoded_node(c[page.0]) {
        Some(NodeView::Internal { keys, children }) => {
            let h1 = (h - 1) as nat;
            lemma_kids_wf(c, children, h1, children.len());
            assert forall|i: int| 0 <= i < children.len() implies {
                &&& #[trigger] wf_tree(d, children[i], h1)
                &&& forall|x: u64| #[trigger] reaches(d, children[i], h1, x) == reaches(c, children[i], h1, x)
            } by {
                assert(wf_tree(c, children[i], h1));
                assert forall|x: u64| #[trigger] reaches(c, children[i], h1, x) implies d.contains_key(x) && d[x] == c[x] by {
                    lemma_reaches_internal(c, page, h, x, keys, children);
                }
                lemma_wf_frame(c, d, children[i], h1);
            }
            lemma_kids_wf(d, children, h1, children.len());
            assert forall|x: u64| #[trigger] reaches(d, page, h, x) == reaches(c, page, h, x) by {
                lemma_reaches_internal(c, page, h, x, keys, children);
                lemma_reaches_internal(d, page, h, x, keys, children);
                if x != page.0 {
                    if reaches(c, page, h, x) {
                        let i = choose|i: int| 0 <= i < children.len() && #[trigger] reaches(c, children[i], h1, x);
                        assert(wf_tree(d, children[i], h1));
                        assert(reaches(d, children[i], h1, x));
                    }
                    if reaches(d, page, h, x) {
                        let i = choose|i: int| 0 <= i < children.len() && #[trigger] reaches(d, children[i], h1, x);
                        assert(wf_tree(d, children[i], h1));
                        assert(reaches(c, children[i], h1, x));
                    }
                }
            }
            assert forall|i: int, j: int, x: u64| 0 <= i < children.len() && 0 <= j < children.len() && i != j
                && #[trigger] reaches(d, children[i], h1, x) implies !#[trigger] reaches(d, children[j], h1, x) by {
                assert(wf_tree(d, children[i], h1));
                assert(wf_tree(d, children[j], h1));
                assert(reaches(c, children[i], h1, x));
            }
            assert forall|i: int| 0 <= i < children.len() implies !#[trigger] reaches(d, children[i], h1, page.0) by {
                assert(wf_tree(d, children[i], h1));
                assert(!reaches(c, children[i], h1, page.0));
            }
        },
        _ => {},
    }
}

/// Every page of a proper subtree exists.
pub proof fn lemma_wf_reached_exist(c: Map<u64, Seq<u8>>, page: PageId, h: nat, x: u64)
    requires
        wf_tree(c, page, h),
        reaches(c, page, h, x),
    ensures
        c.contains_key(x),
    decreases h,
{
    if x != page.0 {
        match decoded_node(c[page.0]) {
            Some(NodeView::Internal { keys, children }) => {
                let h1 = (h - 1) as nat;
                lemma_reaches_internal(c, page, h, x, keys, children);
                lemma_kids_wf(c, children, h1, children.len());
                let i = choose|i: int| 0 <= i < children.len() && #[trigger] reaches(c, children[i], h1, x);
                assert(wf_tree(c, children[i], h1));
                lemma_wf_reached_exist(c, children[i], h1, x);
            },
            _ => {},
        }
    }
}

/// What an insert into the proper subtree of height `h` under `page` leaves
/// (from page images `c0` of `t0` pages to `c1` of `t1` pages): a proper
/// subtree, and a proper upper half split off beside it if `res` says so,
/// sharing no page, each made of pages of the subtree before or pages the
/// insert added.
spec fn grown_from(c0: Map<u64, Seq<u8>>, t0: nat, c1: Map<u64, Seq<u8>>, t1: nat, page: PageId, h: nat, res: Option<Split>) -> bool {
    &&& wf_tree(c1, page, h)
    &&& forall|x: u64| #[trigger] reaches(c1, page, h, x) ==> (reaches(c0, page, h, x) || (t0 <= x < t1))
    &&& res matches Some(sp) ==> {
        &&& wf_tree(c1, sp.right, h)
        &&& forall|x: u64| #[trigger] reaches(c1, sp.right, h, x) ==> (reaches(c0, page, h, x) || (t0 <= x < t1))
        &&& forall|x: u64| #[trigger] reaches(c1, page, h, x) ==> !reaches(c1, sp.right, h, x)
    }
}

/// The children of an internal node after one child split: the upper half
/// `right` follows the child at `idx`.
spec fn kids_after(children: Seq<PageId>, idx: int, res: Option<Split>) -> Seq<PageId> {
    match res {
        Some(sp) => children.insert(idx + 1, sp.right),
        None => children,
    }
}

/// After the insert into child `idx` of a proper internal node, its
/// children (with the split-off half, if any) head proper subtrees that
/// share no page, and each holds only pages below the node before or pages
/// the insert added.
proof fn lemma_kids_after_child(
    c0: Map<u64, Seq<u8>>,
    t0: nat,
    ca: Map<u64, Seq<u8>>,
    ta: nat,
    page: PageId,
    h: nat,
    keys0: Seq<RowId>,
    children0: Seq<PageId>,
    idx: int,
    res: Option<Split>,
)
    requires
        wf_tree(c0, page, h),
        decoded_node(c0[page.0]) == Some(NodeView::Internal { keys: keys0, children: children0 }),
        0 <= idx < children0.len(),
        forall|id: u64| #[trigger] c0.contains_key(id) <==> id < t0,
        forall|id: u64| #[trigger] ca.contains_key(id) <==> id < ta,
        t0 <= ta,
        forall|id: u64| #![trigger ca[id]] id < t0 && !reaches(c0, children0[idx], (h - 1) as nat, id) ==> ca[id] == c0[id],
        grown_from(c0, t0, ca, ta, children0[idx], (h - 1) as nat, res),
    ensures
        ({
            let kids = kids_after(children0, idx, res);
            let h1 = (h - 1) as nat;
            &&& forall|i: int| 0 <= i < kids.len() ==> #[trigger] wf_tree(ca, kids[i], h1)
            &&& forall|i: int, j: int, x: u64| 0 <= i < kids.len() && 0 <= j < kids.len() && i != j
                && #[trigger] reaches(ca, kids[i], h1, x) ==> !#[trigger] reaches(ca, kids[j], h1, x)
            &&& forall|i: int, x: u64| 0 <= i < kids.len() && #[trigger] reaches(ca, kids[i], h1, x)
                ==> (reaches(c0, page, h, x) && x != page.0) || (t0 <= x < ta)
        }),
{
    let h1 = (h - 1) as nat;
    let kids = kids_after(children0, idx, res);
    let child = children0[idx];
    lemma_kids_wf(c0, children0, h1, children0.len());
    // An untouched child keeps its subtree.
    assert forall|j: int| 0 <= j < children0.len() && j != idx implies {
        &&& #[trigger] wf_tree(ca, children0[j], h1)
        &&& forall|x: u64| #[trigger] reaches(ca, children0[j], h1, x) == reaches(c0, children0[j], h1, x)
    } by {
        assert(wf_tree(c0, children0[j], h1));
        assert forall|x: u64| #[trigger] reaches(c0, children0[j], h1, x) implies ca.contains_key(x) && ca[x] == c0[x] by {
            lemma_wf_reached_exist(c0, children0[j], h1, x);
            assert(!reaches(c0, children0[idx], h1, x));
        }
        lemma_wf_frame(c0, ca, children0[j], h1);
    }
    // Where each new child comes from: an untouched child, or the child
    // that took the insert, or its split-off half.
    let is_new = |i: int| i == idx || (res is Some && i == idx + 1);
    let src = |i: int| if res is Some && i > idx + 1 { i - 1 } else { i };
    assert forall|i: int| 0 <= i < kids.len() && !is_new(i) implies #[trigger] kids[i] == children0[src(i)] && src(i) != idx
        && 0 <= src(i) < children0.len() by {}
    assert forall|i: int| 0 <= i < kids.len() && is_new(i) implies {
        &&& wf_tree(ca, #[trigger] kids[i], h1)
        &&& forall|x: u64| #[trigger] reaches(ca, kids[i], h1, x) ==> (reaches(c0, child, h1, x) || (t0 <= x < ta))
    } by {
        if i == idx {
            assert(kids[i] == child);
        } else {
            assert(kids[i] == res->0.right);
        }
    }
    assert forall|i: int| 0 <= i < kids.len() implies #[trigger] wf_tree(ca, kids[i], h1) by {
        if !is_new(i) {
            assert(wf_tree(ca, children0[src(i)], h1));
        }
    }
    assert forall|i: int, x: u64| 0 <= i < kids.len() && #[trigger] reaches(ca, kids[i], h1, x)
        implies (reaches(c0, page, h, x) && x != page.0) || (t0 <= x < ta) by {
        lemma_reaches_internal(c0, page, h, x, keys0, children0);
        if !is_new(i) {
            assert(wf_tree(ca, children0[src(i)], h1));
            assert(reaches(c0, children0[src(i)], h1, x));
            assert(!reaches(c0, children0[src(i)], h1, page.0));
        } else {
            assert(wf_tree(ca, kids[i], h1));
            if reaches(c0, child, h1, x) {
                assert(!reaches(c0, children0[idx], h1, page.0));
            }
        }
    }
    assert forall|i: int, j: int, x: u64| 0 <= i < kids.len() && 0 <= j < kids.len() && i != j
        && #[trigger] reaches(ca, kids[i], h1, x) implies !#[trigger] reaches(ca, kids[j], h1, x) by {
        if reaches(ca, kids[j], h1, x) {
            if !is_new(i) && !is_new(j) {
                assert(wf_tree(ca, children0[src(i)], h1));
                assert(wf_tree(ca, children0[src(j)], h1));
                assert(reaches(c0, children0[src(i)], h1, x));
                assert(reaches(c0, children0[src(j)], h1, x));
            } else if is_new(i) && is_new(j) {
                assert(wf_tree(ca, kids[i], h1));
                if i == idx {
                    assert(kids[j] == res->0.right);
                    assert(reaches(ca, child, h1, x));
                } else {
                    assert(kids[i] == res->0.right);
                    assert(kids[j] == child);
                }
            } else if is_new(i) {
                assert(wf_tree(ca, kids[i], h1));
                assert(wf_tree(ca, children0[src(j)], h1));
                assert(reaches(c0, children0[src(j)], h1, x));
                lemma_wf_reached_exist(c0, children0[src(j)], h1, x);
                assert(!reaches(c0, children0[idx], h1, x));
            } else {
                assert(wf_tree(ca, kids[j], h1));
                assert(wf_tree(ca, children0[src(i)], h1));
                assert(reaches(c0, children0[src(i)], h1, x));
                lemma_wf_reached_exist(c0, children0[src(i)], h1, x);
                assert(!reaches(c0, children0[idx], h1, x));
            }
        }
    }
}

/// An internal node stored at `page` in `d` over children that head proper,
/// pairwise disjoint subtrees in `ca` (which `d` keeps, and which do not
/// hold `page`) is a proper subtree, made of itself and those subtrees.
proof fn lemma_wf_assemble(
    ca: Map<u64, Seq<u8>>,
    d: Map<u64, Seq<u8>>,
    page: PageId,
    h: nat,
    keys: Seq<RowId>,
    kids: Seq<PageId>,
)
    requires
        h > 0,
        d.contains_key(page.0),
        decoded_node(d[page.0]) == Some(NodeView::Internal { keys, children: kids }),
        kids.len() == keys.len() + 1,
        forall|i: int| 0 <= i < kids.len() ==> #[trigger] wf_tree(ca, kids[i], (h - 1) as nat),
        forall|i: int, j: int, x: u64| 0 <= i < kids.len() && 0 <= j < kids.len() && i != j
            && #[trigger] reaches(ca, kids[i], (h - 1) as nat, x) ==> !#[trigger] reaches(ca, kids[j], (h - 1) as nat, x),
        forall|i: int, x: u64| 0 <= i < kids.len() && #[trigger] reaches(ca, kids[i], (h - 1) as nat, x)
            ==> d.contains_key(x) && d[x] == ca[x] && x != page.0,
    ensures
        wf_tree(d, page, h),
        forall|x: u64| #[trigger] reaches(d, page, h, x)
            == (x == page.0 || exists|i: int| 0 <= i < kids.len() && #[trigger] reaches(ca, kids[i], (h - 1) as nat, x)),
{
    let h1 = (h - 1) as nat;
    assert forall|i: int| 0 <= i < kids.len() implies {
        &&& #[trigger] wf_tree(d, kids[i], h1)
        &&& forall|x: u64| #[trigger] reaches(d, kids[i], h1, x) == reaches(ca, kids[i], h1, x)
    } by {
        assert(wf_tree(ca, kids[i], h1));
        lemma_wf_frame(ca, d, kids[i], h1);
    }
    lemma_kids_wf(d, kids, h1, kids.len());
    assert forall|i: int, j: int, x: u64| 0 <= i < kids.len() && 0 <= j < kids.len() && i != j
        && #[trigger] reaches(d, kids[i], h1, x) implies !#[trigger] reaches(d, kids[j], h1, x) by {
        assert(wf_tree(d, kids[i], h1));
        assert(wf_tree(d, kids[j], h1));
        assert(reaches(ca, kids[i], h1, x));
    }
    assert forall|i: int| 0 <= i < kids.len() implies !#[trigger] reaches(d, kids[i], h1, page.0) by {
        assert(wf_tree(d, kids[i], h1));
        if reaches(ca, kids[i], h1, page.0) {
            assert(page.0 != page.0);
        }
    }
    assert forall|x: u64| #[trigger] reaches(d, page, h, x)
        == (x == page.0 || exists|i: int| 0 <= i < kids.len() && #[trigger] reaches(ca, kids[i], h1, x)) by {
        lemma_reaches_internal(d, page, h, x, keys, kids);
        if exists|i: int| 0 <= i < kids.len() && #[trigger] reaches(d, kids[i], h1, x) {
            let i = choose|i: int| 0 <= i < kids.len() && #[trigger] reaches(d, kids[i], h1, x);
            assert(wf_tree(d, kids[i], h1));
            assert(reaches(ca, kids[i], h1, x));
        }
        if exists|i: int| 0 <= i < kids.len() && #[trigger] reaches(ca, kids[i], h1, x) {
            let i = choose|i: int| 0 <= i < kids.len() && #[trigger] reaches(ca, kids[i], h1, x);
            assert(wf_tree(d, kids[i], h1));
            assert(reaches(d, kids[i], h1, x));
        }
    }
}

/// The proper subtree under an internal node after the insert into its
/// child `idx` (from `c0` to `c1`) and the update of the node itself (from
/// `c1` to `cf`): unchanged when the child did not split, else with the
/// child's upper half recorded in the node, which splits in turn when
/// `res` says so.
proof fn lemma_grown_parent(
    c0: Map<u64, Seq<u8>>,
    t0: nat,
    c1: Map<u64, Seq<u8>>,
    t1: nat,
    cf: Map<u64, Seq<u8>>,
    tf: nat,
    page: PageId,
    h: nat,
    keys0: Seq<RowId>,
    children0: Seq<PageId>,
    idx: int,
    child_res: Option<Split>,
    res: Option<Split>,
)
    requires
        wf_tree(c0, page, h),
        decoded_node(c0[page.0]) == Some(NodeView::Internal { keys: keys0, children: children0 }),
        0 <= idx < children0.len(),
        forall|id: u64| #[trigger] c0.contains_key(id) <==> id < t0,
        forall|id: u64| #[trigger] c1.contains_key(id) <==> id < t1,
        forall|id: u64| #[trigger] cf.contains_key(id) <==> id < tf,
        t0 <= t1 <= tf,
        forall|id: u64| #![trigger c1[id]] id < t0 && !reaches(c0, children0[idx], (h - 1) as nat, id) ==> c1[id] == c0[id],
        grown_from(c0, t0, c1, t1, children0[idx], (h - 1) as nat, child_res),
        child_res is None ==> cf == c1 && tf == t1 && res is None,
        child_res matches Some(split) ==> {
            let keys1 = keys0.insert(idx, split.separator);
            let children1 = children0.insert(idx + 1, split.right);
            let m = (keys1.len() / 2) as int;
            &&& res is None ==> {
                &&& tf == t1
                &&& cf == c1.insert(page.0, cf[page.0])
                &&& decoded_node(cf[page.0]) == Some(NodeView::Internal { keys: keys1, children: children1 })
            }
            &&& res matches Some(sp) ==> {
                &&& sp.right.0 == t1
                &&& tf == t1 + 1
                &&& forall|id: u64| #![trigger cf[id]] id < t1 && id != page.0 ==> cf[id] == c1[id]
                &&& decoded_node(cf[page.0]) == Some(NodeView::Internal { keys: keys1.subrange(0, m), children: children1.subrange(0, m + 1) })
                &&& decoded_node(cf[sp.right.0]) == Some(NodeView::Internal {
                    keys: keys1.subrange(m + 1, keys1.len() as int),
                    children: children1.subrange(m + 1, children1.len() as int),
                })
            }
        },
    ensures
        grown_from(c0, t0, cf, tf, page, h, res),
{
    let h1 = (h - 1) as nat;
    lemma_kids_after_child(c0, t0, c1, t1, page, h, keys0, children0, idx, child_res);
    let kids = kids_after(children0, idx, child_res);
    assert(reaches(c0, page, h, page.0));
    assert(c0.contains_key(page.0));
    assert(!reaches(c0, children0[idx], h1, page.0));
    assert(c1[page.0] == c0[page.0]);
    // Pages below the children exist in `c1` and are not the node's page.
    assert forall|i: int, x: u64| 0 <= i < kids.len() && #[trigger] reaches(c1, kids[i], h1, x) implies c1.contains_key(x) && x != page.0 by {
        assert(wf_tree(c1, kids[i], h1));
        lemma_wf_reached_exist(c1, kids[i], h1, x);
    }
    match child_res {
        None => {
            lemma_wf_assemble(c1, c1, page, h, keys0, children0);
            assert forall|x: u64| #[trigger] reaches(c1, page, h, x) implies (reaches(c0, page, h, x) || (t0 <= x < t1)) by {
                if x != page.0 {
                    let i = choose|i: int| 0 <= i < kids.len() && #[trigger] reaches(c1, kids[i], h1, x);
                }
            }
        },
        Some(split) => {
            let keys1 = keys0.insert(idx, split.separator);
            let children1 = children0.insert(idx + 1, split.right);
            assert(kids == children1);
            match res {
                None => {
                    lemma_wf_assemble(c1, cf, page, h, keys1, children1);
                    assert forall|x: u64| #[trigger] reaches(cf, page, h, x) implies (reaches(c0, page, h, x) || (t0 <= x < tf)) by {
                        if x != page.0 {
                            let i = choose|i: int| 0 <= i < kids.len() && #[trigger] reaches(c1, kids[i], h1, x);
                        }
                    }
                },
                Some(sp) => {
                    let m = (keys1.len() / 2) as int;
                    let lk = keys1.subrange(0, m);
                    let lc = children1.subrange(0, m + 1);
                    let rk = keys1.subrange(m + 1, keys1.len() as int);
                    let rc = children1.subrange(m + 1, children1.len() as int);
                    assert forall|i: int| 0 <= i < lc.len() implies #[trigger] lc[i] == children1[i] by {}
                    assert forall|i: int| 0 <= i < rc.len() implies #[trigger] rc[i] == children1[i + m + 1] by {}
                    assert forall|i: int| 0 <= i < lc.len() implies #[trigger] wf_tree(c1, lc[i], h1) by {
                        assert(wf_tree(c1, kids[i], h1));
                    }
                    assert forall|i: int, j: int, x: u64| 0 <= i < lc.len() && 0 <= j < lc.len() && i != j
                        && #[trigger] reaches(c1, lc[i], h1, x) implies !#[trigger] reaches(c1, lc[j], h1, x) by {
                        assert(reaches(c1, kids[i], h1, x));
                        assert(lc[j] == kids[j]);
                    }
                    assert forall|i: int, x: u64| 0 <= i < lc.len() && #[trigger] reaches(c1, lc[i], h1, x)
                        implies cf.contains_key(x) && cf[x] == c1[x] && x != page.0 by {
                        assert(reaches(c1, kids[i], h1, x));
                    }
                    lemma_wf_assemble(c1, cf, page, h, lk, lc);
                    assert forall|i: int| 0 <= i < rc.len() implies #[trigger] wf_tree(c1, rc[i], h1) by {
                        assert(wf_tree(c1, kids[i + m + 1], h1));
                    }
                    assert forall|i: int, j: int, x: u64| 0 <= i < rc.len() && 0 <= j < rc.len() && i != j
                        && #[trigger] reaches(c1, rc[i], h1, x) implies !#[trigger] reaches(c1, rc[j], h1, x) by {
                        assert(reaches(c1, kids[i + m + 1], h1, x));
                        assert(rc[j] == kids[j + m + 1]);
                    }
                    assert forall|i: int, x: u64| 0 <= i < rc.len() && #[trigger] reaches(c1, rc[i], h1, x)
                        implies cf.contains_key(x) && cf[x] == c1[x] && x != sp.right.0 by {
                        assert(reaches(c1, kids[i + m + 1], h1, x));
                    }
                    lemma_wf_assemble(c1, cf, sp.right, h, rk, rc);
                    assert forall|x: u64| #[trigger] reaches(cf, page, h, x) implies (reaches(c0, page, h, x) || (t0 <= x < tf)) by {
                        if x != page.0 {
                            let i = choose|i: int| 0 <= i < lc.len() && #[trigger] reaches(c1, lc[i], h1, x);
                            assert(reaches(c1, kids[i], h1, x));
                        }
                    }
                    assert forall|x: u64| #[trigger] reaches(cf, sp.right, h, x) implies (reaches(c0, page, h, x) || (t0 <= x < tf)) by {
                        if x != sp.right.0 {
                            let i = choose|i: int| 0 <= i < rc.len() && #[trigger] reaches(c1, rc[i], h1, x);
                            assert(reaches(c1, kids[i + m + 1], h1, x));
                        }
                    }
                    assert forall|x: u64| #[trigger] reaches(cf, page, h, x) implies !reaches(cf, sp.right, h, x) by {
                        if reaches(cf, sp.right, h, x) {
                            if x == page.0 {
                                if x != sp.right.0 {
                                    let j = choose|j: int| 0 <= j < rc.len() && #[trigger] reaches(c1, rc[j], h1, x);
                                    assert(reaches(c1, kids[j + m + 1], h1, x));
                                }
                            } else {
                                let i = choose|i: int| 0 <= i < lc.len() && #[trigger] reaches(c1, lc[i], h1, x);
                                assert(reaches(c1, kids[i], h1, x));
                                if x != sp.right.0 {
                                    let j = choose|j: int| 0 <= j < rc.len() && #[trigger] reaches(c1, rc[j], h1, x);
                                    assert(reaches(c1, kids[j + m + 1], h1, x));
                                }
                            }
                        }
                    }
                },
            }
        },
    }
}

/// The shape clause of `insert_recursive` for an internal node, from the
/// same clause of the recursive insert into the child that `key` routes to
/// and what recording its split (if any) did to the node.
proof fn lemma_grown_after_child(
    c0: Map<u64, Seq<u8>>,
    t0: nat,
    c1: Map<u64, Seq<u8>>,
    t1: nat,
    cf: Map<u64, Seq<u8>>,
    tf: nat,
    page: PageId,
    keys0: Seq<RowId>,
    children0: Seq<PageId>,
    idx: int,
    key: RowId,
    fuel: nat,
    child_res: Option<Split>,
    res: Option<Split>,
)
    requires
        fuel >= 1,
        c0.contains_key(page.0),
        decoded_node(c0[page.0]) == Some(NodeView::Internal { keys: keys0, children: children0 }),
        routes_to(keys0, key, idx),
        forall|id: u64| #[trigger] c0.contains_key(id) <==> id < t0,
        forall|id: u64| #[trigger] c1.contains_key(id) <==> id < t1,
        forall|id: u64| #[trigger] cf.contains_key(id) <==> id < tf,
        t0 <= t1 <= tf,
        forall|id: u64| #![trigger c1[id]] id < t0 && !lookup_path(c0, children0[idx], key, (fuel - 1) as nat).contains(id) ==> c1[id] == c0[id],
        forall|h: nat| #[trigger] wf_tree(c0, children0[idx], h) ==> h < fuel - 1
            && grown_from(c0, t0, c1, t1, children0[idx], h, child_res),
        child_res is None ==> cf == c1 && tf == t1 && res is None,
        child_res matches Some(split) ==> {
            let keys1 = keys0.insert(idx, split.separator);
            let children1 = children0.insert(idx + 1, split.right);
            let m = (keys1.len() / 2) as int;
            &&& res is None ==> {
                &&& tf == t1
                &&& cf == c1.insert(page.0, cf[page.0])
                &&& decoded_node(cf[page.0]) == Some(NodeView::Internal { keys: keys1, children: children1 })
            }
            &&& res matches Some(sp) ==> {
                &&& sp.right.0 == t1
                &&& tf == t1 + 1
                &&& forall|id: u64| #![trigger cf[id]] id < t1 && id != page.0 ==> cf[id] == c1[id]
                &&& decoded_node(cf[page.0]) == Some(NodeView::Internal { keys: keys1.subrange(0, m), children: children1.subrange(0, m + 1) })
                &&& decoded_node(cf[sp.right.0]) == Some(NodeView::Internal {
                    keys: keys1.subrange(m + 1, keys1.len() as int),
                    children: children1.subrange(m + 1, children1.len() as int),
                })
            }
        },
    ensures
        forall|h: nat| #[trigger] wf_tree(c0, page, h) ==> h < fuel && grown_from(c0, t0, cf, tf, page, h, res),
{
    assert forall|h: nat| #[trigger] wf_tree(c0, page, h) implies h < fuel && grown_from(c0, t0, cf, tf, page, h, res) by {
        let h1 = (h - 1) as nat;
        let child = children0[idx];
        lemma_kids_wf(c0, children0, h1, children0.len());
        assert(wf_tree(c0, child, h1));
        lemma_wf_search(c0, child, h1, key, key, (fuel - 1) as nat);
        let p = lookup_path(c0, child, key, (fuel - 1) as nat);
        assert forall|id: u64| #![trigger c1[id]] id < t0 && !reaches(c0, child, h1, id) implies c1[id] == c0[id] by {
            if p.contains(id) {
                let q = choose|q: int| 0 <= q < p.len() && p[q] == id;
                assert(reaches(c0, child, h1, p[q]));
            }
        }
        lemma_grown_parent(c0, t0, c1, t1, cf, tf, page, h, keys0, children0, idx, child_res, res);
    }
}

/// A proper tree in a page file of at most `u64::MAX` pages is shallower
/// than the page count, so every search from its root reaches a leaf within
/// `MAX_DESCENT` pages.
pub proof fn lemma_wf_lookup_found(c: Map<u64, Seq<u8>>, root: PageId, h: nat, key: RowId, total: nat)
    requires
        wf_tree(c, root, h),
        forall|id: u64| #[trigger] c.contains_key(id) ==> id < total,
        total <= u64::MAX,
    ensures
        h < total,
        tree_lookup(c, root, key, MAX_DESCENT as nat) is Some,
{
    lemma_wf_search(c, root, h, key, key, h + 1);
    let p = lookup_path(c, root, key, h + 1);
    assert forall|i: int| 0 <= i < p.len() implies (#[trigger] p[i]) < total by {
        lemma_wf_reached_exist(c, root, h, p[i]);
    }
    lemma_distinct_below(p, total);
    lemma_wf_search(c, root, h, key, key, MAX_DESCENT as nat);
}

/// Position of `key` among strictly increasing `keys`: `Ok(i)` where it
/// stands, else `Err(i)` where it would be inserted.
fn search(keys: &Vec<RowId>, key: RowId) -> (r: Result<usize, usize>)
    requires
        keys_strictly_sorted(keys@),
    ensures
        match r {
            Ok(i) => i < keys@.len() && keys@[i as int] == key,
            Err(i) => {
                &&& i <= keys@.len()
                &&& forall|j: int| 0 <= j < i ==> (#[trigger] keys@[j]).0 < key.0
                &&& forall|j: int| i <= j < keys@.len() ==> key.0 < (#[trigger] keys@[j]).0
            },
        },
{
    let mut lo: usize = 0;
    let mut hi: usize = keys.len();
    while lo < hi
        invariant
            lo <= hi <= keys@.len(),
            keys_strictly_sorted(keys@),
            forall|j: int| 0 <= j < lo ==> (#[trigger] keys@[j]).0 < key.0,
            forall|j: int| hi <= j < keys@.len() ==> key.0 < (#[trigger] keys@[j]).0,
        decreases hi - lo,
    {
        let mid = lo + (hi - lo) / 2;
        let k = keys[mid].0;
        if k == key.0 {
            assert(keys@[mid as int] == key);
            return Ok(mid);
        } else if k < key.0 {
            assert forall|j: int| 0 <= j < mid + 1 implies (#[trigger] keys@[j]).0 < key.0 by {
                if j < mid {
                    assert(keys@[j].0 < keys@[mid as int].0);
                }
            }
            lo = mid + 1;
        } else {
            assert forall|j: int| mid <= j < keys@.len() implies key.0 < (#[trigger] keys@[j]).0 by {
                if j > mid {
                    assert(keys@[mid as int].0 < keys@[j].0);
                }
            }
            hi = mid;
        }
    }
    Err(lo)
}

/// The child a search for `key` follows among separator `keys`.
fn child_index(keys: &Vec<RowId>, key: RowId) -> (r: usize)
    ensures
        routes_to(keys@, key, r as int),
{
    let mut idx: usize = 0;
    while idx < keys.len() && key.0 >= keys[idx].0
        invariant
            idx <= keys@.len(),
            forall|j: int| 0 <= j < idx ==> (#[trigger] keys@[j]).0 <= key.0,
        decreases keys@.len() - idx,
    {
        idx = idx + 1;
    }
    idx
}

/// `v` with `x` appended.
pub(crate) fn extended(v: &Vec<u64>, x: u64) -> (r: Vec<u64>)
    ensures
        r@ == v@.push(x),
{
    let mut out: Vec<u64> = Vec::new();
    let mut i: usize = 0;
    while i < v.len()
        invariant
            i <= v@.len(),
            out@ == v@.subrange(0, i as int),
        decreases v@.len() - i,
    {
        out.push(v[i]);
        i = i + 1;
        assert(out@ =~= v@.subrange(0, i as int));
    }
    out.push(x);
    assert(out@ =~= v@.push(x));
    out
}

/// Whether `v` holds `x`.
pub(crate) fn holds(v: &Vec<u64>, x: u64) -> (r: bool)
    ensures
        r == v@.contains(x),
{
    let mut i: usize = 0;
    while i < v.len()
        invariant
            i <= v@.len(),
            forall|j: int| 0 <= j < i ==> v@[j] != x,
        decreases v@.len() - i,
    {
        if v[i] == x {
            assert(v@[i as int] == x);
            return true;
        }
        i = i + 1;
    }
    false
}

/// After an internal node at `page` is rewritten (in `d`) with the
/// separator and upper half of its split child, a search for `other` from
/// it continues where it continued before, through pages that are
/// unchanged: `d` differs from `c` only at `w1` and `w2`, which the rest of
/// the search does not visit.
proof fn lemma_other_through_rewrite(
    c: Map<u64, Seq<u8>>,
    d: Map<u64, Seq<u8>>,
    page: PageId,
    keys: Seq<RowId>,
    children: Seq<PageId>,
    q: int,
    t2: PageId,
    other: RowId,
    fuel: nat,
    ancestors: Seq<u64>,
    w1: u64,
    w2: u64,
)
    requires
        fuel >= 1,
        d.contains_key(page.0),
        decoded_node(d[page.0]) == Some(NodeView::Internal { keys, children }),
        routes_to(keys, other, q),
        children[q] == t2,
        tree_lookup(c, t2, other, (fuel - 1) as nat) is Some,
        forall|id: u64| #[trigger] c.contains_key(id) ==> d.contains_key(id) && (id != w1 && id != w2 ==> d[id] == c[id]),
        !lookup_path(c, t2, other, (fuel - 1) as nat).contains(w1),
        !lookup_path(c, t2, other, (fuel - 1) as nat).contains(w2),
        forall|k: int| 0 <= k < ancestors.len() ==> !lookup_path(c, t2, other, (fuel - 1) as nat).contains(#[trigger] ancestors[k]),
        !ancestors.contains(page.0),
    ensures
        tree_lookup(d, page, other, fuel) == tree_lookup(c, t2, other, (fuel - 1) as nat),
        forall|k: int| 0 <= k < ancestors.len() ==> !lookup_path(d, page, other, fuel).contains(#[trigger] ancestors[k]),
{
    let f1 = (fuel - 1) as nat;
    lemma_lookup_through(d, page, keys, children, other, fuel, q, t2);
    lemma_lookup_path_exists(c, t2, other, f1);
    let po = lookup_path(c, t2, other, f1);
    assert forall|j: int| #![trigger po[j]] 0 <= j < po.len() implies {
        &&& c.contains_key(po[j]) == d.contains_key(po[j])
        &&& d[po[j]] == c[po[j]]
    } by {
        assert(c.contains_key(po[j]));
        assert(po[j] != w1);
        assert(po[j] != w2);
    }
    lemma_lookup_agree(c, d, t2, other, f1);
    assert(lookup_path(d, page, other, fuel) == seq![page.0] + po);
    assert forall|k: int| 0 <= k < ancestors.len() implies !lookup_path(d, page, other, fuel).contains(#[trigger] ancestors[k]) by {
        assert(!po.contains(ancestors[k]));
        if lookup_path(d, page, other, fuel).contains(ancestors[k]) {
            let i = choose|i: int| 0 <= i < lookup_path(d, page, other, fuel).len() && lookup_path(d, page, other, fuel)[i] == ancestors[k];
            if i == 0 {
                assert(ancestors[k] == page.0);
            } else {
                assert(po[i - 1] == ancestors[k]);
            }
        }
    }
}

/// After the insertion into the child that a search for `key` follows, a
/// search for `other` that the insertion leaves alone continues, from the
/// child it follows (or from where that child's insertion put it), as it did
/// before, through none of the pages above.
proof fn lemma_after_child_insert(
    c0: Map<u64, Seq<u8>>,
    c1: Map<u64, Seq<u8>>,
    page: PageId,
    keys: Seq<RowId>,
    children: Seq<PageId>,
    child_idx: int,
    key: RowId,
    other: RowId,
    fuel: nat,
    ancestors: Seq<u64>,
    below: Seq<u64>,
    res_target: PageId,
    total0: nat,
)
    requires
        fuel >= 1,
        c0.contains_key(page.0),
        decoded_node(c0[page.0]) == Some(NodeView::Internal { keys, children }),
        routes_to(keys, key, child_idx),
        below == ancestors.push(page.0),
        clear_of_insert(c0, page, key, other, fuel, ancestors),
        forall|id: u64| #[trigger] c0.contains_key(id) <==> id < total0,
        forall|id: u64| id < total0 ==> #[trigger] c1.contains_key(id),
        forall|id: u64| #![trigger c1[id]] id < total0 && !lookup_path(c0, children[child_idx], key, (fuel - 1) as nat).contains(id) ==> c1[id] == c0[id],
        clear_of_insert(c0, children[child_idx], key, other, (fuel - 1) as nat, below) ==> {
            &&& tree_lookup(c1, res_target, other, (fuel - 1) as nat) == tree_lookup(c0, children[child_idx], other, (fuel - 1) as nat)
            &&& forall|k: int| 0 <= k < below.len() ==> !lookup_path(c1, res_target, other, (fuel - 1) as nat).contains(#[trigger] below[k])
        },
    ensures
        ({
            let r2 = route(keys, other);
            let t2 = if r2 == child_idx { res_target } else { children[r2] };
            &&& routes_to(keys, other, r2)
            &&& tree_lookup(c1, t2, other, (fuel - 1) as nat) == tree_lookup(c0, page, other, fuel)
            &&& forall|k: int| 0 <= k < below.len() ==> !lookup_path(c1, t2, other, (fuel - 1) as nat).contains(#[trigger] below[k])
        }),
{
    let f1 = (fuel - 1) as nat;
    lemma_route_exists(keys, other);
    lemma_route(keys, key, child_idx);
    let r2 = route(keys, other);
    let c2 = children[r2];
    lemma_lookup_through(c0, page, keys, children, other, fuel, r2, c2);
    lemma_path_tail(c0, page, other, fuel, keys, children);
    lemma_path_tail(c0, page, key, fuel, keys, children);
    let sub = lookup_path(c0, c2, other, f1);
    assert forall|k: int| 0 <= k < below.len() implies !sub.contains(#[trigger] below[k]) by {
        if k < ancestors.len() {
            assert(below[k] == ancestors[k]);
            if sub.contains(ancestors[k]) {
                assert(lookup_path(c0, page, other, fuel).contains(ancestors[k]));
            }
        } else {
            assert(below[k] == page.0);
        }
    }
    if r2 == child_idx {
        assert(clear_of_insert(c0, children[child_idx], key, other, f1, below));
    } else {
        lemma_lookup_path_exists(c0, c2, other, f1);
        assert forall|j: int| #![trigger sub[j]] 0 <= j < sub.len() implies {
            &&& c0.contains_key(sub[j]) == c1.contains_key(sub[j])
            &&& c1[sub[j]] == c0[sub[j]]
        } by {
            assert(c0.contains_key(sub[j]));
            assert(!lookup_path(c0, page, key, fuel).contains(sub[j]));
            if lookup_path(c0, children[child_idx], key, f1).contains(sub[j]) {
                assert(lookup_path(c0, page, key, fuel).contains(sub[j]));
            }
        }
        lemma_lookup_agree(c0, c1, c2, other, f1);
    }
}

/// Where an insertion that overflowed a node put its upper half.
struct Split {
    separator: RowId,
    right: PageId,
}

/// The page where a search for `key` continues after an insertion into
/// `page` that returned `res`.
spec fn split_target(res: Option<Split>, page: PageId, key: RowId) -> PageId {
    match res {
        Some(sp) => if key.0 < sp.separator.0 { page } else { sp.right },
        None => page,
    }
}

/// `i` lies after every key of `keys` smaller than `key` and before every
/// larger one, and `keys` holds no `key`.
pub open spec fn slot_fits(keys: Seq<RowId>, key: RowId, i: int) -> bool {
    &&& 0 <= i <= keys.len()
    &&& forall|j: int| 0 <= j < i ==> (#[trigger] keys[j]).0 < key.0
    &&& forall|j: int| i <= j < keys.len() ==> key.0 < (#[trigger] keys[j]).0
}

/// Where `key`, which the strictly ascending `keys` do not hold, goes among
/// them (see `slot_fits`).
pub open spec fn leaf_slot(keys: Seq<RowId>, key: RowId) -> int {
    choose|i: int| slot_fits(keys, key, i)
}

/// The keys of a leaf holding `keys` after `key` is put in: unchanged when
/// it is there already, else with `key` inserted in order.
pub open spec fn leaf_put_keys(keys: Seq<RowId>, key: RowId) -> Seq<RowId> {
    if keys.contains(key) {
        keys
    } else {
        keys.insert(leaf_slot(keys, key), key)
    }
}

/// The locations of a leaf after `key -> value` is put in: the location of
/// `key` replaced when the leaf holds it, else `value` inserted beside it.
pub open spec fn leaf_put_values(keys: Seq<RowId>, values: Seq<RowLocation>, key: RowId, value: RowLocation) -> Seq<RowLocation> {
    if keys.contains(key) {
        values.update(choose|i: int| 0 <= i < keys.len() && keys[i] == key, value)
    } else {
        values.insert(leaf_slot(keys, key), value)
    }
}

/// What putting `key -> value` into the leaf at `page`, which held `keys`,
/// `values` and sibling `next` in a file of `t0` pages, left in the page
/// images `c1` of `t1` pages, having returned `res`. The entries after the
/// put stay on the page when they are at most `MAX_LEAF_ENTRIES` and no page
/// is added (so a replace never allocates). Otherwise the lower half stays,
/// linked to a fresh page at the end of the file that takes the upper half
/// and the old sibling; the separator is the first key of the upper half,
/// above every key of the lower half.
spec fn leaf_put_done(
    t0: nat,
    c1: Map<u64, Seq<u8>>,
    t1: nat,
    page: PageId,
    keys: Seq<RowId>,
    values: Seq<RowLocation>,
    next: Option<PageId>,
    key: RowId,
    value: RowLocation,
    res: Option<Split>,
) -> bool {
    let lk = leaf_put_keys(keys, key);
    let lv = leaf_put_values(keys, values, key, value);
    let m = (lk.len() / 2) as int;
    if lk.len() <= MAX_LEAF_ENTRIES {
        &&& res is None
        &&& t1 == t0
        &&& decoded_node(c1[page.0]) == Some(stored_node(NodeView::Leaf { keys: lk, values: lv, next }))
    } else {
        &&& res is Some
        &&& res->0.right.0 == t0
        &&& t1 == t0 + 1
        &&& res->0.separator == lk[m]
        &&& forall|j: int| 0 <= j < m ==> (#[trigger] lk[j]).0 < lk[m].0
        &&& decoded_node(c1[page.0]) == Some(stored_node(NodeView::Leaf {
            keys: lk.subrange(0, m),
            values: lv.subrange(0, m),
            next: Some(res->0.right),
        }))
        &&& decoded_node(c1[res->0.right.0]) == Some(stored_node(NodeView::Leaf {
            keys: lk.subrange(m, lk.len() as int),
            values: lv.subrange(m, lk.len() as int),
            next,
        }))
    }
}

/// Every page of `c1` that is new or changed since `c0` holds a node within
/// the fanout and in key order (see `node_valid`), stamped with `lsn`.
pub open spec fn written_since(c0: Map<u64, Seq<u8>>, c1: Map<u64, Seq<u8>>, lsn: Lsn) -> bool {
    forall|id: u64| #[trigger] c1.contains_key(id) && !(c0.contains_key(id) && c1[id] == c0[id]) ==> {
        &&& hdr_lsn(c1[id]) == lsn.0
        &&& decoded_node(c1[id]) is Some
        &&& node_valid(decoded_node(c1[id])->0)
    }
}

/// Writing in two steps, each stamping with `lsn`, stamps with `lsn`.
pub proof fn lemma_written_trans(c0: Map<u64, Seq<u8>>, c1: Map<u64, Seq<u8>>, c2: Map<u64, Seq<u8>>, lsn: Lsn)
    requires
        written_since(c0, c1, lsn),
        written_since(c1, c2, lsn),
    ensures
        written_since(c0, c2, lsn),
{
    assert forall|id: u64| #[trigger] c2.contains_key(id) && !(c0.contains_key(id) && c2[id] == c0[id]) implies {
        &&& hdr_lsn(c2[id]) == lsn.0
        &&& decoded_node(c2[id]) is Some
        &&& node_valid(decoded_node(c2[id])->0)
    } by {
        if c1.contains_key(id) && c2[id] == c1[id] {
            assert(c1.contains_key(id));
        }
    }
}

/// The slot of a key missing from strictly ascending keys is the one place
/// between the smaller and the larger keys.
pub proof fn lemma_leaf_slot(keys: Seq<RowId>, key: RowId, i: int)
    requires
        slot_fits(keys, key, i),
    ensures
        leaf_slot(keys, key) == i,
        !keys.contains(key),
{
    let c = leaf_slot(keys, key);
    assert(slot_fits(keys, key, c));
    if c < i {
        assert(keys[c].0 < key.0);
    } else if i < c {
        assert(keys[i].0 < key.0);
    }
    if keys.contains(key) {
        let j = choose|j: int| 0 <= j < keys.len() && keys[j] == key;
        if j < i {
            assert(keys[j].0 < key.0);
        } else {
            assert(key.0 < keys[j].0);
        }
    }
}

/// A key of strictly ascending keys sits at one index only.
pub proof fn lemma_key_index(keys: Seq<RowId>, key: RowId, i: int)
    requires
        keys_strictly_sorted(keys),
        0 <= i < keys.len(),
        keys[i] == key,
    ensures
        keys.contains(key),
        (choose|j: int| 0 <= j < keys.len() && keys[j] == key) == i,
{
    assert(keys[i] == key);
    let c = choose|j: int| 0 <= j < keys.len() && keys[j] == key;
    assert(0 <= c < keys.len() && keys[c] == key);
    if c < i {
        assert(keys[c].0 < keys[i].0);
    } else if i < c {
        assert(keys[i].0 < keys[c].0);
    }
}

/// Implements the persistent primary B+Tree mapping RowId keys to heap
/// RowLocation values.
pub struct BTree<S: PageStore> {
    pool: BufferPool<S>,
    root: PageId,
}

impl<S: PageStore> BTree<S> {
    /// The page images of the tree's page file.
    pub closed spec fn content(&self) -> Map<u64, Seq<u8>> {
        self.pool.content()
    }

    /// The page that holds the root node.
    pub closed spec fn root_page(&self) -> PageId {
        self.root
    }

    /// The number of pages in the page file.
    pub closed spec fn page_total(&self) -> nat {
        self.pool.stored().len()
    }

    /// The page store holds what the tree's pages contain: nothing is
    /// waiting in the buffer pool to be written.
    pub closed spec fn durable(&self) -> bool {
        self.pool.persisted()
    }

    /// Page `id` is held in the buffer pool, so that reading or writing it
    /// does not reach the page store.
    pub closed spec fn cached(&self, id: u64) -> bool {
        self.pool.cached(id)
    }

    /// The buffer pool under the tree is consistent.
    pub closed spec fn inv(&self) -> bool {
        self.pool.inv()
    }

    /// The pages with content are exactly the pages of the page file.
    pub proof fn lemma_content_dom(&self)
        ensures
            forall|id: u64| #[trigger] self.content().contains_key(id) <==> id < self.page_total(),
    {
        self.pool.lemma_content_dom();
    }

    /// What a search for `key` from the root finds (see `tree_lookup`).
    pub open spec fn lookup(&self, key: RowId) -> Option<Option<RowLocation>> {
        tree_lookup(self.content(), self.root_page(), key, MAX_DESCENT as nat)
    }

    /// An insert of `key` leaves the search for `other` alone: `other` is a
    /// different key whose search from the root ends at a leaf (holding it
    /// or not), that search visits no page twice, and once it parts from the
    /// search for `key` it meets none of that search's pages again. Of a well-formed
    /// tree (see `well_formed`) the insert shows every other key unchanged
    /// outright.
    pub open spec fn untouched_by_insert(&self, key: RowId, other: RowId) -> bool {
        clear_of_insert(self.content(), self.root_page(), key, other, (MAX_DESCENT - 1) as nat, Seq::empty())
    }

    /// The page file holds a proper B+Tree under the root (see `wf_tree`).
    /// `create` makes one, and every insert keeps it so.
    pub open spec fn well_formed(&self) -> bool {
        exists|h: nat| #[trigger] wf_tree(self.content(), self.root_page(), h)
    }

    /// Every page a search for `key` from the root visits is cached, so the
    /// search needs no page store.
    pub open spec fn search_cached(&self, key: RowId) -> bool {
        let p = lookup_path(self.content(), self.root_page(), key, MAX_DESCENT as nat);
        forall|k: int| 0 <= k < p.len() ==> self.cached(#[trigger] p[k])
    }

    /// An insert of `key` needs neither the page store nor a split: the
    /// search for `key` from the root reaches a leaf that holds `key` or has
    /// room for it, visits no page twice, and every page it visits is cached.
    pub open spec fn fits_in_place(&self, key: RowId) -> bool {
        let p = lookup_path(self.content(), self.root_page(), key, (MAX_DESCENT - 1) as nat);
        &&& leaf_has_room(self.content(), self.root_page(), key, (MAX_DESCENT - 1) as nat)
        &&& p.no_duplicates()
        &&& forall|k: int| 0 <= k < p.len() ==> self.cached(#[trigger] p[k])
    }

    /// Opens a tree whose root node is stored at `root`.
    pub fn with_root(pool: BufferPool<S>, root: PageId) -> (r: Self)
        requires
            pool.inv(),
        ensures
            r.inv(),
            r.content() == pool.content(),
            r.root_page() == root,
            r.page_total() == pool.stored().len(),
    {
        Self { pool, root }
    }

    /// Creates an empty tree: allocates a leaf page for the root, writes the
    /// empty leaf into it and flushes the pool. The caller records the root
    /// page in the tree's metadata.
    pub fn create(pool: BufferPool<S>) -> (r: Result<Self, BTreeError>)
        requires
            pool.inv(),
        ensures
            r matches Ok(t) ==> {
                &&& t.inv()
                &&& t.root_page().0 == pool.stored().len()
                &&& forall|key: RowId| #[trigger] t.lookup(key) == Some(None::<RowLocation>)
                &&& t.well_formed()
                &&& t.durable()
            },
            r matches Err(e) ==> e is Buffer,
    {
        let mut pool = pool;
        let root = match pool.allocate_page(PageKind::BTreeLeaf) {
            Ok(id) => id,
            Err(e) => return Err(BTreeError::Buffer(e)),
        };
        let mut tree = Self { pool, root };
        let empty = Node::Leaf(LeafNode::empty());
        tree.store_node(root, &empty, Lsn(0))?;
        let ghost c = tree.content();
        match tree.pool.flush_all() {
            Ok(()) => {},
            Err(e) => return Err(BTreeError::Buffer(e)),
        }
        proof {
            assert forall|key: RowId| #[trigger] tree.lookup(key) == Some(None::<RowLocation>) by {
                assert(decoded_node(c[root.0]) == Some(stored_node(empty@)));
            }
            assert(wf_tree(tree.content(), tree.root_page(), 0));
        }
        Ok(tree)
    }

    /// Returns the page number of the root node.
    pub fn root_page_id(&self) -> (r: PageId)
        ensures
            r == self.root_page(),
    {
        self.root
    }

    /// Writes `node` into page `page_id`, stamped with `lsn`.
    fn store_node(&mut self, page_id: PageId, node: &Node, lsn: Lsn) -> (r: Result<(), BTreeError>)
        requires
            old(self).inv(),
        ensures
            final(self).inv(),
            final(self).root_page() == old(self).root_page(),
            r is Ok ==> {
                &&& final(self).page_total() == old(self).page_total()
                &&& node_valid(node@)
                &&& old(self).content().contains_key(page_id.0)
                &&& final(self).content() == old(self).content().insert(page_id.0, final(self).content()[page_id.0])
                &&& decoded_node(final(self).content()[page_id.0]) == Some(stored_node(node@))
            },
            node_valid(node@) && old(self).cached(page_id.0) ==> r is Ok,
            r is Ok ==> hdr_lsn(final(self).content()[page_id.0]) == lsn.0
                && written_since(old(self).content(), final(self).content(), lsn),
    {
        let mut page = match self.pool.read(page_id) {
            Ok(p) => p,
            Err(e) => return Err(BTreeError::Buffer(e)),
        };
        let ghost read_image = page@;
        page.set_page_lsn(lsn);
        let ghost before = page@;
        encode_node(&mut page, node)?;
        proof {
            lemma_lsn_after_kind(read_image, lsn.0, node_kind_tag(node@), page@);
            lemma_sealed_keeps_lsn(page@);
            lemma_le_roundtrip();
            let t = node_kind_tag(node@);
            lemma_splice_subrange(before, 4, le16(t), 4, 6);
            assert(page@.subrange(4, 6) == page@.subrange(0, PAGE_HEADER_SIZE as int).subrange(4, 6));
            assert(splice(before, 4, le16(t)).subrange(4, 6) == splice(before, 4, le16(t)).subrange(0, PAGE_HEADER_SIZE as int).subrange(4, 6));
            assert(hdr_kind(page@) == t);
            lemma_node_codec_stored(page@, node@);
            lemma_decoded_node_sealed(page@);
        }
        match self.pool.write(page) {
            Ok(()) => Ok(()),
            Err(e) => Err(BTreeError::Buffer(e)),
        }
    }

    /// Inserts or replaces the location of `key`.
    pub fn insert(&mut self, key: RowId, value: RowLocation) -> (r: Result<Option<PageId>, BTreeError>)
        requires
            old(self).inv(),
        ensures
            final(self).inv(),
            old(self).fits_in_place(key) ==> r matches Ok(None),
            r is Ok ==> written_since(old(self).content(), final(self).content(), Lsn(0)),
            r matches Ok(new_root) ==> {
                &&& final(self).lookup(key) == Some(Some(value))
                &&& forall|other: RowId| #![trigger final(self).lookup(other)]
                    old(self).untouched_by_insert(key, other) ==> final(self).lookup(other) == old(self).lookup(other)
                &&& old(self).well_formed() ==> final(self).well_formed()
                &&& old(self).well_formed() ==> forall|other: RowId| #![trigger final(self).lookup(other)]
                    other != key ==> final(self).lookup(other) == old(self).lookup(other)
                &&& final(self).page_total() >= old(self).page_total()
                &&& match new_root {
                    Some(p) => final(self).root_page() == p && p.0 >= old(self).page_total(),
                    None => final(self).root_page() == old(self).root_page(),
                }
            },
    {
        self.insert_at_lsn(key, value, Lsn(0))
    }

    /// Inserts or replaces the location of `key` and stamps the changed
    /// pages with `lsn`. When the root splits, a new root is allocated above
    /// it, the pool is flushed, and the new root page is returned for the
    /// caller to record in the tree's metadata.
    #[verifier::spinoff_prover]
    pub fn insert_at_lsn(&mut self, key: RowId, value: RowLocation, lsn: Lsn) -> (r: Result<Option<PageId>, BTreeError>)
        requires
            old(self).inv(),
        ensures
            final(self).inv(),
            old(self).fits_in_place(key) ==> r matches Ok(None),
            r is Ok ==> written_since(old(self).content(), final(self).content(), lsn),
            r matches Ok(new_root) ==> {
                &&& final(self).lookup(key) == Some(Some(value))
                &&& forall|other: RowId| #![trigger final(self).lookup(other)]
                    old(self).untouched_by_insert(key, other) ==> final(self).lookup(other) == old(self).lookup(other)
                &&& old(self).well_formed() ==> final(self).well_formed()
                &&& old(self).well_formed() ==> forall|other: RowId| #![trigger final(self).lookup(other)]
                    other != key ==> final(self).lookup(other) == old(self).lookup(other)
                &&& final(self).page_total() >= old(self).page_total()
                &&& match new_root {
                    Some(p) => final(self).root_page() == p && p.0 >= old(self).page_total(),
                    None => final(self).root_page() == old(self).root_page(),
                }
            },
    {
        let root = self.root;
        let top: Vec<u64> = Vec::new();
        let res = self.insert_recursive(root, key, value, lsn, &top, MAX_DESCENT - 1)?;
        let ghost c1 = self.content();
        proof {
            if old(self).well_formed() {
                let h = choose|h: nat| #[trigger] wf_tree(old(self).content(), root, h);
                assert(wf_tree(old(self).content(), root, h));
                assert forall|other: RowId| other != key implies #[trigger] old(self).untouched_by_insert(key, other) by {
                    lemma_wf_search(old(self).content(), root, h, key, other, (MAX_DESCENT - 1) as nat);
                    lemma_wf_search(old(self).content(), root, h, other, key, (MAX_DESCENT - 1) as nat);
                    assert(top@ =~= Seq::<u64>::empty());
                }
            }
        }
        match res {
            None => {
                proof {
                    if old(self).well_formed() {
                        let h = choose|h: nat| #[trigger] wf_tree(old(self).content(), root, h);
                        assert(wf_tree(old(self).content(), root, h));
                        assert(wf_tree(self.content(), self.root_page(), h));
                    }
                    lemma_lookup_fuel(c1, root, key, (MAX_DESCENT - 1) as nat, MAX_DESCENT as nat);
                    assert forall|other: RowId| #![trigger self.lookup(other)]
                        old(self).untouched_by_insert(key, other) implies self.lookup(other) == old(self).lookup(other) by {
                        let f = (MAX_DESCENT - 1) as nat;
                        assert(top@ =~= Seq::<u64>::empty());
                        assert(clear_of_insert(old(self).content(), root, key, other, f, top@));
                        assert(tree_lookup(c1, split_target(None, root, other), other, f) == tree_lookup(old(self).content(), root, other, f));
                        lemma_lookup_fuel(old(self).content(), root, other, f, MAX_DESCENT as nat);
                        lemma_lookup_fuel(c1, root, other, f, MAX_DESCENT as nat);
                    }
                }
                Ok(None)
            },
            Some(split) => {
                let ghost t = split_target(Some(split), root, key);
                proof {
                    self.lemma_content_dom();
                }
                let new_root = match self.pool.allocate_page(PageKind::BTreeInternal) {
                    Ok(id) => id,
                    Err(e) => return Err(BTreeError::Buffer(e)),
                };
                let ghost c2 = self.content();
                proof {
                    self.lemma_content_dom();
                }
                let mut keys: Vec<RowId> = Vec::new();
                keys.push(split.separator);
                let mut children: Vec<PageId> = Vec::new();
                children.push(root);
                children.push(split.right);
                let node = Node::Internal(InternalNode { keys, children });
                self.store_node(new_root, &node, lsn)?;
                let ghost c3 = self.content();
                proof {
                    assert(written_since(old(self).content(), c3, lsn)) by {
                        assert forall|id: u64| #[trigger] c3.contains_key(id) && !(old(self).content().contains_key(id) && c3[id] == old(self).content()[id]) implies {
                            &&& hdr_lsn(c3[id]) == lsn.0
                            &&& decoded_node(c3[id]) is Some
                            &&& node_valid(decoded_node(c3[id])->0)
                        } by {
                            if id != new_root.0 {
                                assert(c3[id] == c1[id]);
                                assert(c1.contains_key(id));
                            }
                        }
                    }
                }
                proof {
                    let f = (MAX_DESCENT - 1) as nat;
                    lemma_lookup_path_exists(c1, t, key, f);
                    assert(!lookup_path(c1, t, key, f).contains(new_root.0));
                    lemma_lookup_frame(c1, t, key, f, new_root.0, c2[new_root.0]);
                    assert(c2 == c1.insert(new_root.0, c2[new_root.0]));
                    lemma_lookup_frame(c2, t, key, f, new_root.0, c3[new_root.0]);
                    if key.0 < split.separator.0 {
                        assert(routes_to(keys@, key, 0));
                        lemma_route(keys@, key, 0);
                    } else {
                        assert(routes_to(keys@, key, 1));
                        lemma_route(keys@, key, 1);
                    }
                    assert(tree_lookup(c3, new_root, key, MAX_DESCENT as nat) == Some(Some(value)));
                    assert forall|other: RowId| old(self).untouched_by_insert(key, other)
                        implies #[trigger] tree_lookup(c3, new_root, other, MAX_DESCENT as nat) == old(self).lookup(other) by {
                        assert(top@ =~= Seq::<u64>::empty());
                        assert(clear_of_insert(old(self).content(), root, key, other, f, top@));
                        let to = split_target(Some(split), root, other);
                        assert(tree_lookup(c1, to, other, f) == tree_lookup(old(self).content(), root, other, f));
                        lemma_lookup_fuel(old(self).content(), root, other, f, MAX_DESCENT as nat);
                        lemma_lookup_path_exists(c1, to, other, f);
                        if lookup_path(c1, to, other, f).contains(new_root.0) {
                            let q = choose|q: int| 0 <= q < lookup_path(c1, to, other, f).len() && lookup_path(c1, to, other, f)[q] == new_root.0;
                            assert(c1.contains_key(lookup_path(c1, to, other, f)[q]));
                        }
                        lemma_lookup_frame(c1, to, other, f, new_root.0, c2[new_root.0]);
                        lemma_lookup_frame(c2, to, other, f, new_root.0, c3[new_root.0]);
                        if other.0 < split.separator.0 {
                            assert(routes_to(keys@, other, 0));
                            lemma_route(keys@, other, 0);
                        } else {
                            assert(routes_to(keys@, other, 1));
                            lemma_route(keys@, other, 1);
                        }
                    }
                }
                proof {
                    if old(self).well_formed() {
                        let h = choose|h: nat| #[trigger] wf_tree(old(self).content(), root, h);
                        assert(wf_tree(old(self).content(), root, h));
                        let kids = children@;
                        assert(kids[0] == root && kids[1] == split.right);
                        assert forall|i: int| 0 <= i < kids.len() implies #[trigger] wf_tree(c1, kids[i], h) by {
                            assert(i == 0 || i == 1);
                        }
                        assert forall|i: int, j: int, x: u64| 0 <= i < kids.len() && 0 <= j < kids.len() && i != j
                            && #[trigger] reaches(c1, kids[i], h, x) implies !#[trigger] reaches(c1, kids[j], h, x) by {
                            if i == 1 && reaches(c1, kids[j], h, x) {
                                assert(reaches(c1, root, h, x));
                            }
                        }
                        assert forall|i: int, x: u64| 0 <= i < kids.len() && #[trigger] reaches(c1, kids[i], h, x)
                            implies c3.contains_key(x) && c3[x] == c1[x] && x != new_root.0 by {
                            assert(wf_tree(c1, kids[i], h));
                            lemma_wf_reached_exist(c1, kids[i], h, x);
                        }
                        lemma_wf_assemble(c1, c3, new_root, (h + 1) as nat, keys@, kids);
                    }
                }
                self.root = new_root;
                match self.pool.flush_all() {
                    Ok(()) => {},
                    Err(e) => return Err(BTreeError::Buffer(e)),
                }
                proof {
                    if old(self).well_formed() {
                        let h = choose|h: nat| #[trigger] wf_tree(old(self).content(), root, h);
                        assert(wf_tree(self.content(), self.root_page(), (h + 1) as nat));
                    }
                }
                Ok(Some(new_root))
            },
        }
    }

    /// Flushes the tree's dirty pages to the page store and synchronizes it.
    pub fn flush(&mut self) -> (r: Result<(), BTreeError>)
        requires
            old(self).inv(),
        ensures
            final(self).inv(),
            final(self).root_page() == old(self).root_page(),
            r is Ok ==> final(self).content() == old(self).content() && final(self).page_total() == old(self).page_total()
                && final(self).durable(),
    {
        match self.pool.flush_all() {
            Ok(()) => Ok(()),
            Err(e) => Err(BTreeError::Buffer(e)),
        }
    }

    /// Inserts `key -> value` into the subtree at `page_id`, splitting the
    /// nodes that overflow. `ancestors` are the pages above it on the way
    /// down; meeting one of them again means the page file is corrupt.
    #[verifier::spinoff_prover]
    fn insert_recursive(
        &mut self,
        page_id: PageId,
        key: RowId,
        value: RowLocation,
        lsn: Lsn,
        ancestors: &Vec<u64>,
        fuel: u64,
    ) -> (r: Result<Option<Split>, BTreeError>)
        requires
            old(self).inv(),
            forall|k: int| 0 <= k < ancestors@.len() ==> (#[trigger] ancestors@[k]) < old(self).page_total(),
        ensures
            ({
                let p = lookup_path(old(self).content(), page_id, key, fuel as nat);
                leaf_has_room(old(self).content(), page_id, key, fuel as nat) && p.no_duplicates()
                    && (forall|k: int| 0 <= k < p.len() ==> old(self).cached(#[trigger] p[k]))
                    && (forall|k: int| 0 <= k < ancestors@.len() ==> !p.contains(#[trigger] ancestors@[k]))
                    ==> r matches Ok(None)
            }),
            r matches Ok(res) ==> (decoded_node(old(self).content()[page_id.0]) matches Some(NodeView::Leaf { keys, values, next })
                ==> leaf_put_done(old(self).page_total(), final(self).content(), final(self).page_total(), page_id, keys, values, next, key, value, res)),
            r is Ok ==> written_since(old(self).content(), final(self).content(), lsn),
            final(self).inv(),
            final(self).root_page() == old(self).root_page(),
            r matches Ok(res) ==> {
                &&& final(self).page_total() >= old(self).page_total()
                &&& page_id.0 < old(self).page_total()
                &&& tree_lookup(final(self).content(), split_target(res, page_id, key), key, fuel as nat) == Some(Some(value))
                &&& forall|k: int| 0 <= k < ancestors@.len() ==> !lookup_path(final(self).content(), split_target(res, page_id, key), key, fuel as nat).contains(#[trigger] ancestors@[k])
                &&& forall|k: int| 0 <= k < ancestors@.len() ==> final(self).content()[#[trigger] ancestors@[k]] == old(self).content()[ancestors@[k]]
                &&& res matches Some(sp) ==> old(self).page_total() <= sp.right.0 < final(self).page_total()
                &&& forall|id: u64| #![trigger final(self).content()[id]] id < old(self).page_total()
                    && !lookup_path(old(self).content(), page_id, key, fuel as nat).contains(id) ==> final(self).content()[id] == old(self).content()[id]
                &&& forall|other: RowId| #![trigger split_target(res, page_id, other)]
                    clear_of_insert(old(self).content(), page_id, key, other, fuel as nat, ancestors@) ==> {
                        &&& tree_lookup(final(self).content(), split_target(res, page_id, other), other, fuel as nat)
                            == tree_lookup(old(self).content(), page_id, other, fuel as nat)
                        &&& forall|k: int| 0 <= k < ancestors@.len() ==> !lookup_path(final(self).content(), split_target(res, page_id, other), other, fuel as nat).contains(#[trigger] ancestors@[k])
                    }
                &&& forall|h: nat| #[trigger] wf_tree(old(self).content(), page_id, h) ==> h < fuel
                    && grown_from(old(self).content(), old(self).page_total(), final(self).content(), final(self).page_total(), page_id, h, res)
            },
        decreases fuel,
    {
        if fuel == 0 {
            return Err(BTreeError::Corrupt("B+Tree descent does not reach a leaf".to_owned()));
        }
        let ghost path = lookup_path(old(self).content(), page_id, key, fuel as nat);
        let ghost room = leaf_has_room(old(self).content(), page_id, key, fuel as nat) && path.no_duplicates()
            && (forall|k: int| 0 <= k < path.len() ==> old(self).cached(#[trigger] path[k]))
            && (forall|k: int| 0 <= k < ancestors@.len() ==> !path.contains(#[trigger] ancestors@[k]));
        proof {
            assert(path[0] == page_id.0);
        }
        if holds(ancestors, page_id.0) {
            proof {
                if room {
                    let k = choose|k: int| 0 <= k < ancestors@.len() && ancestors@[k] == page_id.0;
                    assert(path.contains(ancestors@[k]));
                }
            }
            return Err(BTreeError::Corrupt("B+Tree page refers back to an ancestor".to_owned()));
        }
        proof {
            if room {
                assert(self.pool.cached(path[0]));
            }
        }
        let page = match self.pool.read(page_id) {
            Ok(p) => p,
            Err(e) => return Err(BTreeError::Buffer(e)),
        };
        proof {
            lemma_decoded_node_sealed(page@);
            self.lemma_content_dom();
        }
        let node = decode_node(&page)?;
        match node {
            Node::Leaf(leaf) => {
                let ghost c0 = self.content();
                proof {
                    if room {
                        assert(self.cached(page_id.0));
                        assert(leaf.keys@.contains(key) || leaf.keys@.len() < MAX_LEAF_ENTRIES);
                    }
                }
                let r = self.insert_into_leaf(page_id, leaf, key, value, lsn, ancestors, fuel);
                proof {
                    if r is Ok {
                        assert forall|k: int| 0 <= k < ancestors@.len() implies self.content()[#[trigger] ancestors@[k]] == old(self).content()[ancestors@[k]] by {
                            assert(self.content()[ancestors@[k]] == c0[ancestors@[k]]);
                        }
                        assert(lookup_path(c0, page_id, key, fuel as nat) == seq![page_id.0]);
                        assert forall|id: u64| #![trigger self.content()[id]] id < old(self).page_total()
                            && !lookup_path(old(self).content(), page_id, key, fuel as nat).contains(id) implies self.content()[id] == old(self).content()[id] by {
                            assert(id != page_id.0 ==> !seq![page_id.0].contains(id) || true);
                            if id == page_id.0 {
                                assert(seq![page_id.0][0] == id);
                            }
                        }
                        let res = r->Ok_0;
                        assert forall|other: RowId| #![trigger split_target(res, page_id, other)]
                            clear_of_insert(old(self).content(), page_id, key, other, fuel as nat, ancestors@) implies {
                                &&& tree_lookup(self.content(), split_target(res, page_id, other), other, fuel as nat)
                                    == tree_lookup(old(self).content(), page_id, other, fuel as nat)
                                &&& forall|k: int| 0 <= k < ancestors@.len() ==> !lookup_path(self.content(), split_target(res, page_id, other), other, fuel as nat).contains(#[trigger] ancestors@[k])
                            } by {
                            assert(other != key);
                        }
                    }
                }
                r
            },
            Node::Internal(internal) => {
                let child_idx = child_index(&internal.keys, key);
                let child = internal.children[child_idx];
                let below = extended(ancestors, page_id.0);
                let ghost c0 = self.content();
                let ghost t0 = self.page_total();
                let ghost keys0 = internal.keys@;
                let ghost children0 = internal.children@;
                proof {
                    if room {
                        lemma_route(internal.keys@, key, child_idx as int);
                        lemma_path_tail(c0, page_id, key, fuel as nat, internal.keys@, internal.children@);
                        let sub = lookup_path(c0, child, key, (fuel - 1) as nat);
                        assert(leaf_has_room(c0, child, key, (fuel - 1) as nat));
                        assert forall|k: int| 0 <= k < sub.len() implies self.cached(#[trigger] sub[k]) by {
                            assert(path[k + 1] == sub[k]);
                            assert(old(self).cached(path[k + 1]));
                        }
                        assert forall|k: int| 0 <= k < below@.len() implies !sub.contains(#[trigger] below@[k]) by {
                            if k < ancestors@.len() {
                                assert(below@[k] == ancestors@[k]);
                                assert(!path.contains(ancestors@[k]));
                            } else {
                                assert(below@[k] == page_id.0);
                            }
                        }
                    }
                }
                let res = self.insert_recursive(child, key, value, lsn, &below, fuel - 1)?;
                let ghost c1 = self.content();
                let ghost t1 = self.page_total();
                proof {
                    self.lemma_content_dom();
                    lemma_route(internal.keys@, key, child_idx as int);
                    assert(below@[ancestors@.len() as int] == page_id.0);
                    assert forall|k: int| 0 <= k < ancestors@.len() implies #[trigger] below@[k] == ancestors@[k] by {}
                    assert(below@ == ancestors@.push(page_id.0));
                    assert forall|other: RowId| #![trigger clear_of_insert(c0, page_id, key, other, fuel as nat, ancestors@)]
                        clear_of_insert(c0, page_id, key, other, fuel as nat, ancestors@) implies {
                            let r2 = route(internal.keys@, other);
                            let t2 = if r2 == child_idx { split_target(res, internal.children@[child_idx as int], other) } else { internal.children@[r2] };
                            &&& routes_to(internal.keys@, other, r2)
                            &&& tree_lookup(c1, t2, other, (fuel - 1) as nat) == tree_lookup(c0, page_id, other, fuel as nat)
                            &&& forall|k: int| 0 <= k < below@.len() ==> !lookup_path(c1, t2, other, (fuel - 1) as nat).contains(#[trigger] below@[k])
                        } by {
                        lemma_after_child_insert(c0, c1, page_id, internal.keys@, internal.children@, child_idx as int, key, other, fuel as nat,
                            ancestors@, below@, split_target(res, child, other), t0);
                    }
                }
                match res {
                    None => {
                        proof {
                            assert(c1[page_id.0] == c0[page_id.0]);
                            let sub = lookup_path(c1, child, key, (fuel - 1) as nat);
                            assert(lookup_path(c1, page_id, key, fuel as nat) == seq![page_id.0] + sub);
                            assert forall|k: int| 0 <= k < ancestors@.len() implies !lookup_path(c1, page_id, key, fuel as nat).contains(#[trigger] ancestors@[k]) by {
                                assert(!sub.contains(below@[k]));
                                if lookup_path(c1, page_id, key, fuel as nat).contains(ancestors@[k]) {
                                    let q = choose|q: int| 0 <= q < lookup_path(c1, page_id, key, fuel as nat).len() && lookup_path(c1, page_id, key, fuel as nat)[q] == ancestors@[k];
                                    if q > 0 {
                                        assert(sub[q - 1] == ancestors@[k]);
                                    }
                                }
                            }
                            assert forall|k: int| 0 <= k < ancestors@.len() implies c1[#[trigger] ancestors@[k]] == old(self).content()[ancestors@[k]] by {
                                assert(c1[below@[k]] == c0[below@[k]]);
                            }
                            let sub0 = lookup_path(c0, child, key, (fuel - 1) as nat);
                            assert(lookup_path(c0, page_id, key, fuel as nat) == seq![page_id.0] + sub0);
                            assert forall|id: u64| #![trigger c1[id]] id < old(self).page_total()
                                && !lookup_path(old(self).content(), page_id, key, fuel as nat).contains(id) implies c1[id] == old(self).content()[id] by {
                                if sub0.contains(id) {
                                    let q = choose|q: int| 0 <= q < sub0.len() && sub0[q] == id;
                                    assert(lookup_path(c0, page_id, key, fuel as nat)[q + 1] == id);
                                }
                            }
                            assert forall|other: RowId| #![trigger split_target(None, page_id, other)]
                                clear_of_insert(old(self).content(), page_id, key, other, fuel as nat, ancestors@) implies {
                                    &&& tree_lookup(c1, split_target(None, page_id, other), other, fuel as nat)
                                        == tree_lookup(old(self).content(), page_id, other, fuel as nat)
                                    &&& forall|k: int| 0 <= k < ancestors@.len() ==> !lookup_path(c1, split_target(None, page_id, other), other, fuel as nat).contains(#[trigger] ancestors@[k])
                                } by {
                                assert(clear_of_insert(c0, page_id, key, other, fuel as nat, ancestors@));
                                let r2 = route(internal.keys@, other);
                                let t2 = internal.children@[r2];
                                lemma_lookup_through(c1, page_id, internal.keys@, internal.children@, other, fuel as nat, r2, t2);
                                let sub2 = lookup_path(c1, t2, other, (fuel - 1) as nat);
                                assert forall|k: int| 0 <= k < ancestors@.len() implies !lookup_path(c1, page_id, other, fuel as nat).contains(#[trigger] ancestors@[k]) by {
                                    assert(!sub2.contains(below@[k]));
                                    if lookup_path(c1, page_id, other, fuel as nat).contains(ancestors@[k]) {
                                        let q = choose|q: int| 0 <= q < lookup_path(c1, page_id, other, fuel as nat).len() && lookup_path(c1, page_id, other, fuel as nat)[q] == ancestors@[k];
                                        if q > 0 {
                                            assert(sub2[q - 1] == ancestors@[k]);
                                        }
                                    }
                                }
                            }
                            lemma_grown_after_child(c0, t0, c1, self.page_total(), c1, self.page_total(), page_id, keys0, children0,
                                child_idx as int, key, fuel as nat, None, None);
                        }
                        Ok(None)
                    },
                    Some(split) => {
                        let r = self.absorb_split(page_id, internal, child_idx, split, key, value, lsn, ancestors, fuel, Ghost(below@), Ghost(c0));
                        proof {
                            if r is Ok {
                                lemma_written_trans(c0, c1, self.content(), lsn);
                                assert forall|k: int| 0 <= k < ancestors@.len() implies self.content()[#[trigger] ancestors@[k]] == old(self).content()[ancestors@[k]] by {
                                    assert(self.content()[ancestors@[k]] == c1[ancestors@[k]]);
                                    assert(c1[below@[k]] == c0[below@[k]]);
                                }
                                let sub0 = lookup_path(c0, child, key, (fuel - 1) as nat);
                                assert(lookup_path(c0, page_id, key, fuel as nat) == seq![page_id.0] + sub0);
                                assert forall|id: u64| #![trigger self.content()[id]] id < old(self).page_total()
                                    && !lookup_path(old(self).content(), page_id, key, fuel as nat).contains(id) implies self.content()[id] == old(self).content()[id] by {
                                    if sub0.contains(id) {
                                        let q = choose|q: int| 0 <= q < sub0.len() && sub0[q] == id;
                                        assert(lookup_path(c0, page_id, key, fuel as nat)[q + 1] == id);
                                    }
                                    if id == page_id.0 {
                                        assert(lookup_path(c0, page_id, key, fuel as nat)[0] == id);
                                    }
                                    assert(self.content()[id] == c1[id]);
                                }
                                assert forall|other: RowId| #![trigger split_target(r->Ok_0, page_id, other)]
                                    clear_of_insert(old(self).content(), page_id, key, other, fuel as nat, ancestors@) implies {
                                        &&& tree_lookup(self.content(), split_target(r->Ok_0, page_id, other), other, fuel as nat)
                                            == tree_lookup(old(self).content(), page_id, other, fuel as nat)
                                        &&& forall|k: int| 0 <= k < ancestors@.len() ==> !lookup_path(self.content(), split_target(r->Ok_0, page_id, other), other, fuel as nat).contains(#[trigger] ancestors@[k])
                                    } by {
                                    assert(clear_of_insert(c0, page_id, key, other, fuel as nat, ancestors@));
                                }
                                self.lemma_content_dom();
                                lemma_grown_after_child(c0, t0, c1, t1, self.content(), self.page_total(), page_id, keys0, children0,
                                    child_idx as int, key, fuel as nat, Some(split), r->Ok_0);
                            }
                        }
                        r
                    },
                }
            },
        }
    }

    /// Inserts `key -> value` into the leaf stored at `page_id`, splitting it
    /// in two when it overflows.
    #[verifier::spinoff_prover]
    #[verifier::rlimit(50)]
    fn insert_into_leaf(
        &mut self,
        page_id: PageId,
        leaf: LeafNode,
        key: RowId,
        value: RowLocation,
        lsn: Lsn,
        ancestors: &Vec<u64>,
        fuel: u64,
    ) -> (r: Result<Option<Split>, BTreeError>)
        requires
            old(self).inv(),
            fuel >= 1,
            old(self).content().contains_key(page_id.0),
            decoded_node(old(self).content()[page_id.0]) == Some(NodeView::Leaf { keys: leaf.keys@, values: leaf.values@, next: leaf.next }),
            !ancestors@.contains(page_id.0),
            forall|k: int| 0 <= k < ancestors@.len() ==> (#[trigger] ancestors@[k]) < old(self).page_total(),
        ensures
            old(self).cached(page_id.0) && (leaf.keys@.contains(key) || leaf.keys@.len() < MAX_LEAF_ENTRIES) ==> r matches Ok(None),
            r matches Ok(res) ==> leaf_put_done(old(self).page_total(), final(self).content(), final(self).page_total(), page_id,
                leaf.keys@, leaf.values@, leaf.next, key, value, res),
            r is Ok ==> written_since(old(self).content(), final(self).content(), lsn),
            final(self).inv(),
            final(self).root_page() == old(self).root_page(),
            r matches Ok(res) ==> {
                &&& final(self).page_total() >= old(self).page_total()
                &&& tree_lookup(final(self).content(), split_target(res, page_id, key), key, fuel as nat) == Some(Some(value))
                &&& forall|k: int| 0 <= k < ancestors@.len() ==> !lookup_path(final(self).content(), split_target(res, page_id, key), key, fuel as nat).contains(#[trigger] ancestors@[k])
                &&& forall|k: int| 0 <= k < ancestors@.len() ==> final(self).content()[#[trigger] ancestors@[k]] == old(self).content()[ancestors@[k]]
                &&& res matches Some(sp) ==> old(self).page_total() <= sp.right.0 < final(self).page_total()
                &&& forall|id: u64| #![trigger final(self).content()[id]] id < old(self).page_total() && id != page_id.0
                    ==> final(self).content()[id] == old(self).content()[id]
                &&& forall|other: RowId| #![trigger split_target(res, page_id, other)] other != key ==> {
                    &&& tree_lookup(final(self).content(), split_target(res, page_id, other), other, fuel as nat)
                        == tree_lookup(old(self).content(), page_id, other, fuel as nat)
                    &&& forall|k: int| 0 <= k < ancestors@.len() ==> !lookup_path(final(self).content(), split_target(res, page_id, other), other, fuel as nat).contains(#[trigger] ancestors@[k])
                }
                &&& forall|h: nat| #[trigger] wf_tree(old(self).content(), page_id, h) ==> h < fuel
                    && grown_from(old(self).content(), old(self).page_total(), final(self).content(), final(self).page_total(), page_id, h, res)
            },
    {
        let ghost c0 = self.content();
        let ghost t0 = self.page_total();
        proof {
            self.lemma_content_dom();
        }
        let mut leaf = leaf;
        let ghost keys0 = leaf.keys@;
        let ghost values0 = leaf.values@;
        let ghost mut ins: int = 0;
        match search(&leaf.keys, key) {
            Ok(i) => {
                leaf.values.set(i, value);
                let ghost keys1 = leaf.keys@;
                let ghost values1 = leaf.values@;
                let node = Node::Leaf(leaf);
                self.store_node(page_id, &node, lsn)?;
                proof {
                    lemma_key_index(keys0, key, i as int);
                    assert(keys1 == leaf_put_keys(keys0, key));
                    assert(values1 == leaf_put_values(keys0, values0, key, value));
                    lemma_leaf_value_at(keys1, values1, key, i as int);
                    assert(lookup_path(self.content(), page_id, key, fuel as nat) == seq![page_id.0]);
                    assert forall|k: int| 0 <= k < ancestors@.len() implies self.content()[#[trigger] ancestors@[k]] == c0[ancestors@[k]] by {
                        assert(ancestors@[k] != page_id.0);
                    }
                    assert forall|other: RowId| #![trigger split_target(None, page_id, other)] other != key implies {
                        &&& tree_lookup(self.content(), split_target(None, page_id, other), other, fuel as nat)
                            == tree_lookup(c0, page_id, other, fuel as nat)
                        &&& forall|k: int| 0 <= k < ancestors@.len() ==> !lookup_path(self.content(), split_target(None, page_id, other), other, fuel as nat).contains(#[trigger] ancestors@[k])
                    } by {
                        lemma_leaf_value_update(keys0, values0, i as int, value, other);
                        assert(values1 == values0.update(i as int, value));
                        assert(lookup_path(self.content(), page_id, other, fuel as nat) == seq![page_id.0]);
                    }
                    assert forall|h: nat| #[trigger] wf_tree(c0, page_id, h) implies h < fuel
                        && grown_from(c0, t0, self.content(), self.page_total(), page_id, h, None) by {
                        assert(wf_tree(self.content(), page_id, h));
                    }
                }
                return Ok(None);
            },
            Err(i) => {
                proof {
                    assert(slot_fits(keys0, key, i as int));
                    lemma_leaf_slot(keys0, key, i as int);
                }
                leaf.keys.insert(i, key);
                leaf.values.insert(i, value);
                proof {
                    assert(leaf.keys@[i as int] == key);
                    assert(leaf.values@[i as int] == value);
                    ins = i as int;
                    assert(leaf.keys@ == leaf_put_keys(keys0, key));
                    assert(leaf.values@ == leaf_put_values(keys0, values0, key, value));
                }
            },
        }
        let ghost keys1 = leaf.keys@;
        let ghost values1 = leaf.values@;
        proof {
            assert(keys_strictly_sorted(keys1)) by {
                assert forall|a: int, b: int| 0 <= a < b < keys1.len() implies #[trigger] keys1[a].0 < #[trigger] keys1[b].0 by {
                    if b < ins {
                        assert(keys1[a] == keys0[a] && keys1[b] == keys0[b]);
                    } else if b == ins {
                        assert(keys1[a] == keys0[a]);
                    } else if a < ins {
                        assert(keys1[a] == keys0[a] && keys1[b] == keys0[b - 1]);
                    } else if a == ins {
                        assert(keys1[b] == keys0[b - 1]);
                    } else {
                        assert(keys1[a] == keys0[a - 1] && keys1[b] == keys0[b - 1]);
                    }
                }
            }
        }
        if leaf.keys.len() <= MAX_LEAF_ENTRIES {
            let ghost i = choose|i: int| 0 <= i < keys1.len() && keys1[i] == key && values1[i] == value;
            let node = Node::Leaf(leaf);
            self.store_node(page_id, &node, lsn)?;
            proof {
                lemma_leaf_value_at(keys1, values1, key, i);
                assert(lookup_path(self.content(), page_id, key, fuel as nat) == seq![page_id.0]);
                assert forall|k: int| 0 <= k < ancestors@.len() implies self.content()[#[trigger] ancestors@[k]] == c0[ancestors@[k]] by {
                    assert(ancestors@[k] != page_id.0);
                }
                assert forall|other: RowId| #![trigger split_target(None, page_id, other)] other != key implies {
                    &&& tree_lookup(self.content(), split_target(None, page_id, other), other, fuel as nat)
                        == tree_lookup(c0, page_id, other, fuel as nat)
                    &&& forall|k: int| 0 <= k < ancestors@.len() ==> !lookup_path(self.content(), split_target(None, page_id, other), other, fuel as nat).contains(#[trigger] ancestors@[k])
                } by {
                    lemma_leaf_value_insert(keys0, values0, ins, key, value, other);
                    assert(lookup_path(self.content(), page_id, other, fuel as nat) == seq![page_id.0]);
                }
                assert forall|h: nat| #[trigger] wf_tree(c0, page_id, h) implies h < fuel
                    && grown_from(c0, t0, self.content(), self.page_total(), page_id, h, None) by {
                    assert(wf_tree(self.content(), page_id, h));
                }
            }
            return Ok(None);
        }
        let ghost i = choose|i: int|
            0 <= i < keys1.len() && keys1[i] == key && values1[i] == value
                && (forall|j: int| 0 <= j < i ==> (#[trigger] keys1[j]).0 < key.0)
                && (forall|j: int| i < j < keys1.len() ==> key.0 < (#[trigger] keys1[j]).0);
        let split_at = leaf.keys.len() / 2;
        let right_keys = leaf.keys.split_off(split_at);
        let right_values = leaf.values.split_off(split_at);
        let right_page = match self.pool.allocate_page(PageKind::BTreeLeaf) {
            Ok(id) => id,
            Err(e) => return Err(BTreeError::Buffer(e)),
        };
        let ghost c1 = self.content();
        proof {
            self.lemma_content_dom();
        }
        let old_next = leaf.next;
        leaf.next = Some(right_page);
        let right = LeafNode { keys: right_keys, values: right_values, next: old_next };
        let separator = right.keys[0];
        let ghost left_keys = leaf.keys@;
        let ghost left_values = leaf.values@;
        let left_node = Node::Leaf(leaf);
        self.store_node(page_id, &left_node, lsn)?;
        let ghost c2 = self.content();
        let right_node = Node::Leaf(right);
        self.store_node(right_page, &right_node, lsn)?;
        let ghost c3 = self.content();
        proof {
            assert(right_page.0 != page_id.0);
            assert(c3[page_id.0] == c2[page_id.0]);
            assert(written_since(c0, c3, lsn)) by {
                assert forall|id: u64| #[trigger] c3.contains_key(id) && !(c0.contains_key(id) && c3[id] == c0[id]) implies {
                    &&& hdr_lsn(c3[id]) == lsn.0
                    &&& decoded_node(c3[id]) is Some
                    &&& node_valid(decoded_node(c3[id])->0)
                } by {
                    if id != page_id.0 && id != right_page.0 {
                        assert(c3[id] == c1[id]);
                    }
                }
            }
            assert forall|j: int| 0 <= j < split_at implies (#[trigger] keys1[j]).0 < keys1[split_at as int].0 by {}
            let sp = Split { separator, right: right_page };
            if i < split_at {
                assert(left_keys[i] == key);
                assert(separator == keys1[split_at as int]);
                assert(key.0 < separator.0);
                lemma_leaf_value_at(left_keys, left_values, key, i);
                assert(split_target(Some(sp), page_id, key) == page_id);
                assert(lookup_path(c3, page_id, key, fuel as nat) == seq![page_id.0]);
            } else {
                assert(right.keys@[i - split_at] == key);
                assert(!(key.0 < separator.0));
                lemma_leaf_value_at(right.keys@, right.values@, key, i - split_at);
                assert(split_target(Some(sp), page_id, key) == right_page);
                assert(lookup_path(c3, right_page, key, fuel as nat) == seq![right_page.0]);
            }
            assert forall|k: int| 0 <= k < ancestors@.len() implies c3[#[trigger] ancestors@[k]] == c0[ancestors@[k]] by {
                assert(ancestors@[k] != page_id.0);
                assert(ancestors@[k] != right_page.0);
            }
            let s_at = split_at as int;
            assert(left_keys == keys1.subrange(0, s_at) && left_values == values1.subrange(0, s_at));
            assert(right.keys@ == keys1.subrange(s_at, keys1.len() as int) && right.values@ == values1.subrange(s_at, keys1.len() as int));
            assert forall|other: RowId| #![trigger split_target(Some(sp), page_id, other)] other != key implies {
                &&& tree_lookup(c3, split_target(Some(sp), page_id, other), other, fuel as nat)
                    == tree_lookup(c0, page_id, other, fuel as nat)
                &&& forall|k: int| 0 <= k < ancestors@.len() ==> !lookup_path(c3, split_target(Some(sp), page_id, other), other, fuel as nat).contains(#[trigger] ancestors@[k])
            } by {
                lemma_leaf_value_insert(keys0, values0, ins, key, value, other);
                if other.0 < separator.0 {
                    assert forall|j: int| 0 <= j < keys1.len() && keys1[j] == other implies 0 <= j < s_at by {
                        if j > s_at {
                            assert(keys1[s_at].0 < keys1[j].0);
                        }
                    }
                    lemma_leaf_value_range(keys1, values1, 0, s_at, other);
                    assert(lookup_path(c3, page_id, other, fuel as nat) == seq![page_id.0]);
                } else {
                    assert forall|j: int| 0 <= j < keys1.len() && keys1[j] == other implies s_at <= j < keys1.len() by {
                        if j < s_at {
                            assert(keys1[j].0 < keys1[s_at].0);
                        }
                    }
                    lemma_leaf_value_range(keys1, values1, s_at, keys1.len() as int, other);
                    assert(lookup_path(c3, right_page, other, fuel as nat) == seq![right_page.0]);
                }
            }
            assert forall|h: nat| #[trigger] wf_tree(c0, page_id, h) implies h < fuel
                && grown_from(c0, t0, c3, self.page_total(), page_id, h, Some(sp)) by {
                assert(wf_tree(c3, page_id, h));
                assert(wf_tree(c3, right_page, h));
            }
        }
        Ok(Some(Split { separator, right: right_page }))
    }

    /// Records in the internal node stored at `page_id` that its child
    /// `child_idx` split, splitting this node in turn when it overflows.
    #[verifier::spinoff_prover]
    #[verifier::rlimit(100)]
    fn absorb_split(
        &mut self,
        page_id: PageId,
        internal: InternalNode,
        child_idx: usize,
        split: Split,
        key: RowId,
        value: RowLocation,
        lsn: Lsn,
        ancestors: &Vec<u64>,
        fuel: u64,
        Ghost(below): Ghost<Seq<u64>>,
        Ghost(c0): Ghost<Map<u64, Seq<u8>>>,
    ) -> (r: Result<Option<Split>, BTreeError>)
        requires
            old(self).inv(),
            fuel >= 1,
            page_id.0 < old(self).page_total(),
            keys_strictly_sorted(internal.keys@),
            internal.keys@.len() <= MAX_INTERNAL_KEYS,
            internal.children@.len() == internal.keys@.len() + 1,
            routes_to(internal.keys@, key, child_idx as int),
            below == ancestors@.push(page_id.0),
            !ancestors@.contains(page_id.0),
            forall|k: int| 0 <= k < ancestors@.len() ==> (#[trigger] ancestors@[k]) < old(self).page_total(),
            split.right.0 < old(self).page_total(),
            tree_lookup(old(self).content(), split_target(Some(split), internal.children@[child_idx as int], key), key, (fuel - 1) as nat) == Some(Some(value)),
            forall|k: int| 0 <= k < below.len() ==> !lookup_path(old(self).content(), split_target(Some(split), internal.children@[child_idx as int], key), key, (fuel - 1) as nat).contains(#[trigger] below[k]),
            forall|other: RowId| #![trigger clear_of_insert(c0, page_id, key, other, fuel as nat, ancestors@)]
                clear_of_insert(c0, page_id, key, other, fuel as nat, ancestors@) ==> {
                    let r2 = route(internal.keys@, other);
                    let t2 = if r2 == child_idx { split_target(Some(split), internal.children@[child_idx as int], other) } else { internal.children@[r2] };
                    &&& routes_to(internal.keys@, other, r2)
                    &&& tree_lookup(old(self).content(), t2, other, (fuel - 1) as nat) == tree_lookup(c0, page_id, other, fuel as nat)
                    &&& forall|k: int| 0 <= k < below.len() ==> !lookup_path(old(self).content(), t2, other, (fuel - 1) as nat).contains(#[trigger] below[k])
                },
        ensures
            old(self).cached(page_id.0) && internal.keys@.len() < MAX_INTERNAL_KEYS
                && keys_strictly_sorted(internal.keys@.insert(child_idx as int, split.separator)) ==> r matches Ok(None),
            r is Ok ==> written_since(old(self).content(), final(self).content(), lsn),
            final(self).inv(),
            final(self).root_page() == old(self).root_page(),
            r matches Ok(res) ==> {
                &&& final(self).page_total() >= old(self).page_total()
                &&& tree_lookup(final(self).content(), split_target(res, page_id, key), key, fuel as nat) == Some(Some(value))
                &&& forall|k: int| 0 <= k < ancestors@.len() ==> !lookup_path(final(self).content(), split_target(res, page_id, key), key, fuel as nat).contains(#[trigger] ancestors@[k])
                &&& forall|k: int| 0 <= k < ancestors@.len() ==> final(self).content()[#[trigger] ancestors@[k]] == old(self).content()[ancestors@[k]]
                &&& res matches Some(sp) ==> old(self).page_total() <= sp.right.0 < final(self).page_total()
                &&& forall|id: u64| #![trigger final(self).content()[id]] id < old(self).page_total() && id != page_id.0
                    ==> final(self).content()[id] == old(self).content()[id]
                &&& forall|other: RowId| #![trigger split_target(res, page_id, other)]
                    clear_of_insert(c0, page_id, key, other, fuel as nat, ancestors@) ==> {
                        &&& tree_lookup(final(self).content(), split_target(res, page_id, other), other, fuel as nat)
                            == tree_lookup(c0, page_id, other, fuel as nat)
                        &&& forall|k: int| 0 <= k < ancestors@.len() ==> !lookup_path(final(self).content(), split_target(res, page_id, other), other, fuel as nat).contains(#[trigger] ancestors@[k])
                    }
                &&& res is None ==> {
                    &&& final(self).page_total() == old(self).page_total()
                    &&& final(self).content() == old(self).content().insert(page_id.0, final(self).content()[page_id.0])
                    &&& decoded_node(final(self).content()[page_id.0]) == Some(NodeView::Internal {
                        keys: internal.keys@.insert(child_idx as int, split.separator),
                        children: internal.children@.insert(child_idx + 1, split.right),
                    })
                }
                &&& res matches Some(sp) ==> {
                    let keys1 = internal.keys@.insert(child_idx as int, split.separator);
                    let children1 = internal.children@.insert(child_idx + 1, split.right);
                    let m = (keys1.len() / 2) as int;
                    &&& sp.right.0 == old(self).page_total()
                    &&& final(self).page_total() == old(self).page_total() + 1
                    &&& decoded_node(final(self).content()[page_id.0]) == Some(NodeView::Internal {
                        keys: keys1.subrange(0, m),
                        children: children1.subrange(0, m + 1),
                    })
                    &&& decoded_node(final(self).content()[sp.right.0]) == Some(NodeView::Internal {
                        keys: keys1.subrange(m + 1, keys1.len() as int),
                        children: children1.subrange(m + 1, children1.len() as int),
                    })
                }
            },
    {
        let ghost ca = self.content();
        proof {
            self.lemma_content_dom();
        }
        let ghost f1 = (fuel - 1) as nat;
        let ghost t = split_target(Some(split), internal.children@[child_idx as int], key);
        let mut internal = internal;
        let ghost keys0 = internal.keys@;
        let ghost internal_children0 = internal.children@;
        internal.keys.insert(child_idx, split.separator);
        internal.children.insert(child_idx + 1, split.right);
        let ghost keys1 = internal.keys@;
        let ghost children1 = internal.children@;
        let ghost r1: int = if key.0 < split.separator.0 { child_idx as int } else { child_idx + 1 };
        proof {
            assert forall|j: int| 0 <= j < r1 implies (#[trigger] keys1[j]).0 <= key.0 by {
                if j < child_idx {
                    assert(keys1[j] == keys0[j]);
                }
            }
            if r1 < keys1.len() {
                if r1 == child_idx {
                    assert(keys1[r1] == split.separator);
                } else {
                    assert(keys1[r1] == keys0[child_idx as int]);
                }
            }
            assert(routes_to(keys1, key, r1));
            assert(children1[r1] == t);
            lemma_lookup_path_exists(ca, t, key, f1);
        }
        if internal.keys.len() <= MAX_INTERNAL_KEYS {
            let node = Node::Internal(internal);
            self.store_node(page_id, &node, lsn)?;
            let ghost cf = self.content();
            proof {
                lemma_route(keys1, key, r1);
                assert(!lookup_path(ca, t, key, f1).contains(page_id.0)) by {
                    assert(below[ancestors@.len() as int] == page_id.0);
                }
                lemma_lookup_frame(ca, t, key, f1, page_id.0, cf[page_id.0]);
                assert(cf == ca.insert(page_id.0, cf[page_id.0]));
                let sub = lookup_path(cf, t, key, f1);
                assert(lookup_path(cf, page_id, key, fuel as nat) == seq![page_id.0] + sub);
                assert forall|k: int| 0 <= k < ancestors@.len() implies !lookup_path(cf, page_id, key, fuel as nat).contains(#[trigger] ancestors@[k]) by {
                    assert(below[k] == ancestors@[k]);
                    assert(!sub.contains(below[k]));
                    if lookup_path(cf, page_id, key, fuel as nat).contains(ancestors@[k]) {
                        let q = choose|q: int| 0 <= q < lookup_path(cf, page_id, key, fuel as nat).len() && lookup_path(cf, page_id, key, fuel as nat)[q] == ancestors@[k];
                        if q > 0 {
                            assert(sub[q - 1] == ancestors@[k]);
                        }
                    }
                }
                assert forall|k: int| 0 <= k < ancestors@.len() implies cf[#[trigger] ancestors@[k]] == ca[ancestors@[k]] by {
                    assert(ancestors@[k] != page_id.0);
                }
                self.lemma_content_dom();
                assert forall|other: RowId| #![trigger split_target(None, page_id, other)]
                    clear_of_insert(c0, page_id, key, other, fuel as nat, ancestors@) implies {
                        &&& tree_lookup(cf, split_target(None, page_id, other), other, fuel as nat)
                            == tree_lookup(c0, page_id, other, fuel as nat)
                        &&& forall|k: int| 0 <= k < ancestors@.len() ==> !lookup_path(cf, split_target(None, page_id, other), other, fuel as nat).contains(#[trigger] ancestors@[k])
                    } by {
                    let r2 = route(keys0, other);
                    let t2 = if r2 == child_idx { split_target(Some(split), internal_children0[child_idx as int], other) } else { internal_children0[r2] };
                    assert(clear_of_insert(c0, page_id, key, other, fuel as nat, ancestors@));
                    lemma_route_after_split(keys0, internal_children0, child_idx as int, split.separator, split.right, other);
                    let r3 = if r2 < child_idx { r2 } else if r2 == child_idx { if other.0 < split.separator.0 { child_idx as int } else { child_idx + 1 } } else { r2 + 1 };
                    assert forall|k: int| 0 <= k < ancestors@.len() implies !lookup_path(ca, t2, other, f1).contains(#[trigger] ancestors@[k]) by {
                        assert(below[k] == ancestors@[k]);
                    }
                    assert(!lookup_path(ca, t2, other, f1).contains(page_id.0)) by {
                        assert(below[ancestors@.len() as int] == page_id.0);
                    }
                    lemma_other_through_rewrite(ca, cf, page_id, keys1, children1, r3, t2, other, fuel as nat, ancestors@, page_id.0, page_id.0);
                }
            }
            return Ok(None);
        }
        ensure_strictly_sorted(internal.keys.as_slice(), "internal")?;
        let mid = internal.keys.len() / 2;
        let promoted = internal.keys[mid];
        let right_keys = internal.keys.split_off(mid + 1);
        internal.keys.truncate(mid);
        let right_children = internal.children.split_off(mid + 1);
        let right_page = match self.pool.allocate_page(PageKind::BTreeInternal) {
            Ok(id) => id,
            Err(e) => return Err(BTreeError::Buffer(e)),
        };
        let ghost c1 = self.content();
        proof {
            self.lemma_content_dom();
        }
        let right = InternalNode { keys: right_keys, children: right_children };
        let ghost left_keys = internal.keys@;
        let ghost left_children = internal.children@;
        let left_node = Node::Internal(internal);
        self.store_node(page_id, &left_node, lsn)?;
        let ghost c2 = self.content();
        let right_node = Node::Internal(right);
        self.store_node(right_page, &right_node, lsn)?;
        let ghost c3 = self.content();
        proof {
            assert(written_since(ca, c3, lsn)) by {
                assert forall|id: u64| #[trigger] c3.contains_key(id) && !(ca.contains_key(id) && c3[id] == ca[id]) implies {
                    &&& hdr_lsn(c3[id]) == lsn.0
                    &&& decoded_node(c3[id]) is Some
                    &&& node_valid(decoded_node(c3[id])->0)
                } by {
                    if id != page_id.0 && id != right_page.0 {
                        assert(c3[id] == c1[id]);
                    }
                }
            }
        }
        proof {
            let m = mid as int;
            assert(keys1.len() == MAX_INTERNAL_KEYS + 1);
            assert(!lookup_path(ca, t, key, f1).contains(page_id.0)) by {
                assert(below[ancestors@.len() as int] == page_id.0);
            }
            assert(!lookup_path(ca, t, key, f1).contains(right_page.0)) by {
                if lookup_path(ca, t, key, f1).contains(right_page.0) {
                    let q = choose|q: int| 0 <= q < lookup_path(ca, t, key, f1).len() && lookup_path(ca, t, key, f1)[q] == right_page.0;
                    assert(ca.contains_key(lookup_path(ca, t, key, f1)[q]));
                }
            }
            lemma_lookup_frame(ca, t, key, f1, right_page.0, c1[right_page.0]);
            assert(c1 == ca.insert(right_page.0, c1[right_page.0]));
            lemma_lookup_frame(c1, t, key, f1, page_id.0, c2[page_id.0]);
            assert(c2 == c1.insert(page_id.0, c2[page_id.0]));
            lemma_lookup_frame(c2, t, key, f1, right_page.0, c3[right_page.0]);
            assert(c3 == c2.insert(right_page.0, c3[right_page.0]));
            assert(right_page.0 != page_id.0);
            assert(c3[page_id.0] == c2[page_id.0]);
            let sp = Split { separator: promoted, right: right_page };
            let target = split_target(Some(sp), page_id, key);
            if key.0 < promoted.0 {
                assert(r1 <= m) by {
                    if r1 > m {
                        assert(keys1[m].0 <= key.0);
                    }
                }
                assert forall|j: int| 0 <= j < r1 implies (#[trigger] left_keys[j]).0 <= key.0 by {
                    assert(left_keys[j] == keys1[j]);
                }
                if r1 < m {
                    assert(left_keys[r1] == keys1[r1]);
                }
                assert(routes_to(left_keys, key, r1));
                lemma_route(left_keys, key, r1);
                assert(left_children[r1] == children1[r1]);
                assert(target == page_id);
            } else {
                assert(r1 > m) by {
                    if r1 <= m {
                        if r1 < m {
                            assert(keys1[r1].0 < keys1[m].0);
                        }
                    }
                }
                let rr = r1 - m - 1;
                assert forall|j: int| 0 <= j < rr implies (#[trigger] right.keys@[j]).0 <= key.0 by {
                    assert(right.keys@[j] == keys1[j + m + 1]);
                }
                if rr < right.keys@.len() {
                    assert(right.keys@[rr] == keys1[r1]);
                }
                assert(routes_to(right.keys@, key, rr));
                lemma_route(right.keys@, key, rr);
                assert(right.children@[rr] == children1[r1]);
                assert(target == right_page);
            }
            let sub = lookup_path(c3, t, key, f1);
            assert(lookup_path(c3, target, key, fuel as nat) == seq![target.0] + sub);
            assert forall|k: int| 0 <= k < ancestors@.len() implies !lookup_path(c3, target, key, fuel as nat).contains(#[trigger] ancestors@[k]) by {
                assert(below[k] == ancestors@[k]);
                assert(!sub.contains(below[k]));
                assert(ancestors@[k] != page_id.0);
                assert(ancestors@[k] != right_page.0);
                if lookup_path(c3, target, key, fuel as nat).contains(ancestors@[k]) {
                    let q = choose|q: int| 0 <= q < lookup_path(c3, target, key, fuel as nat).len() && lookup_path(c3, target, key, fuel as nat)[q] == ancestors@[k];
                    if q > 0 {
                        assert(sub[q - 1] == ancestors@[k]);
                    }
                }
            }
            assert forall|k: int| 0 <= k < ancestors@.len() implies c3[#[trigger] ancestors@[k]] == ca[ancestors@[k]] by {
                assert(ancestors@[k] != page_id.0);
                assert(ancestors@[k] != right_page.0);
            }
            self.lemma_content_dom();
            assert(left_keys == keys1.subrange(0, m));
            assert(left_children == children1.subrange(0, m + 1));
            assert(right.keys@ == keys1.subrange(m + 1, keys1.len() as int));
            assert(right.children@ == children1.subrange(m + 1, children1.len() as int));
            assert forall|other: RowId| #![trigger split_target(Some(sp), page_id, other)]
                clear_of_insert(c0, page_id, key, other, fuel as nat, ancestors@) implies {
                    &&& tree_lookup(c3, split_target(Some(sp), page_id, other), other, fuel as nat)
                        == tree_lookup(c0, page_id, other, fuel as nat)
                    &&& forall|k: int| 0 <= k < ancestors@.len() ==> !lookup_path(c3, split_target(Some(sp), page_id, other), other, fuel as nat).contains(#[trigger] ancestors@[k])
                } by {
                let r2 = route(keys0, other);
                let t2 = if r2 == child_idx { split_target(Some(split), internal_children0[child_idx as int], other) } else { internal_children0[r2] };
                assert(clear_of_insert(c0, page_id, key, other, fuel as nat, ancestors@));
                lemma_route_after_split(keys0, internal_children0, child_idx as int, split.separator, split.right, other);
                let r3 = if r2 < child_idx { r2 } else if r2 == child_idx { if other.0 < split.separator.0 { child_idx as int } else { child_idx + 1 } } else { r2 + 1 };
                lemma_route_in_half(keys1, other, r3, m);
                assert forall|k: int| 0 <= k < ancestors@.len() implies !lookup_path(ca, t2, other, f1).contains(#[trigger] ancestors@[k]) by {
                    assert(below[k] == ancestors@[k]);
                }
                assert(!lookup_path(ca, t2, other, f1).contains(page_id.0)) by {
                    assert(below[ancestors@.len() as int] == page_id.0);
                }
                lemma_lookup_path_exists(ca, t2, other, f1);
                assert(!lookup_path(ca, t2, other, f1).contains(right_page.0)) by {
                    if lookup_path(ca, t2, other, f1).contains(right_page.0) {
                        let q = choose|q: int| 0 <= q < lookup_path(ca, t2, other, f1).len() && lookup_path(ca, t2, other, f1)[q] == right_page.0;
                        assert(ca.contains_key(lookup_path(ca, t2, other, f1)[q]));
                    }
                }
                if other.0 < promoted.0 {
                    assert(left_children[r3] == children1[r3]);
                    lemma_other_through_rewrite(ca, c3, page_id, left_keys, left_children, r3, t2, other, fuel as nat, ancestors@, page_id.0, right_page.0);
                } else {
                    assert(right.children@[r3 - m - 1] == children1[r3]);
                    assert(!ancestors@.contains(right_page.0)) by {
                        if ancestors@.contains(right_page.0) {
                            let q = choose|q: int| 0 <= q < ancestors@.len() && ancestors@[q] == right_page.0;
                        }
                    }
                    lemma_other_through_rewrite(ca, c3, right_page, right.keys@, right.children@, r3 - m - 1, t2, other, fuel as nat, ancestors@, page_id.0, right_page.0);
                }
            }
        }
        Ok(Some(Split { separator: promoted, right: right_page }))
    }

    /// Returns the location stored for `key`, searching from the root. A
    /// search that cannot complete reports the first failure: the buffer
    /// pool's, or `Corrupt` for a page that does not decode or a descent
    /// longer than `MAX_DESCENT` pages.
    pub fn get(&mut self, key: RowId) -> (r: Result<Option<RowLocation>, BTreeError>)
        requires
            old(self).inv(),
        ensures
            final(self).inv(),
            final(self).root_page() == old(self).root_page(),
            !(r matches Err(BTreeError::Buffer(_))) ==> {
                &&& final(self).content() == old(self).content()
                &&& final(self).page_total() == old(self).page_total()
            },
            match r {
                Ok(v) => old(self).lookup(key) == Some(v),
                Err(e) => old(self).lookup(key) is None || e is Buffer,
            },
            old(self).well_formed() && old(self).page_total() <= u64::MAX ==> (r is Ok || r->Err_0 is Buffer),
            old(self).lookup(key) is Some && old(self).search_cached(key) ==> r is Ok,
    {
        proof {
            if self.well_formed() && self.page_total() <= u64::MAX {
                self.lemma_content_dom();
                let h = choose|h: nat| #[trigger] wf_tree(self.content(), self.root_page(), h);
                lemma_wf_lookup_found(self.content(), self.root_page(), h, key, self.page_total());
            }
        }
        let ghost c = self.content();
        let mut page_id = self.root;
        let mut fuel: u64 = MAX_DESCENT;
        loop
            invariant
                self.inv(),
                c == old(self).content(),
                self.content() == c,
                self.root_page() == old(self).root_page(),
                self.page_total() == old(self).page_total(),
                tree_lookup(c, old(self).root_page(), key, MAX_DESCENT as nat) == tree_lookup(c, page_id, key, fuel as nat),
                old(self).well_formed() && old(self).page_total() <= u64::MAX ==> tree_lookup(c, old(self).root_page(), key, MAX_DESCENT as nat) is Some,
                old(self).lookup(key) is Some && old(self).search_cached(key) ==> {
                    let p = lookup_path(c, page_id, key, fuel as nat);
                    forall|k: int| 0 <= k < p.len() ==> self.cached(#[trigger] p[k])
                },
            decreases fuel,
        {
            if fuel == 0 {
                return Err(BTreeError::Corrupt("B+Tree descent does not reach a leaf".to_owned()));
            }
            proof {
                let p = lookup_path(c, page_id, key, fuel as nat);
                assert(p[0] == page_id.0);
            }
            let page = match self.pool.read(page_id) {
                Ok(p) => p,
                Err(e) => return Err(BTreeError::Buffer(e)),
            };
            proof {
                lemma_decoded_node_sealed(page@);
            }
            let node = decode_node(&page)?;
            match node {
                Node::Leaf(leaf) => {
                    return match search(&leaf.keys, key) {
                        Ok(i) => {
                            proof {
                                lemma_leaf_value_at(leaf.keys@, leaf.values@, key, i as int);
                            }
                            Ok(Some(leaf.values[i]))
                        },
                        Err(_) => Ok(None),
                    };
                },
                Node::Internal(internal) => {
                    let idx = child_index(&internal.keys, key);
                    let ghost before_id = page_id;
                    proof {
                        lemma_route(internal.keys@, key, idx as int);
                    }
                    page_id = internal.children[idx];
                    proof {
                        if old(self).lookup(key) is Some && old(self).search_cached(key) {
                            lemma_path_tail(c, before_id, key, fuel as nat, internal.keys@, internal.children@);
                            let p = lookup_path(c, before_id, key, fuel as nat);
                            let sub = lookup_path(c, page_id, key, (fuel - 1) as nat);
                            assert forall|k: int| 0 <= k < sub.len() implies self.cached(#[trigger] sub[k]) by {
                                assert(p[k + 1] == sub[k]);
                            }
                        }
                    }
                    fuel = fuel - 1;
                },
            }
        }
    }
}

} // verus!
