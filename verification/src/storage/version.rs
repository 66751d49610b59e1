//! Historical (superseded) row versions.
use vstd::prelude::*;
use std::collections::HashMap;
use crate::ids::{CommitTs, RowId};
use crate::storage::current::bytes_opt;

verus! {

broadcast use vstd::std_specs::hash::group_hash_axioms;

/// A superseded row version, visible to snapshots in `[begin_ts, end_ts)`.
#[derive(Debug)]
pub struct HistoricalVersion {
    pub begin_ts: CommitTs,
    pub end_ts: CommitTs,
    pub value: Option<Vec<u8>>,
}

/// The mathematical content of a historical version.
pub struct VersionView {
    pub begin_ts: CommitTs,
    pub end_ts: CommitTs,
    pub value: Option<Seq<u8>>,
}

impl View for HistoricalVersion {
    type V = VersionView;

    open spec fn view(&self) -> VersionView {
        VersionView { begin_ts: self.begin_ts, end_ts: self.end_ts, value: bytes_opt(self.value) }
    }
}

/// The version is visible to a snapshot taken at `ts`.
pub open spec fn visible_at(v: VersionView, ts: CommitTs) -> bool {
    v.begin_ts.0 <= ts.0 && ts.0 < v.end_ts.0
}

/// Index of the last version in `vs[..n]` that is visible at `ts`, if any.
pub open spec fn last_visible(vs: Seq<VersionView>, ts: CommitTs, n: int) -> Option<int>
    decreases n,
{
    if n <= 0 {
        None
    } else if visible_at(vs[n - 1], ts) {
        Some(n - 1)
    } else {
        last_visible(vs, ts, n - 1)
    }
}

/// The versions of a row, oldest first, or none.
pub open spec fn versions_of(m: Map<u128, Seq<VersionView>>, row: u128) -> Seq<VersionView> {
    if m.contains_key(row) {
        m[row]
    } else {
        Seq::empty()
    }
}

pub open spec fn versions_view(v: Vec<HistoricalVersion>) -> Seq<VersionView> {
    v@.map_values(|h: HistoricalVersion| h@)
}

/// Superseded versions of every row, in the order they were superseded.
#[derive(Debug, Default)]
pub struct VersionStore {
    versions: HashMap<u128, Vec<HistoricalVersion>>,
}

impl VersionStore {
    /// The historical versions by row id.
    pub closed spec fn history(&self) -> Map<u128, Seq<VersionView>> {
        self.versions@.map_values(|v: Vec<HistoricalVersion>| versions_view(v))
    }

    /// An empty store.
    pub fn new() -> (r: Self)
        ensures
            r.history() == Map::<u128, Seq<VersionView>>::empty(),
    {
        let r = VersionStore { versions: HashMap::new() };
        proof {
            assert(r.history() =~= Map::<u128, Seq<VersionView>>::empty());
        }
        r
    }

    /// Appends a superseded version of `row_id`.
    pub fn push(&mut self, row_id: RowId, version: HistoricalVersion)
        ensures
            final(self).history() == old(self).history().insert(
                row_id.0,
                versions_of(old(self).history(), row_id.0).push(version@),
            ),
    {
        let ghost old_map = self.versions@;
        let mut list = match self.versions.remove(&row_id.0) {
            Some(l) => l,
            None => {
                let l: Vec<HistoricalVersion> = Vec::new();
                proof {
                    assert(versions_view(l) =~= Seq::<VersionView>::empty());
                }
                l
            },
        };
        let ghost before = versions_view(list);
        proof {
            assert(before == versions_of(old(self).history(), row_id.0));
            assert(self.versions@ == old_map.remove(row_id.0));
        }
        list.push(version);
        proof {
            assert(versions_view(list) =~= before.push(version@));
        }
        self.versions.insert(row_id.0, list);
        proof {
            assert(self.history() =~= old(self).history().insert(
                row_id.0,
                versions_of(old(self).history(), row_id.0).push(version@),
            ));
        }
    }

    /// The most recently superseded version of `row_id` that is visible at `ts`.
    pub fn get_at(&self, row_id: RowId, ts: CommitTs) -> (r: Option<&HistoricalVersion>)
        ensures
            ({
                let vs = versions_of(self.history(), row_id.0);
                match last_visible(vs, ts, vs.len() as int) {
                    Some(i) => r is Some && r->0@ == vs[i],
                    None => r is None,
                }
            }),
    {
        let list = match self.versions.get(&row_id.0) {
            Some(l) => l,
            None => return None,
        };
        let ghost vs = versions_view(*list);
        proof {
            assert(vs == versions_of(self.history(), row_id.0));
        }
        let mut i = list.len();
        while i > 0
            invariant
                i <= list@.len(),
                vs == versions_view(*list),
                vs == versions_of(self.history(), row_id.0),
                last_visible(vs, ts, vs.len() as int) == last_visible(vs, ts, i as int),
            decreases i,
        {
            let v = &list[i - 1];
            proof {
                assert(vs[i - 1] == list@[i - 1]@);
            }
            if v.begin_ts.0 <= ts.0 && ts.0 < v.end_ts.0 {
                assert(last_visible(vs, ts, i as int) == Some(i - 1));
                return Some(v);
            }
            i = i - 1;
        }
        None
    }

    /// All superseded versions of `row_id`, oldest first.
    pub fn all_for(&self, row_id: RowId) -> (r: &[HistoricalVersion])
        ensures
            r@.map_values(|h: HistoricalVersion| h@) == versions_of(self.history(), row_id.0),
    {
        match self.versions.get(&row_id.0) {
            Some(l) => l.as_slice(),
            None => {
                let r: &[HistoricalVersion] = &[];
                proof {
                    assert(r@.map_values(|h: HistoricalVersion| h@) =~= Seq::<VersionView>::empty());
                }
                r
            },
        }
    }
}

} // verus!
