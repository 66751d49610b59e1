//! The MVCC store pair: current records plus superseded versions.
use vstd::prelude::*;
use crate::ids::{CommitTs, RowId};
use crate::storage::current::{bytes_opt, clone_value, CurrentRecord, CurrentStore, RecordView};
use crate::storage::version::{last_visible, versions_of, visible_at, HistoricalVersion, VersionStore, VersionView};

verus! {

/// The mathematical content of the store pair.
pub struct StoresView {
    pub current: Map<u128, RecordView>,
    pub history: Map<u128, Seq<VersionView>>,
}

/// The value of `row` visible to a snapshot at `ts`: the current record if it
/// committed at or before `ts`, else the last superseded version whose
/// lifetime contains `ts`.
pub open spec fn spec_read_at(s: StoresView, row: u128, ts: CommitTs) -> Option<Seq<u8>> {
    if s.current.contains_key(row) && s.current[row].commit_ts.0 <= ts.0 {
        s.current[row].value
    } else {
        let vs = versions_of(s.history, row);
        match last_visible(vs, ts, vs.len() as int) {
            Some(i) => vs[i].value,
            None => None,
        }
    }
}

/// Installs `value` (`None` for a delete) as the current record of `row` at
/// `ts`, moving the previous current record, if any, into the history with
/// lifetime `[previous commit, ts)`.
pub open spec fn spec_apply(s: StoresView, row: u128, value: Option<Seq<u8>>, ts: CommitTs) -> StoresView {
    StoresView {
        current: s.current.insert(row, RecordView { commit_ts: ts, value }),
        history: if s.current.contains_key(row) {
            s.history.insert(
                row,
                versions_of(s.history, row).push(
                    VersionView { begin_ts: s.current[row].commit_ts, end_ts: ts, value: s.current[row].value },
                ),
            )
        } else {
            s.history
        },
    }
}

/// Groups the current-state and historical-version stores of the MVCC engine.
#[derive(Debug, Default)]
pub struct Stores {
    pub current: CurrentStore,
    pub versions: VersionStore,
}

impl View for Stores {
    type V = StoresView;

    open spec fn view(&self) -> StoresView {
        StoresView { current: self.current.records(), history: self.versions.history() }
    }
}

impl Stores {
    /// Empty stores.
    pub fn new() -> (r: Self)
        ensures
            r@.current == Map::<u128, RecordView>::empty(),
            r@.history == Map::<u128, Seq<VersionView>>::empty(),
    {
        Stores { current: CurrentStore::new(), versions: VersionStore::new() }
    }

    /// Reads the value of `row_id` visible at snapshot `ts`.
    pub fn read_at(&self, row_id: RowId, ts: CommitTs) -> (r: Option<Vec<u8>>)
        ensures
            bytes_opt(r) == spec_read_at(self@, row_id.0, ts),
    {
        if let Some(current) = self.current.get(row_id) {
            if current.commit_ts.0 <= ts.0 {
                return clone_value(&current.value);
            }
        }
        match self.versions.get_at(row_id, ts) {
            Some(version) => clone_value(&version.value),
            None => None,
        }
    }

    /// Installs `value` as the row's current record committed at `commit_ts`.
    pub fn apply_put(&mut self, row_id: RowId, value: Vec<u8>, commit_ts: CommitTs)
        ensures
            final(self)@ == spec_apply(old(self)@, row_id.0, Some(value@), commit_ts),
    {
        self.apply(row_id, Some(value), commit_ts);
    }

    /// Installs a deletion as the row's current record committed at `commit_ts`.
    pub fn apply_delete(&mut self, row_id: RowId, commit_ts: CommitTs)
        ensures
            final(self)@ == spec_apply(old(self)@, row_id.0, None, commit_ts),
    {
        self.apply(row_id, None, commit_ts);
    }

    fn apply(&mut self, row_id: RowId, value: Option<Vec<u8>>, commit_ts: CommitTs)
        ensures
            final(self)@ == spec_apply(old(self)@, row_id.0, bytes_opt(value), commit_ts),
    {
        if let Some(old) = self.current.remove(row_id) {
            self.versions.push(
                row_id,
                HistoricalVersion { begin_ts: old.commit_ts, end_ts: commit_ts, value: old.value },
            );
        }
        self.current.insert(row_id, CurrentRecord { commit_ts, value });
        proof {
            assert(self@.current =~= spec_apply(old(self)@, row_id.0, bytes_opt(value), commit_ts).current);
        }
    }
}

/// Appending a version does not change which of the earlier versions is the
/// last one visible among the first `n`.
proof fn lemma_last_visible_push(vs: Seq<VersionView>, x: VersionView, ts: CommitTs, n: int)
    requires
        0 <= n <= vs.len(),
    ensures
        last_visible(vs.push(x), ts, n) == last_visible(vs, ts, n),
    decreases n,
{
    if n > 0 {
        lemma_last_visible_push(vs, x, ts, n - 1);
    }
}

/// The last visible index lies below the bound.
proof fn lemma_last_visible_range(vs: Seq<VersionView>, ts: CommitTs, n: int)
    ensures
        last_visible(vs, ts, n) matches Some(i) ==> 0 <= i < n,
    decreases n,
{
    if n > 0 {
        lemma_last_visible_range(vs, ts, n - 1);
    }
}

/// Snapshot reads are repeatable: committing a newer version of a row (with
/// a commit timestamp later than the row's current one) changes no read at a
/// snapshot older than that commit, and a read at or after the commit sees
/// the new value.
pub proof fn lemma_commit_keeps_older_snapshots(
    s: StoresView,
    row: u128,
    value: Option<Seq<u8>>,
    ts: CommitTs,
    other: u128,
    t: CommitTs,
)
    requires
        s.current.contains_key(row) ==> s.current[row].commit_ts.0 < ts.0,
    ensures
        t.0 < ts.0 ==> spec_read_at(spec_apply(s, row, value, ts), other, t) == spec_read_at(s, other, t),
        ts.0 <= t.0 ==> spec_read_at(spec_apply(s, row, value, ts), row, t) == value,
{
    let n = spec_apply(s, row, value, ts);
    if other != row {
        assert(versions_of(n.history, other) == versions_of(s.history, other));
        assert(n.current.contains_key(other) == s.current.contains_key(other));
        if s.current.contains_key(other) {
            assert(n.current[other] == s.current[other]);
        }
    } else if t.0 < ts.0 && !s.current.contains_key(row) {
        assert(n.history == s.history);
        assert(n.current[row].commit_ts == ts);
    } else if t.0 < ts.0 && s.current.contains_key(row) {
        let vs = versions_of(s.history, row);
        let h = VersionView { begin_ts: s.current[row].commit_ts, end_ts: ts, value: s.current[row].value };
        let ws = vs.push(h);
        assert(versions_of(n.history, row) == ws);
        assert(n.current[row].commit_ts == ts);
        assert(ws[vs.len() as int] == h);
        if visible_at(h, t) {
            assert(last_visible(ws, t, ws.len() as int) == Some(vs.len() as int));
        } else {
            lemma_last_visible_push(vs, h, t, vs.len() as int);
            assert(last_visible(ws, t, ws.len() as int) == last_visible(ws, t, vs.len() as int));
            assert(last_visible(ws, t, ws.len() as int) == last_visible(vs, t, vs.len() as int));
            match last_visible(vs, t, vs.len() as int) {
                Some(i) => {
                    lemma_last_visible_range(vs, t, vs.len() as int);
                    assert(ws[i] == vs[i]);
                },
                None => {},
            }
        }
        assert(spec_read_at(n, other, t) == spec_read_at(s, other, t));
    }
}

} // verus!
