//! The latest committed record of every row.
use vstd::prelude::*;
use vstd::std_specs::iter::IteratorSpec;
use std::collections::HashMap;
use crate::ids::{CommitTs, RowId};

verus! {

broadcast use vstd::std_specs::hash::group_hash_axioms;

/// The bytes of an optional row value, as a sequence.
pub open spec fn bytes_opt(v: Option<Vec<u8>>) -> Option<Seq<u8>> {
    match v {
        Some(b) => Some(b@),
        None => None,
    }
}

/// Clones an optional row value.
pub fn clone_value(v: &Option<Vec<u8>>) -> (r: Option<Vec<u8>>)
    ensures
        bytes_opt(r) == bytes_opt(*v),
{
    match v {
        Some(b) => {
            let c = b.clone();
            proof {
                assert(c@ =~= b@);
            }
            Some(c)
        },
        None => None,
    }
}

/// The latest committed state of one row: its commit timestamp and its
/// encoded value, `None` for a deleted row.
#[derive(Debug)]
pub struct CurrentRecord {
    pub commit_ts: CommitTs,
    pub value: Option<Vec<u8>>,
}

/// The mathematical content of a current record.
pub struct RecordView {
    pub commit_ts: CommitTs,
    pub value: Option<Seq<u8>>,
}

impl View for CurrentRecord {
    type V = RecordView;

    open spec fn view(&self) -> RecordView {
        RecordView { commit_ts: self.commit_ts, value: bytes_opt(self.value) }
    }
}

impl Clone for CurrentRecord {
    fn clone(&self) -> (r: Self)
        ensures
            r@ == self@,
    {
        CurrentRecord { commit_ts: self.commit_ts, value: clone_value(&self.value) }
    }
}

/// The current record of every row, keyed by row id.
#[derive(Debug, Default)]
pub struct CurrentStore {
    rows: HashMap<u128, CurrentRecord>,
}

impl CurrentStore {
    /// The current records by row id.
    pub closed spec fn records(&self) -> Map<u128, RecordView> {
        self.rows@.map_values(|r: CurrentRecord| r@)
    }

    /// An empty store.
    pub fn new() -> (r: Self)
        ensures
            r.records() == Map::<u128, RecordView>::empty(),
    {
        let r = CurrentStore { rows: HashMap::new() };
        proof {
            assert(r.records() =~= Map::<u128, RecordView>::empty());
        }
        r
    }

    /// Returns the current record of `row_id`, if any.
    pub fn get(&self, row_id: RowId) -> (r: Option<&CurrentRecord>)
        ensures
            match r {
                Some(rec) => self.records().contains_key(row_id.0) && rec@ == self.records()[row_id.0],
                None => !self.records().contains_key(row_id.0),
            },
    {
        self.rows.get(&row_id.0)
    }

    /// Sets the current record of `row_id` and returns the previous one.
    pub fn insert(&mut self, row_id: RowId, record: CurrentRecord) -> (r: Option<CurrentRecord>)
        ensures
            final(self).records() == old(self).records().insert(row_id.0, record@),
            match r {
                Some(prev) => old(self).records().contains_key(row_id.0) && prev@ == old(self).records()[row_id.0],
                None => !old(self).records().contains_key(row_id.0),
            },
    {
        let r = self.rows.insert(row_id.0, record);
        proof {
            assert(self.records() =~= old(self).records().insert(row_id.0, record@));
        }
        r
    }

    /// Removes and returns the current record of `row_id`.
    pub fn remove(&mut self, row_id: RowId) -> (r: Option<CurrentRecord>)
        ensures
            final(self).records() == old(self).records().remove(row_id.0),
            match r {
                Some(prev) => old(self).records().contains_key(row_id.0) && prev@ == old(self).records()[row_id.0],
                None => !old(self).records().contains_key(row_id.0),
            },
    {
        let r = self.rows.remove(&row_id.0);
        proof {
            assert(self.records() =~= old(self).records().remove(row_id.0));
        }
        r
    }
    /// Every row with its current record, in the order the store yields
    /// them; each row appears once.
    pub fn iter(&self) -> (r: Vec<(RowId, CurrentRecord)>)
        ensures
            r@.len() == self.records().dom().len(),
            forall|i: int| #![trigger r@[i]] 0 <= i < r@.len() ==> self.records().contains_key(r@[i].0.0) && r@[i].1@ == self.records()[r@[i].0.0],
            forall|row: u128| #[trigger] self.records().contains_key(row) ==> exists|i: int| 0 <= i < r@.len() && r@[i].0.0 == row,
    {
        let mut out: Vec<(RowId, CurrentRecord)> = Vec::new();
        let ghost items = vstd::std_specs::hash::spec_hash_map_iter(&self.rows).remaining();
        let ghost recs = self.records();
        proof {
            assert(recs.dom() =~= self.rows@.dom());
        }
        for (row, record) in it: self.rows.iter()
            invariant
                it.seq() == items,
                recs == self.records(),
                recs.dom() == self.rows@.dom(),
                out@.len() == it.index(),
                forall|j: int| #![trigger out@[j]] 0 <= j < it.index() ==> out@[j].0.0 == *items[j].0
                    && recs.contains_key(out@[j].0.0) && out@[j].1@ == recs[out@[j].0.0],
        {
            proof {
                assert(self.rows@.contains_key(*row) && self.rows@[*row] == *record);
            }
            out.push((RowId(*row), record.clone()));
        }
        proof {
            assert forall|row: u128| #[trigger] recs.contains_key(row) implies exists|i: int| 0 <= i < out@.len() && out@[i].0.0 == row by {
                assert(self.rows@.contains_key(row));
                assert(items.contains((&row, &self.rows@[row])));
                let j = choose|j: int| 0 <= j < items.len() && items[j] == (&row, &self.rows@[row]);
                assert(out@[j].0.0 == row);
            }
        }
        out
    }
}

} // verus!
