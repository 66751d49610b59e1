//! A transaction: its snapshot and its buffered writes.
use vstd::prelude::*;
use std::collections::HashMap;
use crate::ids::{CommitTs, RowId, TxId};
use crate::storage::current::bytes_opt;
use crate::tx::mutation::{Mutation, MutationView};

verus! {

broadcast use vstd::std_specs::hash::group_hash_axioms;

/// A transaction: identifier, snapshot timestamp, buffered writes by row id
/// and whether it has been committed or rolled back.
#[derive(Debug)]
pub struct Transaction {
    pub(crate) id: TxId,
    pub(crate) snapshot_ts: CommitTs,
    pub(crate) writes: HashMap<u128, Mutation>,
    pub(crate) closed: bool,
}

/// What a transaction reads from its own write set: `Some(Some(v))` for a
/// buffered put, `Some(None)` for a buffered delete, `None` if it did not
/// write the row.
pub open spec fn spec_local_read(w: Map<u128, MutationView>, row: u128) -> Option<Option<Seq<u8>>> {
    if w.contains_key(row) {
        match w[row] {
            MutationView::Put(v) => Some(Some(v)),
            MutationView::Delete => Some(None),
        }
    } else {
        None
    }
}

impl Transaction {
    pub closed spec fn spec_id(&self) -> TxId {
        self.id
    }

    pub closed spec fn spec_snapshot_ts(&self) -> CommitTs {
        self.snapshot_ts
    }

    /// The buffered writes by row id.
    pub closed spec fn spec_writes(&self) -> Map<u128, MutationView> {
        self.writes@.map_values(|m: Mutation| m@)
    }

    pub closed spec fn spec_closed(&self) -> bool {
        self.closed
    }

    /// A fresh open transaction with no writes.
    pub(crate) fn new(id: TxId, snapshot_ts: CommitTs) -> (r: Self)
        ensures
            r.spec_id() == id,
            r.spec_snapshot_ts() == snapshot_ts,
            r.spec_writes() == Map::<u128, MutationView>::empty(),
            !r.spec_closed(),
    {
        let r = Self { id, snapshot_ts, writes: HashMap::new(), closed: false };
        proof {
            assert(r.spec_writes() =~= Map::<u128, MutationView>::empty());
        }
        r
    }

    pub fn id(&self) -> (r: TxId)
        ensures
            r == self.spec_id(),
    {
        self.id
    }

    pub fn snapshot_ts(&self) -> (r: CommitTs)
        ensures
            r == self.spec_snapshot_ts(),
    {
        self.snapshot_ts
    }

    /// Buffers a put of `row`, replacing any earlier buffered write of it.
    pub fn put(&mut self, row_id: RowId, row: Vec<u8>)
        ensures
            final(self).spec_writes() == old(self).spec_writes().insert(row_id.0, MutationView::Put(row@)),
            final(self).spec_id() == old(self).spec_id(),
            final(self).spec_snapshot_ts() == old(self).spec_snapshot_ts(),
            final(self).spec_closed() == old(self).spec_closed(),
    {
        self.writes.insert(row_id.0, Mutation::Put(row));
        proof {
            assert(self.spec_writes() =~= old(self).spec_writes().insert(row_id.0, MutationView::Put(row@)));
        }
    }

    /// Buffers a deletion of `row`, replacing any earlier buffered write of it.
    pub fn delete(&mut self, row_id: RowId)
        ensures
            final(self).spec_writes() == old(self).spec_writes().insert(row_id.0, MutationView::Delete),
            final(self).spec_id() == old(self).spec_id(),
            final(self).spec_snapshot_ts() == old(self).spec_snapshot_ts(),
            final(self).spec_closed() == old(self).spec_closed(),
    {
        self.writes.insert(row_id.0, Mutation::Delete);
        proof {
            assert(self.spec_writes() =~= old(self).spec_writes().insert(row_id.0, MutationView::Delete));
        }
    }

    /// Reads `row` from the transaction's own buffered writes.
    pub fn local_read(&self, row_id: RowId) -> (r: Option<Option<Vec<u8>>>)
        ensures
            match r {
                Some(v) => spec_local_read(self.spec_writes(), row_id.0) == Some(bytes_opt(v)),
                None => spec_local_read(self.spec_writes(), row_id.0) is None,
            },
    {
        match self.writes.get(&row_id.0) {
            Some(Mutation::Put(row)) => {
                let c = row.clone();
                proof {
                    assert(c@ =~= row@);
                }
                Some(Some(c))
            },
            Some(Mutation::Delete) => Some(None),
            None => None,
        }
    }

    /// The buffered writes, keyed by row id.
    pub fn writes(&self) -> (r: &HashMap<u128, Mutation>)
        ensures
            r@.map_values(|m: Mutation| m@) == self.spec_writes(),
    {
        &self.writes
    }

    pub fn mark_closed(&mut self)
        ensures
            final(self).spec_closed(),
            final(self).spec_writes() == old(self).spec_writes(),
            final(self).spec_id() == old(self).spec_id(),
            final(self).spec_snapshot_ts() == old(self).spec_snapshot_ts(),
    {
        self.closed = true;
    }

    pub fn is_closed(&self) -> (r: bool)
        ensures
            r == self.spec_closed(),
    {
        self.closed
    }
}

/// A transaction reads its own writes: after buffering a put of `v` (and
/// with no later write of that row) a local read returns `v`; after a delete
/// it returns "deleted"; writes to other rows do not change it.
pub proof fn lemma_reads_own_writes(w: Map<u128, MutationView>, row: u128, v: Seq<u8>, other: u128, m: MutationView)
    ensures
        spec_local_read(w.insert(row, MutationView::Put(v)), row) == Some(Some(v)),
        spec_local_read(w.insert(row, MutationView::Delete), row) == Some(None::<Seq<u8>>),
        other != row ==> spec_local_read(w.insert(other, m), row) == spec_local_read(w, row),
{
}

} // verus!
