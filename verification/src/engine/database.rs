//! The decisions of the database handle: what a read returns, what a commit
//! logs and installs, and which checkpoint recovery records.
use vstd::prelude::*;
use vstd::std_specs::iter::IteratorSpec;
use crate::engine::commit_log::is_commit_log;
use crate::engine::error::DbError;
use crate::engine::recovery::records_v;
use crate::ids::{CommitTs, Lsn, RowId};
use crate::storage::checkpoint::Checkpoint;
use crate::storage::current::{bytes_opt, clone_value, CurrentRecord, RecordView};
use crate::storage::stores::{spec_read_at, StoresView};
use crate::storage::version::{HistoricalVersion, VersionStore};
use crate::tx::mutation::{Mutation, MutationView};
use crate::tx::transaction::{spec_local_read, Transaction};
use crate::wal::record::{RecordV, WalRecord};

verus! {

broadcast use vstd::std_specs::hash::group_hash_axioms;

/// The store pair made of one row's persisted current record, if any, and
/// the superseded versions.
pub open spec fn row_stores(row: u128, current: Option<RecordView>, versions: &VersionStore) -> StoresView {
    StoresView {
        current: match current {
            Some(c) => Map::empty().insert(row, c),
            None => Map::empty(),
        },
        history: versions.history(),
    }
}

/// The value of `row_id` visible to a snapshot at `ts`, given the row's
/// persisted current record and the superseded versions: the current record
/// if it committed at or before `ts`, else the version whose lifetime holds
/// `ts`.
pub fn visible_value(current: &Option<CurrentRecord>, versions: &VersionStore, row_id: RowId, ts: CommitTs) -> (r: Option<Vec<u8>>)
    ensures
        bytes_opt(r) == spec_read_at(
            row_stores(row_id.0, match current { Some(c) => Some(c@), None => None }, versions),
            row_id.0,
            ts,
        ),
{
    if let Some(c) = current {
        if c.commit_ts.0 <= ts.0 {
            return clone_value(&c.value);
        }
    }
    match versions.get_at(row_id, ts) {
        Some(v) => clone_value(&v.value),
        None => None,
    }
}

/// How a read inside a transaction is answered.
pub enum TxRead {
    /// From the transaction's own buffered write: the value, or `None` for a
    /// buffered delete.
    Local(Option<Vec<u8>>),
    /// From the stores, as visible at the transaction's snapshot.
    Snapshot(CommitTs),
}

/// Decides how a read of `row_id` inside `tx` is answered: a closed
/// transaction is refused, a row it wrote is answered from its own writes,
/// any other row from its snapshot.
pub fn tx_read(tx: &Transaction, row_id: RowId) -> (r: Result<TxRead, DbError>)
    ensures
        match r {
            Ok(TxRead::Local(v)) => !tx.spec_closed() && spec_local_read(tx.spec_writes(), row_id.0) == Some(bytes_opt(v)),
            Ok(TxRead::Snapshot(ts)) => !tx.spec_closed() && spec_local_read(tx.spec_writes(), row_id.0) is None
                && ts == tx.spec_snapshot_ts(),
            Err(e) => tx.spec_closed() && e is TransactionClosed,
        },
{
    if tx.is_closed() {
        return Err(DbError::TransactionClosed);
    }
    match tx.local_read(row_id) {
        Some(v) => Ok(TxRead::Local(v)),
        None => Ok(TxRead::Snapshot(tx.snapshot_ts())),
    }
}

/// Refuses to commit or roll back a closed transaction.
pub fn ensure_open(tx: &Transaction) -> (r: Result<(), DbError>)
    ensures
        match r {
            Ok(()) => !tx.spec_closed(),
            Err(e) => tx.spec_closed() && e is TransactionClosed,
        },
{
    if tx.is_closed() {
        Err(DbError::TransactionClosed)
    } else {
        Ok(())
    }
}

/// The log record of one buffered write of transaction `tx_id`.
pub open spec fn write_record(tx_id: crate::ids::TxId, row: u128, m: MutationView) -> RecordV {
    match m {
        MutationView::Put(v) => RecordV::Put { tx_id, row_id: RowId(row), value: v },
        MutationView::Delete => RecordV::Delete { tx_id, row_id: RowId(row) },
    }
}

/// The row a record is about (zero for records about no row).
pub open spec fn record_row(r: RecordV) -> u128 {
    match r {
        RecordV::Put { row_id, .. } => row_id.0,
        RecordV::Delete { row_id, .. } => row_id.0,
        RecordV::Version { row_id, .. } => row_id.0,
        _ => 0,
    }
}

/// The records a commit appends to the log: `Begin`, one `Put` or `Delete`
/// per buffered write (in the order the write set yields them), and
/// `Commit` at `commit_ts`.
pub fn commit_records(tx: &Transaction, commit_ts: CommitTs) -> (r: Vec<WalRecord>)
    ensures
        r@.len() == tx.spec_writes().dom().len() + 2,
        r@[0]@ == (RecordV::Begin { tx_id: tx.spec_id(), snapshot_ts: tx.spec_snapshot_ts() }),
        r@[r@.len() - 1]@ == (RecordV::Commit { tx_id: tx.spec_id(), commit_ts }),
        forall|i: int| #![trigger r@[i]] 1 <= i < r@.len() - 1 ==> tx.spec_writes().contains_key(record_row(r@[i]@))
            && r@[i]@ == write_record(tx.spec_id(), record_row(r@[i]@), tx.spec_writes()[record_row(r@[i]@)]),
        forall|row: u128| #[trigger] tx.spec_writes().contains_key(row) ==> exists|i: int| 1 <= i < r@.len() - 1
            && r@[i]@ == write_record(tx.spec_id(), row, tx.spec_writes()[row]),
        forall|i: int, j: int| 1 <= i < j < r@.len() - 1 ==> record_row(#[trigger] r@[i]@) != record_row(#[trigger] r@[j]@),
        is_commit_log(records_v(r@), tx.spec_id(), tx.spec_snapshot_ts(), tx.spec_writes(), commit_ts),
{
    let id = tx.id();
    let mut out: Vec<WalRecord> = Vec::new();
    out.push(WalRecord::Begin { tx_id: id, snapshot_ts: tx.snapshot_ts() });
    let writes = tx.writes();
    let ghost w = tx.spec_writes();
    let ghost items = vstd::std_specs::hash::spec_hash_map_iter(writes).remaining();
    proof {
        assert(w.dom() =~= writes@.dom());
        assert forall|row: u128| #[trigger] w.contains_key(row) implies w[row] == writes@[row]@ by {}
    }
    for (row_id, mutation) in it: writes.iter()
        invariant
            it.seq() == items,
            id == tx.spec_id(),
            w == tx.spec_writes(),
            w.dom() == writes@.dom(),
            forall|row: u128| #[trigger] w.contains_key(row) ==> w[row] == writes@[row]@,
            out@.len() == it.index() + 1,
            out@[0]@ == (RecordV::Begin { tx_id: tx.spec_id(), snapshot_ts: tx.spec_snapshot_ts() }),
            forall|j: int| #![trigger items[j]] 0 <= j < it.index() ==> w.contains_key(*items[j].0)
                && out@[j + 1]@ == write_record(id, *items[j].0, w[*items[j].0]),
            items.no_duplicates(),
            forall|j: int| #![trigger items[j]] 0 <= j < items.len() ==> writes@.contains_key(*items[j].0) && writes@[*items[j].0] == *items[j].1,
    {
        proof {
            assert(writes@.contains_key(*row_id) && writes@[*row_id] == *mutation);
        }
        let record = match mutation {
            Mutation::Put(v) => {
                let value = v.clone();
                proof {
                    assert(value@ =~= v@);
                }
                WalRecord::Put { tx_id: id, row_id: RowId(*row_id), value }
            },
            Mutation::Delete => WalRecord::Delete { tx_id: id, row_id: RowId(*row_id) },
        };
        out.push(record);
    }
    out.push(WalRecord::Commit { tx_id: id, commit_ts });
    proof {
        assert forall|i: int| #![trigger out@[i]] 1 <= i < out@.len() - 1 implies w.contains_key(record_row(out@[i]@))
            && out@[i]@ == write_record(id, record_row(out@[i]@), w[record_row(out@[i]@)]) by {
            assert(w.contains_key(*items[i - 1].0));
        }
        assert forall|row: u128| #[trigger] w.contains_key(row) implies exists|i: int| 1 <= i < out@.len() - 1
            && out@[i]@ == write_record(id, row, w[row]) by {
            assert(writes@.contains_key(row));
            assert(items.contains((&row, &writes@[row])));
            let j = choose|j: int| 0 <= j < items.len() && items[j] == (&row, &writes@[row]);
            assert(out@[j + 1]@ == write_record(id, row, w[row]));
        }
        let rv = records_v(out@);
        assert forall|i: int| 0 <= i < out@.len() implies #[trigger] rv[i] == out@[i]@ by {}
        assert forall|row: u128| #[trigger] w.contains_key(row) implies exists|i: int| 1 <= i < rv.len() - 1
            && rv[i] == write_record(id, row, w[row]) by {
            let i = choose|i: int| 1 <= i < out@.len() - 1 && out@[i]@ == write_record(id, row, w[row]);
            assert(rv[i] == out@[i]@);
        }
        assert forall|i: int, j: int| 1 <= i < j < out@.len() - 1 implies record_row(#[trigger] out@[i]@) != record_row(#[trigger] out@[j]@) by {
            let a = items[i - 1];
            let b = items[j - 1];
            assert(record_row(out@[i]@) == *a.0);
            assert(record_row(out@[j]@) == *b.0);
            if *a.0 == *b.0 {
                assert(*a.1 == writes@[*a.0]);
                assert(*b.1 == writes@[*b.0]);
                assert(a == b);
            }
        }
    }
    out
}

/// The superseded version a commit at `commit_ts` makes of a row's previous
/// current record: visible from its commit until `commit_ts`.
pub fn superseded_version(previous: &CurrentRecord, commit_ts: CommitTs) -> (r: HistoricalVersion)
    ensures
        r.begin_ts == previous.commit_ts,
        r.end_ts == commit_ts,
        bytes_opt(r.value) == bytes_opt(previous.value),
{
    HistoricalVersion { begin_ts: previous.commit_ts, end_ts: commit_ts, value: clone_value(&previous.value) }
}

/// The current record a buffered write installs when committed at
/// `commit_ts`: its value, or no value for a delete.
pub fn committed_record(mutation: &Mutation, commit_ts: CommitTs) -> (r: CurrentRecord)
    ensures
        r.commit_ts == commit_ts,
        bytes_opt(r.value) == match mutation@ {
            MutationView::Put(v) => Some(v),
            MutationView::Delete => None,
        },
{
    match mutation {
        Mutation::Put(v) => {
            let value = v.clone();
            proof {
                assert(value@ =~= v@);
            }
            CurrentRecord { commit_ts, value: Some(value) }
        },
        Mutation::Delete => CurrentRecord { commit_ts, value: None },
    }
}

/// The LSN of the last `Commit` record of the log, or `default` if it has
/// none.
pub open spec fn last_commit_lsn(entries: Seq<(Lsn, RecordV)>, default: u64) -> u64
    decreases entries.len(),
{
    if entries.len() == 0 {
        default
    } else if entries.last().1 is Commit {
        entries.last().0.0
    } else {
        last_commit_lsn(entries.drop_last(), default)
    }
}

/// Returns the LSN of the last `Commit` record of `entries`, or
/// `checkpoint_lsn` if there is none.
pub fn latest_commit_lsn(entries: &[(Lsn, WalRecord)], checkpoint_lsn: u64) -> (r: u64)
    ensures
        r == last_commit_lsn(entries@.map_values(|e: (Lsn, WalRecord)| (e.0, e.1@)), checkpoint_lsn),
{
    let ghost es = entries@.map_values(|e: (Lsn, WalRecord)| (e.0, e.1@));
    let mut i: usize = entries.len();
    assert(es.subrange(0, i as int) =~= es);
    while i > 0
        invariant
            i <= entries@.len(),
            es == entries@.map_values(|e: (Lsn, WalRecord)| (e.0, e.1@)),
            last_commit_lsn(es, checkpoint_lsn) == last_commit_lsn(es.subrange(0, i as int), checkpoint_lsn),
        decreases i,
    {
        let ghost pre = es.subrange(0, i as int);
        assert(pre.drop_last() =~= es.subrange(0, i - 1));
        assert(pre.last() == es[i - 1]);
        if let WalRecord::Commit { .. } = &entries[i - 1].1 {
            return entries[i - 1].0.0;
        }
        i = i - 1;
    }
    assert(es.subrange(0, 0) =~= Seq::<(Lsn, RecordV)>::empty());
    checkpoint_lsn
}

/// The checkpoint recovery records, if the log holds commits beyond the
/// stored checkpoint: the last commit LSN of the log and the highest
/// recovered commit timestamp.
pub fn recovery_checkpoint(entries: &[(Lsn, WalRecord)], stored: &Checkpoint, max_commit_ts: u64) -> (r: Option<Checkpoint>)
    ensures
        ({
            let latest = last_commit_lsn(entries@.map_values(|e: (Lsn, WalRecord)| (e.0, e.1@)), stored.last_applied_commit_lsn);
            if max_commit_ts > stored.last_commit_ts || latest > stored.last_applied_commit_lsn {
                r == Some(Checkpoint { last_applied_commit_lsn: latest, last_commit_ts: max_commit_ts })
            } else {
                r is None
            }
        }),
{
    let latest = latest_commit_lsn(entries, stored.last_applied_commit_lsn);
    if max_commit_ts > stored.last_commit_ts || latest > stored.last_applied_commit_lsn {
        Some(Checkpoint { last_applied_commit_lsn: latest, last_commit_ts: max_commit_ts })
    } else {
        None
    }
}

} // verus!
