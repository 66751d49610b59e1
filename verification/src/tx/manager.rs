//! Allocation and publication of transaction ids and commit timestamps.
use vstd::prelude::*;
use crate::ids::{CommitTs, TxId};
use crate::tx::transaction::Transaction;

verus! {

/// Hands out transaction ids and commit timestamps, and tracks the latest
/// published commit, which is the snapshot of newly started transactions.
#[derive(Debug)]
pub struct TransactionManager {
    next_tx_id: u64,
    next_commit_ts: u64,
    last_committed_ts: u64,
}

/// The counters of a transaction manager.
pub struct ManagerView {
    pub next_tx_id: u64,
    pub next_commit_ts: u64,
    pub last_committed_ts: u64,
}

impl View for TransactionManager {
    type V = ManagerView;

    closed spec fn view(&self) -> ManagerView {
        ManagerView {
            next_tx_id: self.next_tx_id,
            next_commit_ts: self.next_commit_ts,
            last_committed_ts: self.last_committed_ts,
        }
    }
}

/// `x + 1`, or `u64::MAX` when that overflows.
pub open spec fn sat_inc(x: u64) -> u64 {
    if x == u64::MAX {
        x
    } else {
        (x + 1) as u64
    }
}

pub open spec fn max_u64(a: u64, b: u64) -> u64 {
    if a >= b {
        a
    } else {
        b
    }
}

/// The counters after recovering a log whose largest transaction id and
/// commit timestamp are `max_tx_id` and `max_commit_ts`.
pub open spec fn spec_advance(m: ManagerView, max_tx_id: u64, max_commit_ts: u64) -> ManagerView {
    ManagerView {
        next_tx_id: max_u64(m.next_tx_id, sat_inc(max_tx_id)),
        next_commit_ts: max_u64(m.next_commit_ts, sat_inc(max_commit_ts)),
        last_committed_ts: max_u64(m.last_committed_ts, max_commit_ts),
    }
}

impl TransactionManager {
    pub fn new(next_tx_id: u64, next_commit_ts: u64, last_committed_ts: u64) -> (r: Self)
        ensures
            r@ == (ManagerView { next_tx_id, next_commit_ts, last_committed_ts }),
    {
        Self { next_tx_id, next_commit_ts, last_committed_ts }
    }

    /// Starts a transaction with the next id at the latest published snapshot.
    pub fn begin(&mut self) -> (tx: Transaction)
        requires
            old(self)@.next_tx_id < u64::MAX,
        ensures
            tx.spec_id() == TxId(old(self)@.next_tx_id),
            tx.spec_snapshot_ts() == CommitTs(old(self)@.last_committed_ts),
            tx.spec_writes() == Map::<u128, crate::tx::mutation::MutationView>::empty(),
            !tx.spec_closed(),
            final(self)@ == (ManagerView { next_tx_id: (old(self)@.next_tx_id + 1) as u64, ..old(self)@ }),
    {
        let id = TxId(self.next_tx_id);
        self.next_tx_id = self.next_tx_id + 1;
        Transaction::new(id, self.latest_committed_ts())
    }

    /// Reserves a unique commit timestamp, but does not make it visible to
    /// newly started transactions yet.
    pub fn allocate_commit_ts(&mut self) -> (ts: CommitTs)
        requires
            old(self)@.next_commit_ts < u64::MAX,
        ensures
            ts.0 == old(self)@.next_commit_ts,
            final(self)@ == (ManagerView { next_commit_ts: (old(self)@.next_commit_ts + 1) as u64, ..old(self)@ }),
    {
        let ts = CommitTs(self.next_commit_ts);
        self.next_commit_ts = self.next_commit_ts + 1;
        ts
    }

    /// Publishes a commit timestamp once its WAL record is durable and its
    /// mutations are installed; published timestamps increase strictly.
    pub fn publish_commit(&mut self, commit_ts: CommitTs)
        requires
            commit_ts.0 > old(self)@.last_committed_ts,
        ensures
            final(self)@ == (ManagerView { last_committed_ts: commit_ts.0, ..old(self)@ }),
    {
        self.last_committed_ts = commit_ts.0;
    }

    /// The identifier the next transaction will get.
    pub fn next_tx_id(&self) -> (r: u64)
        ensures
            r == self@.next_tx_id,
    {
        self.next_tx_id
    }

    /// The commit timestamp the next commit will get.
    pub fn next_commit_ts(&self) -> (r: u64)
        ensures
            r == self@.next_commit_ts,
    {
        self.next_commit_ts
    }

    pub fn latest_committed_ts(&self) -> (r: CommitTs)
        ensures
            r.0 == self@.last_committed_ts,
    {
        CommitTs(self.last_committed_ts)
    }

    /// Moves the counters past everything a recovered log contains.
    pub fn advance_after_recovery(&mut self, max_tx_id: u64, max_commit_ts: u64)
        ensures
            final(self)@ == spec_advance(old(self)@, max_tx_id, max_commit_ts),
    {
        let t = max_tx_id.saturating_add(1);
        self.next_tx_id = if self.next_tx_id >= t { self.next_tx_id } else { t };
        let c = max_commit_ts.saturating_add(1);
        self.next_commit_ts = if self.next_commit_ts >= c { self.next_commit_ts } else { c };
        self.last_committed_ts = if self.last_committed_ts >= max_commit_ts {
            self.last_committed_ts
        } else {
            max_commit_ts
        };
    }
}

impl Default for TransactionManager {
    fn default() -> (r: Self)
        ensures
            r@ == (ManagerView { next_tx_id: 1, next_commit_ts: 1, last_committed_ts: 0 }),
    {
        Self::new(1, 1, 0)
    }
}

/// Commit timestamps are unique: two successive allocations return strictly
/// increasing timestamps, and after recovery every newly allocated timestamp
/// is larger than every recovered one.
pub proof fn lemma_commit_timestamps_unique(m: ManagerView, max_tx_id: u64, max_commit_ts: u64)
    requires
        m.next_commit_ts < u64::MAX,
    ensures
        ({
            let m1 = ManagerView { next_commit_ts: (m.next_commit_ts + 1) as u64, ..m };
            m.next_commit_ts < m1.next_commit_ts
        }),
        max_commit_ts < u64::MAX ==> spec_advance(m, max_tx_id, max_commit_ts).next_commit_ts > max_commit_ts,
        max_tx_id < u64::MAX ==> spec_advance(m, max_tx_id, max_commit_ts).next_tx_id > max_tx_id,
        spec_advance(m, max_tx_id, max_commit_ts).last_committed_ts >= m.last_committed_ts,
{
}

} // verus!
