//! Replays committed WAL transactions into reconstructed MVCC stores.
use vstd::prelude::*;
use std::collections::HashMap;
use crate::ids::{CommitTs, RowId};
use crate::storage::stores::{spec_apply, Stores, StoresView};
use crate::tx::manager::max_u64;
use crate::tx::mutation::{Mutation, MutationView};
use crate::wal::record::{RecordV, WalRecord};

verus! {

broadcast use vstd::std_specs::hash::group_hash_axioms;

/// Buffered mutations of one transaction, in log order.
pub type PendingMutations = Seq<(u128, MutationView)>;

pub open spec fn mutation_value(m: MutationView) -> Option<Seq<u8>> {
    match m {
        MutationView::Put(v) => Some(v),
        MutationView::Delete => None,
    }
}

/// Applies `ms` in order, each committed at `ts`.
pub open spec fn apply_all(s: StoresView, ms: PendingMutations, ts: CommitTs) -> StoresView
    decreases ms.len(),
{
    if ms.len() == 0 {
        s
    } else {
        let last = ms.last();
        spec_apply(apply_all(s, ms.drop_last(), ts), last.0, mutation_value(last.1), ts)
    }
}

/// The state that recovery carries from record to record.
pub struct RecoveryState {
    pub pending: Map<u64, PendingMutations>,
    pub stores: StoresView,
    pub max_tx_id: u64,
    pub max_commit_ts: u64,
}

pub open spec fn pending_of(p: Map<u64, PendingMutations>, tx: u64) -> PendingMutations {
    if p.contains_key(tx) {
        p[tx]
    } else {
        Seq::empty()
    }
}

/// Recovery's reaction to one record: every record raises the largest
/// transaction id seen; begins open a transaction, puts and deletes are
/// buffered under their transaction, a commit applies its transaction's
/// buffered mutations at the commit timestamp, an abort discards them.
pub open spec fn recover_step(st: RecoveryState, r: RecordV) -> RecoveryState {
    match r {
        RecordV::Begin { tx_id, .. } => RecoveryState {
            max_tx_id: max_u64(st.max_tx_id, tx_id.0),
            pending: if st.pending.contains_key(tx_id.0) { st.pending } else { st.pending.insert(tx_id.0, Seq::empty()) },
            ..st
        },
        RecordV::Put { tx_id, row_id, value } => RecoveryState {
            max_tx_id: max_u64(st.max_tx_id, tx_id.0),
            pending: st.pending.insert(tx_id.0, pending_of(st.pending, tx_id.0).push((row_id.0, MutationView::Put(value)))),
            ..st
        },
        RecordV::Delete { tx_id, row_id } => RecoveryState {
            max_tx_id: max_u64(st.max_tx_id, tx_id.0),
            pending: st.pending.insert(tx_id.0, pending_of(st.pending, tx_id.0).push((row_id.0, MutationView::Delete))),
            ..st
        },
        RecordV::Commit { tx_id, commit_ts } => RecoveryState {
            max_tx_id: max_u64(st.max_tx_id, tx_id.0),
            max_commit_ts: max_u64(st.max_commit_ts, commit_ts.0),
            stores: if st.pending.contains_key(tx_id.0) {
                apply_all(st.stores, st.pending[tx_id.0], commit_ts)
            } else {
                st.stores
            },
            pending: st.pending.remove(tx_id.0),
        },
        RecordV::Abort { tx_id } => RecoveryState {
            max_tx_id: max_u64(st.max_tx_id, tx_id.0),
            pending: st.pending.remove(tx_id.0),
            ..st
        },
        RecordV::Version { tx_id, .. } => RecoveryState { max_tx_id: max_u64(st.max_tx_id, tx_id.0), ..st },
    }
}

/// The state after replaying `rs` in order from `st`.
pub open spec fn replay(st: RecoveryState, rs: Seq<RecordV>) -> RecoveryState
    decreases rs.len(),
{
    if rs.len() == 0 {
        st
    } else {
        recover_step(replay(st, rs.drop_last()), rs.last())
    }
}

/// The state recovery starts from: nothing pending, empty stores.
pub open spec fn initial_recovery_state() -> RecoveryState {
    RecoveryState {
        pending: Map::empty(),
        stores: StoresView { current: Map::empty(), history: Map::empty() },
        max_tx_id: 0,
        max_commit_ts: 0,
    }
}

pub open spec fn records_v(rs: Seq<WalRecord>) -> Seq<RecordV> {
    rs.map_values(|r: WalRecord| r@)
}

pub open spec fn pending_v(v: Vec<(u128, Mutation)>) -> PendingMutations {
    v@.map_values(|e: (u128, Mutation)| (e.0, e.1@))
}

/// Reconstructed stores and the largest transaction id and commit timestamp
/// found in the log.
#[derive(Debug, Default)]
pub struct RecoveryResult {
    pub stores: Stores,
    pub max_tx_id: u64,
    pub max_commit_ts: u64,
}

/// Replays committed WAL transactions into reconstructed in-memory stores.
pub fn recover(records: Vec<WalRecord>) -> (r: RecoveryResult)
    ensures
        ({
            let st = replay(initial_recovery_state(), records_v(records@));
            &&& r.stores@ == st.stores
            &&& r.max_tx_id == st.max_tx_id
            &&& r.max_commit_ts == st.max_commit_ts
        }),
{
    let mut pending: HashMap<u64, Vec<(u128, Mutation)>> = HashMap::new();
    let mut result = RecoveryResult { stores: Stores::new(), max_tx_id: 0, max_commit_ts: 0 };
    let n = records.len();
    let mut i: usize = 0;
    proof {
        assert(records_v(records@).take(0) =~= Seq::<RecordV>::empty());
        assert(pending@.map_values(|v: Vec<(u128, Mutation)>| pending_v(v)) =~= Map::<u64, PendingMutations>::empty());
    }
    while i < n
        invariant
            n == records@.len(),
            i <= n,
            ({
                let st = replay(initial_recovery_state(), records_v(records@).take(i as int));
                &&& result.stores@ == st.stores
                &&& result.max_tx_id == st.max_tx_id
                &&& result.max_commit_ts == st.max_commit_ts
                &&& pending@.map_values(|v: Vec<(u128, Mutation)>| pending_v(v)) == st.pending
            }),
        decreases n - i,
    {
        let ghost prev = replay(initial_recovery_state(), records_v(records@).take(i as int));
        proof {
            let rs = records_v(records@).take(i as int + 1);
            assert(rs.drop_last() =~= records_v(records@).take(i as int));
            assert(rs.last() == records@[i as int]@);
        }
        let ghost pv = pending@.map_values(|v: Vec<(u128, Mutation)>| pending_v(v));
        match &records[i] {
            WalRecord::Begin { tx_id, .. } => {
                result.max_tx_id = if result.max_tx_id >= tx_id.0 { result.max_tx_id } else { tx_id.0 };
                if !pending.contains_key(&tx_id.0) {
                    let fresh: Vec<(u128, Mutation)> = Vec::new();
                    proof {
                        assert(pending_v(fresh) =~= Seq::<(u128, MutationView)>::empty());
                    }
                    pending.insert(tx_id.0, fresh);
                    proof {
                        assert(pending@.map_values(|v: Vec<(u128, Mutation)>| pending_v(v)) =~= pv.insert(tx_id.0, Seq::empty()));
                    }
                }
            },
            WalRecord::Put { tx_id, row_id, value } => {
                result.max_tx_id = if result.max_tx_id >= tx_id.0 { result.max_tx_id } else { tx_id.0 };
                let v = value.clone();
                proof {
                    assert(v@ =~= value@);
                }
                push_pending(&mut pending, tx_id.0, row_id.0, Mutation::Put(v));
            },
            WalRecord::Delete { tx_id, row_id } => {
                result.max_tx_id = if result.max_tx_id >= tx_id.0 { result.max_tx_id } else { tx_id.0 };
                push_pending(&mut pending, tx_id.0, row_id.0, Mutation::Delete);
            },
            WalRecord::Commit { tx_id, commit_ts } => {
                result.max_tx_id = if result.max_tx_id >= tx_id.0 { result.max_tx_id } else { tx_id.0 };
                result.max_commit_ts = if result.max_commit_ts >= commit_ts.0 { result.max_commit_ts } else { commit_ts.0 };
                if let Some(pending_tx) = pending.remove(&tx_id.0) {
                    apply_mutations(&mut result.stores, pending_tx, *commit_ts);
                }
                proof {
                    assert(pending@.map_values(|v: Vec<(u128, Mutation)>| pending_v(v)) =~= pv.remove(tx_id.0));
                }
            },
            WalRecord::Abort { tx_id } => {
                result.max_tx_id = if result.max_tx_id >= tx_id.0 { result.max_tx_id } else { tx_id.0 };
                pending.remove(&tx_id.0);
                proof {
                    assert(pending@.map_values(|v: Vec<(u128, Mutation)>| pending_v(v)) =~= pv.remove(tx_id.0));
                }
            },
            WalRecord::Version { tx_id, .. } => {
                result.max_tx_id = if result.max_tx_id >= tx_id.0 { result.max_tx_id } else { tx_id.0 };
            },
        }
        i = i + 1;
    }
    proof {
        assert(records_v(records@).take(n as int) =~= records_v(records@));
    }
    result
}

/// Appends a mutation to the buffered writes of transaction `tx`.
pub(crate) fn push_pending(pending: &mut HashMap<u64, Vec<(u128, Mutation)>>, tx: u64, row: u128, m: Mutation)
    ensures
        final(pending)@.map_values(|v: Vec<(u128, Mutation)>| pending_v(v)) == old(pending)@.map_values(
            |v: Vec<(u128, Mutation)>| pending_v(v),
        ).insert(
            tx,
            pending_of(old(pending)@.map_values(|v: Vec<(u128, Mutation)>| pending_v(v)), tx).push((row, m@)),
        ),
{
    let ghost pv = old(pending)@.map_values(|v: Vec<(u128, Mutation)>| pending_v(v));
    let ghost mv = m@;
    let mut list = match pending.remove(&tx) {
        Some(l) => l,
        None => {
            let l: Vec<(u128, Mutation)> = Vec::new();
            proof {
                assert(pending_v(l) =~= Seq::<(u128, MutationView)>::empty());
            }
            l
        },
    };
    proof {
        assert(pending_v(list) == pending_of(pv, tx));
    }
    let ghost before = pending_v(list);
    list.push((row, m));
    proof {
        assert(pending_v(list) =~= before.push((row, mv)));
    }
    pending.insert(tx, list);
    proof {
        assert(pending@.map_values(|v: Vec<(u128, Mutation)>| pending_v(v)) =~= pv.insert(tx, before.push((row, mv))));
    }
}

/// Applies a committed transaction's mutations to the reconstructed stores,
/// in log order.
fn apply_mutations(stores: &mut Stores, mutations: Vec<(u128, Mutation)>, commit_ts: CommitTs)
    ensures
        final(stores)@ == apply_all(old(stores)@, pending_v(mutations), commit_ts),
{
    let ghost ms = pending_v(mutations);
    let ghost s0 = stores@;
    let rest = mutations;
    proof {
        assert(ms.take(0) =~= Seq::<(u128, MutationView)>::empty());
    }
    let n = rest.len();
    let mut i: usize = 0;
    while i < n
        invariant
            n == rest@.len(),
            ms == pending_v(rest),
            i <= n,
            stores@ == apply_all(s0, ms.take(i as int), commit_ts),
        decreases n - i,
    {
        let row = rest[i].0;
        proof {
            assert(ms.take(i as int + 1).drop_last() =~= ms.take(i as int));
            assert(ms[i as int] == (rest@[i as int].0, rest@[i as int].1@));
        }
        match &rest[i].1 {
            Mutation::Put(v) => {
                let c = v.clone();
                proof {
                    assert(c@ =~= v@);
                }
                stores.apply_put(RowId(row), c, commit_ts);
            },
            Mutation::Delete => stores.apply_delete(RowId(row), commit_ts),
        }
        i = i + 1;
    }
    proof {
        assert(ms.take(n as int) =~= ms);
    }
}

/// Records of transactions that never commit leave the stores untouched:
/// replaying any run of begins, versions, puts, deletes and aborts changes
/// no row. In particular a log whose final commit record was lost (a torn
/// tail) recovers to the stores of the last complete commit.
pub proof fn lemma_uncommitted_records_change_no_row(st: RecoveryState, rs: Seq<RecordV>)
    requires
        forall|i: int| 0 <= i < rs.len() ==> !(#[trigger] rs[i] is Commit),
    ensures
        replay(st, rs).stores == st.stores,
    decreases rs.len(),
{
    if rs.len() > 0 {
        assert(!(rs[rs.len() - 1] is Commit));
        lemma_uncommitted_records_change_no_row(st, rs.drop_last());
    }
}

} // verus!
