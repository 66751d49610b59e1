//! Selection of the committed writes that the persistent current store has
//! not yet absorbed.
use vstd::prelude::*;
use std::collections::HashMap;
use crate::engine::recovery::{mutation_value, pending_of, pending_v, push_pending, PendingMutations};
use crate::ids::{CommitTs, Lsn, RowId};
use crate::storage::current::{CurrentRecord, RecordView};
use crate::tx::mutation::{Mutation, MutationView};
use crate::wal::record::{RecordV, WalRecord};

verus! {

broadcast use vstd::std_specs::hash::group_hash_axioms;

/// One write to apply to the persistent current store: row, record, and the
/// LSN of the commit that made it.
pub type TailPut = (u128, RecordView, u64);

/// The records of `ms` committed at `ts` by the commit at `lsn`.
pub open spec fn committed_puts(ms: PendingMutations, ts: CommitTs, lsn: u64) -> Seq<TailPut> {
    ms.map_values(|m: (u128, MutationView)| (m.0, RecordView { commit_ts: ts, value: mutation_value(m.1) }, lsn))
}

pub struct TailState {
    pub pending: Map<u64, PendingMutations>,
    pub puts: Seq<TailPut>,
}

/// The reaction to one `(lsn, record)`: buffer writes per transaction, drop
/// aborted ones, and on commit emit the transaction's writes if the commit
/// lies after the checkpoint.
pub open spec fn tail_step(st: TailState, lsn: u64, r: RecordV, checkpoint_lsn: u64) -> TailState {
    match r {
        RecordV::Begin { tx_id, .. } => TailState {
            pending: if st.pending.contains_key(tx_id.0) { st.pending } else { st.pending.insert(tx_id.0, Seq::empty()) },
            ..st
        },
        RecordV::Put { tx_id, row_id, value } => TailState {
            pending: st.pending.insert(tx_id.0, pending_of(st.pending, tx_id.0).push((row_id.0, MutationView::Put(value)))),
            ..st
        },
        RecordV::Delete { tx_id, row_id } => TailState {
            pending: st.pending.insert(tx_id.0, pending_of(st.pending, tx_id.0).push((row_id.0, MutationView::Delete))),
            ..st
        },
        RecordV::Abort { tx_id } => TailState { pending: st.pending.remove(tx_id.0), ..st },
        RecordV::Commit { tx_id, commit_ts } => TailState {
            pending: st.pending.remove(tx_id.0),
            puts: if lsn > checkpoint_lsn {
                st.puts + committed_puts(pending_of(st.pending, tx_id.0), commit_ts, lsn)
            } else {
                st.puts
            },
        },
        RecordV::Version { .. } => st,
    }
}

pub open spec fn tail_replay(es: Seq<(u64, RecordV)>, checkpoint_lsn: u64) -> TailState
    decreases es.len(),
{
    if es.len() == 0 {
        TailState { pending: Map::empty(), puts: Seq::empty() }
    } else {
        tail_step(tail_replay(es.drop_last(), checkpoint_lsn), es.last().0, es.last().1, checkpoint_lsn)
    }
}

/// The record `r` commits at timestamp `ts`.
pub open spec fn commits_at(r: RecordV, ts: CommitTs) -> bool {
    r matches RecordV::Commit { commit_ts, .. } && commit_ts == ts
}

/// Replay hands the writes out in log order: when the log's LSNs increase,
/// the writes come with non-decreasing commit LSNs, so installing them in
/// order applies later commits after earlier ones. Each write lies after the
/// checkpoint and carries the LSN and timestamp of a commit record of the log.
pub proof fn lemma_tail_in_log_order(es: Seq<(u64, RecordV)>, checkpoint_lsn: u64)
    requires
        forall|i: int, j: int| 0 <= i < j < es.len() ==> es[i].0 < es[j].0,
    ensures
        forall|i: int, j: int| 0 <= i < j < tail_replay(es, checkpoint_lsn).puts.len()
            ==> tail_replay(es, checkpoint_lsn).puts[i].2 <= tail_replay(es, checkpoint_lsn).puts[j].2,
        forall|i: int| 0 <= i < tail_replay(es, checkpoint_lsn).puts.len() ==> {
            let w = #[trigger] tail_replay(es, checkpoint_lsn).puts[i];
            &&& checkpoint_lsn < w.2
            &&& exists|k: int| 0 <= k < es.len() && (#[trigger] es[k]).0 == w.2 && commits_at(es[k].1, w.1.commit_ts)
        },
    decreases es.len(),
{
    if es.len() > 0 {
        let pre = es.drop_last();
        lemma_tail_in_log_order(pre, checkpoint_lsn);
        let st = tail_replay(pre, checkpoint_lsn);
        let p0 = st.puts;
        let p = tail_replay(es, checkpoint_lsn).puts;
        let n = es.len() - 1;
        assert forall|i: int| 0 <= i < p0.len() implies {
            &&& checkpoint_lsn < p0[i].2
            &&& p0[i].2 < es[n].0
            &&& exists|k: int| 0 <= k < es.len() && (#[trigger] es[k]).0 == p0[i].2 && commits_at(es[k].1, p0[i].1.commit_ts)
        } by {
            let w = p0[i];
            let k = choose|k: int| 0 <= k < pre.len() && (#[trigger] pre[k]).0 == w.2 && commits_at(pre[k].1, w.1.commit_ts);
            assert(pre[k] == es[k]);
        }
        match es[n].1 {
            RecordV::Commit { tx_id, commit_ts } => {
                if es[n].0 > checkpoint_lsn {
                    let add = committed_puts(pending_of(st.pending, tx_id.0), commit_ts, es[n].0);
                    assert(p == p0 + add);
                    assert(commits_at(es[n].1, commit_ts));
                    assert forall|i: int| 0 <= i < p.len() implies {
                        let w = #[trigger] p[i];
                        &&& checkpoint_lsn < w.2
                        &&& exists|k: int| 0 <= k < es.len() && (#[trigger] es[k]).0 == w.2 && commits_at(es[k].1, w.1.commit_ts)
                    } by {
                        if i < p0.len() {
                            assert(p[i] == p0[i]);
                        } else {
                            assert(p[i] == add[i - p0.len()]);
                            assert(es[n].0 == p[i].2);
                        }
                    }
                    assert forall|i: int, j: int| 0 <= i < j < p.len() implies p[i].2 <= p[j].2 by {
                        if j < p0.len() {
                            assert(p[i] == p0[i] && p[j] == p0[j]);
                        } else if i < p0.len() {
                            assert(p[i] == p0[i] && p[j] == add[j - p0.len()]);
                        } else {
                            assert(p[i] == add[i - p0.len()] && p[j] == add[j - p0.len()]);
                        }
                    }
                } else {
                    assert(p == p0);
                }
            },
            _ => {
                assert(p == p0);
            },
        }
    }
}

pub open spec fn entries_v(es: Seq<(Lsn, WalRecord)>) -> Seq<(u64, RecordV)> {
    es.map_values(|e: (Lsn, WalRecord)| ((e.0).0, e.1@))
}

pub open spec fn puts_v(ps: Seq<(RowId, CurrentRecord, Lsn)>) -> Seq<TailPut> {
    ps.map_values(|p: (RowId, CurrentRecord, Lsn)| ((p.0).0, p.1@, (p.2).0))
}

/// The writes of every transaction that commits after `checkpoint_lsn`, in
/// log order, each with the LSN of its commit record, for installation in the
/// persistent current store.
pub fn replay_current_tail(entries: &[(Lsn, WalRecord)], checkpoint_lsn: u64) -> (r: Vec<(RowId, CurrentRecord, Lsn)>)
    ensures
        puts_v(r@) == tail_replay(entries_v(entries@), checkpoint_lsn).puts,
        (forall|i: int, j: int| 0 <= i < j < entries@.len() ==> (entries@[i].0).0 < (entries@[j].0).0)
            ==> forall|i: int, j: int| 0 <= i < j < r@.len() ==> (r@[i].2).0 <= (r@[j].2).0,
{
    let mut pending: HashMap<u64, Vec<(u128, Mutation)>> = HashMap::new();
    let mut out: Vec<(RowId, CurrentRecord, Lsn)> = Vec::new();
    let n = entries.len();
    let mut i: usize = 0;
    proof {
        assert(entries_v(entries@).take(0) =~= Seq::<(u64, RecordV)>::empty());
        assert(pending@.map_values(|v: Vec<(u128, Mutation)>| pending_v(v)) =~= Map::<u64, PendingMutations>::empty());
        assert(puts_v(out@) =~= Seq::<TailPut>::empty());
    }
    while i < n
        invariant
            n == entries@.len(),
            i <= n,
            ({
                let st = tail_replay(entries_v(entries@).take(i as int), checkpoint_lsn);
                &&& puts_v(out@) == st.puts
                &&& pending@.map_values(|v: Vec<(u128, Mutation)>| pending_v(v)) == st.pending
            }),
        decreases n - i,
    {
        proof {
            let es = entries_v(entries@).take(i as int + 1);
            assert(es.drop_last() =~= entries_v(entries@).take(i as int));
        }
        let ghost pv = pending@.map_values(|v: Vec<(u128, Mutation)>| pending_v(v));
        let lsn = entries[i].0;
        match &entries[i].1 {
            WalRecord::Begin { tx_id, .. } => {
                if !pending.contains_key(&tx_id.0) {
                    let fresh: Vec<(u128, Mutation)> = Vec::new();
                    proof {
                        assert(pending_v(fresh) =~= Seq::<(u128, MutationView)>::empty());
                    }
                    pending.insert(tx_id.0, fresh);
                    proof {
                        assert(pending@.map_values(|v: Vec<(u128, Mutation)>| pending_v(v)) =~= pv.insert(tx_id.0, Seq::empty()));
                    }
                }
            },
            WalRecord::Put { tx_id, row_id, value } => {
                let v = value.clone();
                proof {
                    assert(v@ =~= value@);
                }
                push_pending(&mut pending, tx_id.0, row_id.0, Mutation::Put(v));
            },
            WalRecord::Delete { tx_id, row_id } => {
                push_pending(&mut pending, tx_id.0, row_id.0, Mutation::Delete);
            },
            WalRecord::Abort { tx_id } => {
                pending.remove(&tx_id.0);
                proof {
                    assert(pending@.map_values(|v: Vec<(u128, Mutation)>| pending_v(v)) =~= pv.remove(tx_id.0));
                }
            },
            WalRecord::Commit { tx_id, commit_ts } => {
                let tx = match pending.remove(&tx_id.0) {
                    Some(t) => t,
                    None => {
                        let t: Vec<(u128, Mutation)> = Vec::new();
                        proof {
                            assert(pending_v(t) =~= Seq::<(u128, MutationView)>::empty());
                        }
                        t
                    },
                };
                proof {
                    assert(pending@.map_values(|v: Vec<(u128, Mutation)>| pending_v(v)) =~= pv.remove(tx_id.0));
                    assert(pending_v(tx) == pending_of(pv, tx_id.0));
                }
                if lsn.0 > checkpoint_lsn {
                    let ghost before = puts_v(out@);
                    let ghost ms = pending_v(tx);
                    let m = tx.len();
                    let mut j: usize = 0;
                    while j < m
                        invariant
                            m == tx@.len(),
                            ms == pending_v(tx),
                            j <= m,
                            puts_v(out@) == before + committed_puts(ms.take(j as int), *commit_ts, lsn.0),
                        decreases m - j,
                    {
                        let row = tx[j].0;
                        let value = match &tx[j].1 {
                            Mutation::Put(v) => {
                                let c = v.clone();
                                proof {
                                    assert(c@ =~= v@);
                                }
                                Some(c)
                            },
                            Mutation::Delete => None,
                        };
                        let rec = CurrentRecord { commit_ts: *commit_ts, value };
                        proof {
                            assert(ms[j as int] == (tx@[j as int].0, tx@[j as int].1@));
                            assert(committed_puts(ms.take(j as int + 1), *commit_ts, lsn.0) =~= committed_puts(ms.take(j as int), *commit_ts, lsn.0).push((row, rec@, lsn.0)));
                            assert(puts_v(out@.push((RowId(row), rec, lsn))) =~= puts_v(out@).push((row, rec@, lsn.0)));
                        }
                        out.push((RowId(row), rec, lsn));
                        j = j + 1;
                    }
                    proof {
                        assert(ms.take(m as int) =~= ms);
                    }
                }
            },
            WalRecord::Version { .. } => {},
        }
        i = i + 1;
    }
    proof {
        assert(entries_v(entries@).take(n as int) =~= entries_v(entries@));
        let es = entries_v(entries@);
        if forall|i: int, j: int| 0 <= i < j < entries@.len() ==> (entries@[i].0).0 < (entries@[j].0).0 {
            assert forall|i: int, j: int| 0 <= i < j < es.len() implies es[i].0 < es[j].0 by {
                assert(es[i].0 == (entries@[i].0).0 && es[j].0 == (entries@[j].0).0);
            }
            lemma_tail_in_log_order(es, checkpoint_lsn);
            let p = tail_replay(es, checkpoint_lsn).puts;
            assert forall|i: int, j: int| 0 <= i < j < out@.len() implies (out@[i].2).0 <= (out@[j].2).0 by {
                assert(puts_v(out@)[i].2 == (out@[i].2).0);
                assert(puts_v(out@)[j].2 == (out@[j].2).0);
                assert(p[i].2 <= p[j].2);
            }
        }
    }
    out
}

} // verus!
