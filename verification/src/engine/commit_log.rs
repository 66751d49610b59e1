//! What recovery makes of the log records of one commit.
use vstd::prelude::*;
use crate::engine::database::{record_row, write_record};
use crate::engine::recovery::{apply_all, mutation_value, pending_of, replay, PendingMutations, RecoveryState};
use crate::ids::{CommitTs, TxId};
use crate::storage::current::RecordView;
use crate::storage::stores::StoresView;
use crate::storage::version::{versions_of, VersionView};
use crate::tx::manager::max_u64;
use crate::tx::mutation::MutationView;
use crate::wal::record::RecordV;

verus! {

/// The mutation a write record logs.
pub open spec fn record_mutation(r: RecordV) -> MutationView {
    match r {
        RecordV::Put { value, .. } => MutationView::Put(value),
        _ => MutationView::Delete,
    }
}

/// The writes logged by `rs[1..k]`, in log order.
pub open spec fn logged_writes(rs: Seq<RecordV>, k: int) -> PendingMutations {
    Seq::new((k - 1) as nat, |i: int| (record_row(rs[i + 1]), record_mutation(rs[i + 1])))
}

/// The log records of a commit of `writes` by transaction `tx_id` at
/// `commit_ts`: `Begin`, one record per write naming distinct rows, `Commit`
/// (what `commit_records` returns).
pub open spec fn is_commit_log(rs: Seq<RecordV>, tx_id: TxId, snapshot_ts: CommitTs, writes: Map<u128, MutationView>, commit_ts: CommitTs) -> bool {
    &&& rs.len() == writes.dom().len() + 2
    &&& rs[0] == (RecordV::Begin { tx_id, snapshot_ts })
    &&& rs[rs.len() - 1] == (RecordV::Commit { tx_id, commit_ts })
    &&& forall|i: int| #![trigger rs[i]] 1 <= i < rs.len() - 1 ==> writes.contains_key(record_row(rs[i]))
        && rs[i] == write_record(tx_id, record_row(rs[i]), writes[record_row(rs[i])])
    &&& forall|row: u128| #[trigger] writes.contains_key(row) ==> exists|i: int| 1 <= i < rs.len() - 1
        && rs[i] == write_record(tx_id, row, writes[row])
    &&& forall|i: int, j: int| 1 <= i < j < rs.len() - 1 ==> record_row(#[trigger] rs[i]) != record_row(#[trigger] rs[j])
}

/// Replaying the begin and the first writes of a commit log buffers those
/// writes under the transaction and changes nothing else but the largest
/// transaction id.
proof fn lemma_commit_log_prefix(st: RecoveryState, rs: Seq<RecordV>, tx_id: TxId, snapshot_ts: CommitTs, writes: Map<u128, MutationView>, commit_ts: CommitTs, k: int)
    requires
        is_commit_log(rs, tx_id, snapshot_ts, writes, commit_ts),
        !st.pending.contains_key(tx_id.0),
        1 <= k <= rs.len() - 1,
    ensures
        replay(st, rs.take(k)) == (RecoveryState {
            pending: st.pending.insert(tx_id.0, logged_writes(rs, k)),
            max_tx_id: max_u64(st.max_tx_id, tx_id.0),
            ..st
        }),
    decreases k,
{
    let p = rs.take(k);
    if k == 1 {
        assert(p.drop_last() =~= Seq::<RecordV>::empty());
        assert(replay(st, p.drop_last()) == st);
        assert(p.last() == rs[0]);
        assert(logged_writes(rs, 1) =~= Seq::<(u128, MutationView)>::empty());
        assert(replay(st, p) == crate::engine::recovery::recover_step(st, rs[0]));
    } else {
        lemma_commit_log_prefix(st, rs, tx_id, snapshot_ts, writes, commit_ts, k - 1);
        assert(p.drop_last() =~= rs.take(k - 1));
        let r = rs[k - 1];
        assert(p.last() == r);
        assert(r == write_record(tx_id, record_row(r), writes[record_row(r)]));
        let prev = replay(st, rs.take(k - 1));
        assert(pending_of(prev.pending, tx_id.0) == logged_writes(rs, k - 1));
        assert(logged_writes(rs, k - 1).push((record_row(r), record_mutation(r))) =~= logged_writes(rs, k));
        assert(prev.pending.insert(tx_id.0, logged_writes(rs, k)) =~= st.pending.insert(tx_id.0, logged_writes(rs, k)));
        assert(replay(st, p) == crate::engine::recovery::recover_step(prev, r));
    }
}

/// Applying writes to rows other than `row` leaves `row` alone.
proof fn lemma_apply_untouched(s: StoresView, ms: PendingMutations, ts: CommitTs, row: u128)
    requires
        forall|i: int| 0 <= i < ms.len() ==> (#[trigger] ms[i]).0 != row,
    ensures
        apply_all(s, ms, ts).current.contains_key(row) == s.current.contains_key(row),
        apply_all(s, ms, ts).current[row] == s.current[row],
        versions_of(apply_all(s, ms, ts).history, row) == versions_of(s.history, row),
    decreases ms.len(),
{
    if ms.len() > 0 {
        let init = ms.drop_last();
        assert forall|i: int| 0 <= i < init.len() implies (#[trigger] init[i]).0 != row by {
            assert(init[i] == ms[i]);
        }
        lemma_apply_untouched(s, init, ts, row);
        assert(ms[ms.len() - 1].0 != row);
    }
}

/// Applying writes to distinct rows installs each at `ts`, moving the row's
/// record from before into its history, and leaves every other row alone.
proof fn lemma_apply_distinct(s: StoresView, ms: PendingMutations, ts: CommitTs)
    requires
        forall|i: int, j: int| 0 <= i < j < ms.len() ==> (#[trigger] ms[i]).0 != (#[trigger] ms[j]).0,
    ensures
        forall|i: int| #![trigger ms[i]] 0 <= i < ms.len() ==> {
            &&& apply_all(s, ms, ts).current.contains_key(ms[i].0)
            &&& apply_all(s, ms, ts).current[ms[i].0] == (RecordView { commit_ts: ts, value: mutation_value(ms[i].1) })
            &&& versions_of(apply_all(s, ms, ts).history, ms[i].0) == if s.current.contains_key(ms[i].0) {
                versions_of(s.history, ms[i].0).push(VersionView { begin_ts: s.current[ms[i].0].commit_ts, end_ts: ts, value: s.current[ms[i].0].value })
            } else {
                versions_of(s.history, ms[i].0)
            }
        },
    decreases ms.len(),
{
    if ms.len() > 0 {
        let init = ms.drop_last();
        let last = ms.last();
        assert forall|i: int, j: int| 0 <= i < j < init.len() implies (#[trigger] init[i]).0 != (#[trigger] init[j]).0 by {
            assert(init[i] == ms[i] && init[j] == ms[j]);
        }
        lemma_apply_distinct(s, init, ts);
        let a = apply_all(s, init, ts);
        assert forall|i: int| 0 <= i < init.len() implies (#[trigger] init[i]).0 != last.0 by {
            assert(init[i] == ms[i]);
            assert(ms[ms.len() - 1] == last);
        }
        lemma_apply_untouched(s, init, ts, last.0);
        assert forall|i: int| #![trigger ms[i]] 0 <= i < ms.len() implies {
            &&& apply_all(s, ms, ts).current.contains_key(ms[i].0)
            &&& apply_all(s, ms, ts).current[ms[i].0] == (RecordView { commit_ts: ts, value: mutation_value(ms[i].1) })
            &&& versions_of(apply_all(s, ms, ts).history, ms[i].0) == if s.current.contains_key(ms[i].0) {
                versions_of(s.history, ms[i].0).push(VersionView { begin_ts: s.current[ms[i].0].commit_ts, end_ts: ts, value: s.current[ms[i].0].value })
            } else {
                versions_of(s.history, ms[i].0)
            }
        } by {
            if i < init.len() {
                assert(init[i] == ms[i]);
                assert(ms[i].0 != last.0);
            }
        }
    }
}

/// A committed transaction survives a restart: replaying the log records of
/// its commit (from a state in which it has nothing buffered) installs each
/// of its writes as the row's current record at the commit timestamp, moves
/// the record a written row had before into that row's history, and leaves
/// every other row, and every other transaction's buffered writes, as they
/// were.
pub proof fn lemma_commit_log_replays_writes(
    st: RecoveryState,
    rs: Seq<RecordV>,
    tx_id: TxId,
    snapshot_ts: CommitTs,
    writes: Map<u128, MutationView>,
    commit_ts: CommitTs,
)
    requires
        is_commit_log(rs, tx_id, snapshot_ts, writes, commit_ts),
        !st.pending.contains_key(tx_id.0),
    ensures
        replay(st, rs).pending == st.pending,
        replay(st, rs).max_commit_ts == max_u64(st.max_commit_ts, commit_ts.0),
        forall|row: u128| #[trigger] replay(st, rs).stores.current.contains_key(row)
            == (st.stores.current.contains_key(row) || writes.contains_key(row)),
        forall|row: u128| #[trigger] writes.contains_key(row)
            ==> replay(st, rs).stores.current[row] == (RecordView { commit_ts, value: mutation_value(writes[row]) }),
        forall|row: u128| !writes.contains_key(row) ==> #[trigger] replay(st, rs).stores.current[row] == st.stores.current[row],
        forall|row: u128| #[trigger] versions_of(replay(st, rs).stores.history, row) == if writes.contains_key(row) && st.stores.current.contains_key(row) {
            versions_of(st.stores.history, row).push(VersionView { begin_ts: st.stores.current[row].commit_ts, end_ts: commit_ts, value: st.stores.current[row].value })
        } else {
            versions_of(st.stores.history, row)
        },
{
    let n = rs.len() as int;
    lemma_commit_log_prefix(st, rs, tx_id, snapshot_ts, writes, commit_ts, n - 1);
    assert(rs.drop_last() =~= rs.take(n - 1));
    let ms = logged_writes(rs, n - 1);
    assert(replay(st, rs).stores == apply_all(st.stores, ms, commit_ts));
    assert(st.pending.insert(tx_id.0, ms).remove(tx_id.0) =~= st.pending);
    assert forall|i: int, j: int| 0 <= i < j < ms.len() implies (#[trigger] ms[i]).0 != (#[trigger] ms[j]).0 by {
        assert(ms[i].0 == record_row(rs[i + 1]));
        assert(ms[j].0 == record_row(rs[j + 1]));
    }
    lemma_apply_distinct(st.stores, ms, commit_ts);
    let out = replay(st, rs).stores;
    assert forall|row: u128| writes.contains_key(row) implies {
        &&& out.current.contains_key(row)
        &&& out.current[row] == (RecordView { commit_ts, value: mutation_value(writes[row]) })
        &&& versions_of(out.history, row) == if st.stores.current.contains_key(row) {
            versions_of(st.stores.history, row).push(VersionView { begin_ts: st.stores.current[row].commit_ts, end_ts: commit_ts, value: st.stores.current[row].value })
        } else {
            versions_of(st.stores.history, row)
        }
    } by {
        let i = choose|i: int| 1 <= i < rs.len() - 1 && rs[i] == write_record(tx_id, row, writes[row]);
        assert(ms[i - 1] == (record_row(rs[i]), record_mutation(rs[i])));
        assert(record_row(rs[i]) == row);
        assert(mutation_value(record_mutation(rs[i])) == mutation_value(writes[row]));
    }
    assert forall|row: u128| !writes.contains_key(row) implies {
        &&& out.current.contains_key(row) == st.stores.current.contains_key(row)
        &&& out.current[row] == st.stores.current[row]
        &&& versions_of(out.history, row) == versions_of(st.stores.history, row)
    } by {
        assert forall|i: int| 0 <= i < ms.len() implies (#[trigger] ms[i]).0 != row by {
            assert(ms[i].0 == record_row(rs[i + 1]));
            assert(writes.contains_key(record_row(rs[i + 1])));
        }
        lemma_apply_untouched(st.stores, ms, commit_ts, row);
    }
    assert forall|row: u128| #[trigger] out.current.contains_key(row)
        == (st.stores.current.contains_key(row) || writes.contains_key(row)) by {
        if writes.contains_key(row) {
            assert(out.current.contains_key(row));
        } else {
            assert(out.current.contains_key(row) == st.stores.current.contains_key(row));
        }
    }
}

} // verus!
