//! WAL framing, transactions, MVCC stores, recovery and commit decisions.
use adb::checksum::crc32;
use adb::engine::database::{
    commit_records, committed_record, ensure_open, latest_commit_lsn, recovery_checkpoint, superseded_version,
    tx_read, visible_value, TxRead,
};
use adb::engine::error::DbError;
use adb::engine::recovery::recover;
use adb::engine::replay::replay_current_tail;
use adb::ids::{CommitTs, Lsn, RowId, TxId};
use adb::storage::checkpoint::{decode_checkpoint, encode_checkpoint, Checkpoint};
use adb::storage::current::{CurrentRecord, CurrentStore};
use adb::storage::stores::Stores;
use adb::storage::version::{HistoricalVersion, VersionStore};
use adb::tx::manager::TransactionManager;
use adb::tx::mutation::Mutation;
use adb::tx::validation::validate_write;
use adb::wal::error::WalError;
use adb::wal::format::{HEADER_LEN, MAX_WAL_RECORD_BYTES};
use adb::wal::reader::WalReader;
use adb::wal::record::WalRecord;
use adb::wal::writer::{frame_record, WalWriter};

#[test]
fn crc32_of_check_string() {
    assert_eq!(crc32(b"123456789"), 0xCBF4_3926);
    assert_eq!(crc32(b""), 0);
}

#[test]
fn frames_read_back_in_order() {
    let mut w = WalWriter::resume(Vec::new()).unwrap();
    let mut log = Vec::new();
    let (l1, f1) = w.append(b"first").unwrap();
    log.extend_from_slice(&f1);
    let (l2, f2) = w.append(b"second record").unwrap();
    log.extend_from_slice(&f2);
    assert_eq!(l1, Lsn(0));
    assert_eq!(l2, Lsn((HEADER_LEN + 5) as u64));
    assert_eq!(w.position(), Lsn(log.len() as u64));
    let all = WalReader::new(log).read_all().unwrap();
    assert_eq!(all, vec![(l1, b"first".to_vec()), (l2, b"second record".to_vec())]);
}

#[test]
fn torn_tail_is_ignored_and_overwritten() {
    let mut w = WalWriter::resume(Vec::new()).unwrap();
    let (_, f1) = w.append(b"kept").unwrap();
    let (_, f2) = w.append(b"torn away").unwrap();
    let mut log = f1.clone();
    log.extend_from_slice(&f2[..f2.len() - 3]);
    let all = WalReader::new(log.clone()).read_all().unwrap();
    assert_eq!(all, vec![(Lsn(0), b"kept".to_vec())]);
    assert_eq!(WalReader::new(log.clone()).valid_end().unwrap(), f1.len() as u64);
    let resumed = WalWriter::resume(log).unwrap();
    assert_eq!(resumed.position(), Lsn(f1.len() as u64));
}

#[test]
fn corrupt_frame_checksum_is_an_error() {
    let mut frame = frame_record(b"payload").unwrap();
    let last = frame.len() - 1;
    frame[last] ^= 1;
    assert!(matches!(WalReader::new(frame).read_all(), Err(WalError::Corrupt(_))));
}

#[test]
fn bad_magic_is_an_error() {
    let mut frame = frame_record(b"payload").unwrap();
    frame[0] ^= 0xff;
    assert!(matches!(WalReader::new(frame).read_all(), Err(WalError::Corrupt(_))));
}

#[test]
fn oversized_length_field_is_an_error() {
    let mut frame = frame_record(b"payload").unwrap();
    frame[6..10].copy_from_slice(&((MAX_WAL_RECORD_BYTES as u32) + 1).to_le_bytes());
    assert!(matches!(WalReader::new(frame).read_all(), Err(WalError::Corrupt(_))));
}

#[test]
fn oversized_record_is_refused() {
    let mut w = WalWriter::resume(Vec::new()).unwrap();
    let big = vec![0u8; MAX_WAL_RECORD_BYTES + 1];
    assert!(matches!(w.append(&big), Err(WalError::RecordTooLarge(n)) if n == MAX_WAL_RECORD_BYTES + 1));
    assert_eq!(w.position(), Lsn(0));
}

#[test]
fn manager_allocates_increasing_timestamps() {
    let mut m = TransactionManager::default();
    let t1 = m.begin();
    let t2 = m.begin();
    assert_eq!(t1.id(), TxId(1));
    assert_eq!(t2.id(), TxId(2));
    assert_eq!(t1.snapshot_ts(), CommitTs(0));
    let a = m.allocate_commit_ts();
    let b = m.allocate_commit_ts();
    assert!(a.0 < b.0);
    m.publish_commit(a);
    assert_eq!(m.latest_committed_ts(), a);
    assert_eq!(m.begin().snapshot_ts(), a);
}

#[test]
fn recovery_advances_past_recovered_state() {
    let mut m = TransactionManager::default();
    m.advance_after_recovery(10, 20);
    assert_eq!(m.latest_committed_ts(), CommitTs(20));
    assert_eq!(m.begin().id(), TxId(11));
    assert_eq!(m.allocate_commit_ts(), CommitTs(21));
}

#[test]
fn transaction_reads_own_writes() {
    let mut m = TransactionManager::default();
    let mut tx = m.begin();
    assert_eq!(tx.local_read(RowId(1)), None);
    tx.put(RowId(1), b"v".to_vec());
    assert_eq!(tx.local_read(RowId(1)), Some(Some(b"v".to_vec())));
    tx.delete(RowId(1));
    assert_eq!(tx.local_read(RowId(1)), Some(None));
    assert!(!tx.is_closed());
    tx.mark_closed();
    assert!(tx.is_closed());
}

#[test]
fn write_validation_detects_later_commits() {
    let mut m = TransactionManager::new(1, 6, 5);
    let tx = m.begin();
    let older = CurrentRecord { commit_ts: CommitTs(5), value: None };
    let newer = CurrentRecord { commit_ts: CommitTs(6), value: None };
    assert!(validate_write(None, &tx));
    assert!(validate_write(Some(&older), &tx));
    assert!(!validate_write(Some(&newer), &tx));
}

#[test]
fn stores_keep_older_snapshots_readable() {
    let mut s = Stores::new();
    s.apply_put(RowId(1), b"100".to_vec(), CommitTs(1));
    s.apply_put(RowId(1), b"200".to_vec(), CommitTs(2));
    s.apply_delete(RowId(1), CommitTs(3));
    assert_eq!(s.read_at(RowId(1), CommitTs(0)), None);
    assert_eq!(s.read_at(RowId(1), CommitTs(1)), Some(b"100".to_vec()));
    assert_eq!(s.read_at(RowId(1), CommitTs(2)), Some(b"200".to_vec()));
    assert_eq!(s.read_at(RowId(1), CommitTs(3)), None);
    assert_eq!(s.versions.all_for(RowId(1)).len(), 2);
}

#[test]
fn current_store_iterates_every_row_once() {
    let mut c = CurrentStore::new();
    c.insert(RowId(1), CurrentRecord { commit_ts: CommitTs(1), value: Some(vec![1]) });
    c.insert(RowId(2), CurrentRecord { commit_ts: CommitTs(2), value: None });
    c.insert(RowId(1), CurrentRecord { commit_ts: CommitTs(3), value: Some(vec![3]) });
    let mut rows: Vec<u128> = c.iter().into_iter().map(|(r, _)| r.0).collect();
    rows.sort();
    assert_eq!(rows, vec![1, 2]);
    assert_eq!(c.get(RowId(1)).unwrap().commit_ts, CommitTs(3));
    assert_eq!(c.remove(RowId(2)).unwrap().commit_ts, CommitTs(2));
    assert!(c.get(RowId(2)).is_none());
}

fn put(tx: u64, row: u128, v: &[u8]) -> WalRecord {
    WalRecord::Put { tx_id: TxId(tx), row_id: RowId(row), value: v.to_vec() }
}

#[test]
fn recovery_applies_only_committed_transactions() {
    let records = vec![
        WalRecord::Begin { tx_id: TxId(1), snapshot_ts: CommitTs(0) },
        put(1, 1, b"100"),
        WalRecord::Commit { tx_id: TxId(1), commit_ts: CommitTs(1) },
        WalRecord::Begin { tx_id: TxId(2), snapshot_ts: CommitTs(1) },
        put(2, 1, b"200"),
        WalRecord::Commit { tx_id: TxId(2), commit_ts: CommitTs(2) },
        WalRecord::Begin { tx_id: TxId(3), snapshot_ts: CommitTs(2) },
        put(3, 1, b"lost"),
        WalRecord::Begin { tx_id: TxId(4), snapshot_ts: CommitTs(2) },
        put(4, 2, b"aborted"),
        WalRecord::Abort { tx_id: TxId(4) },
    ];
    let r = recover(records);
    assert_eq!(r.max_tx_id, 4);
    assert_eq!(r.max_commit_ts, 2);
    assert_eq!(r.stores.read_at(RowId(1), CommitTs(2)), Some(b"200".to_vec()));
    assert_eq!(r.stores.read_at(RowId(1), CommitTs(1)), Some(b"100".to_vec()));
    assert_eq!(r.stores.read_at(RowId(2), CommitTs(9)), None);
}

#[test]
fn replay_installs_commits_after_the_checkpoint() {
    let entries = vec![
        (Lsn(0), WalRecord::Begin { tx_id: TxId(1), snapshot_ts: CommitTs(0) }),
        (Lsn(10), put(1, 1, b"a")),
        (Lsn(20), WalRecord::Commit { tx_id: TxId(1), commit_ts: CommitTs(1) }),
        (Lsn(30), WalRecord::Begin { tx_id: TxId(2), snapshot_ts: CommitTs(1) }),
        (Lsn(40), WalRecord::Delete { tx_id: TxId(2), row_id: RowId(1) }),
        (Lsn(50), put(2, 2, b"b")),
        (Lsn(60), WalRecord::Commit { tx_id: TxId(2), commit_ts: CommitTs(2) }),
    ];
    let puts = replay_current_tail(&entries, 20);
    assert_eq!(puts.len(), 2);
    assert_eq!(puts[0].0, RowId(1));
    assert_eq!(puts[0].1.value, None);
    assert_eq!(puts[0].2, Lsn(60));
    assert_eq!(puts[1].0, RowId(2));
    assert_eq!(puts[1].1.value, Some(b"b".to_vec()));
    assert_eq!(puts[1].1.commit_ts, CommitTs(2));
    assert_eq!(replay_current_tail(&entries, 0).len(), 3);
    assert_eq!(latest_commit_lsn(&entries, 5), 60);
    assert_eq!(latest_commit_lsn(&entries[..2], 5), 5);
}

#[test]
fn recovery_checkpoint_only_when_log_is_ahead() {
    let entries = vec![(Lsn(20), WalRecord::Commit { tx_id: TxId(1), commit_ts: CommitTs(1) })];
    let stored = Checkpoint { last_applied_commit_lsn: 20, last_commit_ts: 1 };
    assert_eq!(recovery_checkpoint(&entries, &stored, 1), None);
    assert_eq!(
        recovery_checkpoint(&entries, &Checkpoint::default(), 1),
        Some(Checkpoint { last_applied_commit_lsn: 20, last_commit_ts: 1 })
    );
}

#[test]
fn checkpoint_round_trips() {
    let cp = Checkpoint { last_applied_commit_lsn: 1234, last_commit_ts: 56 };
    let bytes = encode_checkpoint(cp).unwrap();
    let back = decode_checkpoint(&bytes).unwrap();
    assert_eq!(back, cp);
    assert_eq!(back.lsn(), Lsn(1234));
    assert_eq!(back.commit_ts(), CommitTs(56));
    let mut bad = bytes.clone();
    bad[0] ^= 1;
    assert!(decode_checkpoint(&bad).is_err());
}

#[test]
fn commit_logs_begin_writes_and_commit() {
    let mut m = TransactionManager::default();
    let mut tx = m.begin();
    tx.put(RowId(1), b"x".to_vec());
    tx.delete(RowId(2));
    let recs = commit_records(&tx, CommitTs(9));
    assert_eq!(recs.len(), 4);
    assert!(matches!(recs[0], WalRecord::Begin { tx_id: TxId(1), snapshot_ts: CommitTs(0) }));
    assert!(matches!(recs[3], WalRecord::Commit { tx_id: TxId(1), commit_ts: CommitTs(9) }));
    let mut seen_put = false;
    let mut seen_delete = false;
    for r in &recs[1..3] {
        match r {
            WalRecord::Put { row_id, value, .. } => {
                assert_eq!(*row_id, RowId(1));
                assert_eq!(value, &b"x".to_vec());
                seen_put = true;
            }
            WalRecord::Delete { row_id, .. } => {
                assert_eq!(*row_id, RowId(2));
                seen_delete = true;
            }
            _ => panic!("unexpected record"),
        }
    }
    assert!(seen_put && seen_delete);
}

#[test]
fn commit_installs_records_and_versions() {
    let put = committed_record(&Mutation::Put(b"v".to_vec()), CommitTs(4));
    assert_eq!(put.commit_ts, CommitTs(4));
    assert_eq!(put.value, Some(b"v".to_vec()));
    let del = committed_record(&Mutation::Delete, CommitTs(4));
    assert_eq!(del.value, None);
    let old = CurrentRecord { commit_ts: CommitTs(2), value: Some(b"o".to_vec()) };
    let v = superseded_version(&old, CommitTs(4));
    assert_eq!((v.begin_ts, v.end_ts), (CommitTs(2), CommitTs(4)));
    assert_eq!(v.value, Some(b"o".to_vec()));
}

#[test]
fn snapshot_reads_choose_current_or_history() {
    let mut versions = VersionStore::new();
    versions.push(RowId(1), HistoricalVersion { begin_ts: CommitTs(1), end_ts: CommitTs(3), value: Some(b"100".to_vec()) });
    let current = Some(CurrentRecord { commit_ts: CommitTs(3), value: Some(b"200".to_vec()) });
    assert_eq!(visible_value(&current, &versions, RowId(1), CommitTs(5)), Some(b"200".to_vec()));
    assert_eq!(visible_value(&current, &versions, RowId(1), CommitTs(2)), Some(b"100".to_vec()));
    assert_eq!(visible_value(&current, &versions, RowId(1), CommitTs(0)), None);
    assert_eq!(visible_value(&None, &versions, RowId(1), CommitTs(1)), Some(b"100".to_vec()));
}

#[test]
fn closed_transactions_are_refused() {
    let mut m = TransactionManager::default();
    let mut tx = m.begin();
    tx.put(RowId(3), b"local".to_vec());
    assert!(ensure_open(&tx).is_ok());
    assert!(matches!(tx_read(&tx, RowId(3)), Ok(TxRead::Local(Some(v))) if v == b"local".to_vec()));
    assert!(matches!(tx_read(&tx, RowId(4)), Ok(TxRead::Snapshot(CommitTs(0)))));
    tx.mark_closed();
    assert!(matches!(tx_read(&tx, RowId(3)), Err(DbError::TransactionClosed)));
    assert!(matches!(ensure_open(&tx), Err(DbError::TransactionClosed)));
}

#[test]
fn committed_logs_recover_to_their_writes() {
    let mut m = TransactionManager::default();
    let mut log = Vec::new();
    let mut t1 = m.begin();
    t1.put(RowId(1), b"100".to_vec());
    t1.put(RowId(2), b"x".to_vec());
    let ts1 = m.allocate_commit_ts();
    log.extend(commit_records(&t1, ts1));
    m.publish_commit(ts1);
    let mut t2 = m.begin();
    t2.put(RowId(1), b"200".to_vec());
    t2.delete(RowId(2));
    let ts2 = m.allocate_commit_ts();
    log.extend(commit_records(&t2, ts2));
    m.publish_commit(ts2);
    let r = recover(log);
    assert_eq!(r.max_commit_ts, ts2.0);
    assert_eq!(r.stores.read_at(RowId(1), ts2), Some(b"200".to_vec()));
    assert_eq!(r.stores.read_at(RowId(1), ts1), Some(b"100".to_vec()));
    assert_eq!(r.stores.read_at(RowId(2), ts1), Some(b"x".to_vec()));
    assert_eq!(r.stores.read_at(RowId(2), ts2), None);
}

#[test]
fn reader_stays_at_a_corrupt_frame() {
    let mut reader = WalReader::new(vec![0u8; 32]);
    assert!(matches!(reader.next_record(), Err(WalError::Corrupt(_))));
    assert!(matches!(reader.next_record(), Err(WalError::Corrupt(_))));
}
