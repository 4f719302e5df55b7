//! Write-ahead log and snapshot behaviour: drain order, replay,
//! restore, and their composition across a crash-restart.

use cachetcp::codec::decode;
use cachetcp::proto::{CommandMessage, FrameMessage};
use cachetcp::snapshot::SnapshotCreator;
use cachetcp::storage::Storage;
use cachetcp::wal::{ReplayError, WriteAheadLog};

fn key(s: &str) -> String {
    s.to_string()
}

fn put_frame(ts: u128, k: &str, v: Vec<u8>) -> FrameMessage {
    FrameMessage::new(ts, CommandMessage::PUT(k.to_string(), v, None))
}

fn delete_frame(ts: u128, k: &str) -> FrameMessage {
    FrameMessage::new(ts, CommandMessage::DELETE(k.to_string()))
}

#[test]
fn append_is_fire_and_forget() {
    let mut wal = WriteAheadLog::new();
    wal.append(put_frame(1, "a", vec![1]));
    assert_eq!(wal.pending.len(), 1);
    assert_eq!(wal.log.len(), 0);
}

#[test]
fn write_drains_in_fifo_order() {
    let mut wal = WriteAheadLog::new();
    wal.append(put_frame(1, "a", vec![1]));
    wal.append(delete_frame(2, "a"));
    let first = wal.write().expect("one record queued");
    let second = wal.write().expect("another record queued");
    assert_eq!(wal.write(), None);
    let (f1, _) = decode(&first, 0).unwrap();
    let (f2, _) = decode(&second, 0).unwrap();
    assert_eq!(f1, put_frame(1, "a", vec![1]));
    assert_eq!(f2, delete_frame(2, "a"));
    // the log holds both records, in drain order
    let (g1, n1) = decode(&wal.log, 0).unwrap();
    let (g2, n2) = decode(&wal.log, n1).unwrap();
    assert_eq!(g1, f1);
    assert_eq!(g2, f2);
    assert_eq!(n1 + n2, wal.log.len());
}

#[test]
fn replay_applies_puts_and_deletes_in_order() {
    let mut wal = WriteAheadLog::new();
    wal.append(put_frame(1, "a", vec![1]));
    wal.append(put_frame(2, "b", vec![2]));
    wal.append(put_frame(3, "a", vec![3]));
    wal.append(delete_frame(4, "b"));
    while wal.write().is_some() {}
    let mut st = Storage::new();
    let count = wal.replay(&mut st, 0).unwrap();
    assert_eq!(count, 4);
    assert_eq!(st.read(&key("a"), 0), Some(vec![3]));
    assert_eq!(st.read(&key("b"), 0), None);
}

#[test]
fn replay_twice_on_fresh_stores_agrees() {
    let mut wal = WriteAheadLog::new();
    wal.append(put_frame(1, "x", vec![1]));
    wal.append(delete_frame(2, "y"));
    wal.append(put_frame(3, "y", vec![7, 7]));
    wal.append(put_frame(4, "x", vec![9]));
    while wal.write().is_some() {}
    let mut first = Storage::new();
    let mut second = Storage::new();
    let c1 = wal.replay(&mut first, 5).unwrap();
    let c2 = wal.replay(&mut second, 5).unwrap();
    assert_eq!(c1, c2);
    let mut k1 = first.keys(5);
    let mut k2 = second.keys(5);
    k1.sort();
    k2.sort();
    assert_eq!(k1, k2);
    for k in k1 {
        assert_eq!(first.read(&k, 5), second.read(&k, 5));
    }
}

#[test]
fn replay_of_ttl_put_counts_from_replay_time() {
    let mut wal = WriteAheadLog::new();
    wal.append(FrameMessage::new(
        1,
        CommandMessage::PUT("k".to_string(), vec![1], Some(100)),
    ));
    while wal.write().is_some() {}
    let mut st = Storage::new();
    wal.replay(&mut st, 1000).unwrap();
    assert_eq!(st.read(&key("k"), 1099), Some(vec![1]));
    assert_eq!(st.read(&key("k"), 1100), None);
}

#[test]
fn replay_rejects_foreign_records() {
    let mut wal = WriteAheadLog::new();
    wal.append(put_frame(1, "a", vec![1]));
    while wal.write().is_some() {}
    let ping = cachetcp::codec::encode(&FrameMessage::new(2, CommandMessage::PING()));
    let mut tampered = wal.log.clone();
    tampered.extend(ping);
    let bad = WriteAheadLog::with_log(tampered);
    let mut st = Storage::new();
    assert_eq!(bad.replay(&mut st, 0), Err(ReplayError::ForeignRecord));
}

#[test]
fn replay_rejects_torn_records() {
    let mut wal = WriteAheadLog::new();
    wal.append(put_frame(1, "a", vec![1]));
    while wal.write().is_some() {}
    let mut torn = wal.log.clone();
    torn.pop();
    let bad = WriteAheadLog::with_log(torn);
    let mut st = Storage::new();
    assert!(bad.replay(&mut st, 0).is_err());
}

#[test]
fn clear_truncates_the_log() {
    let mut wal = WriteAheadLog::new();
    wal.append(put_frame(1, "a", vec![1]));
    while wal.write().is_some() {}
    assert!(wal.log.len() > 0);
    wal.clear();
    assert_eq!(wal.log.len(), 0);
}

#[test]
fn read_log_entry_walks_the_records() {
    let mut wal = WriteAheadLog::new();
    wal.append(put_frame(1, "a", vec![1]));
    wal.append(delete_frame(2, "a"));
    while wal.write().is_some() {}
    let (f1, n1) = wal.read_log_entry(0).unwrap().unwrap();
    let (f2, n2) = wal.read_log_entry(n1).unwrap().unwrap();
    assert_eq!(f1, put_frame(1, "a", vec![1]));
    assert_eq!(f2, delete_frame(2, "a"));
    assert_eq!(wal.read_log_entry(n1 + n2).unwrap(), None);
}

#[test]
fn snapshot_then_restore_rebuilds_the_store() {
    let mut st = Storage::new();
    st.write(&key("a"), vec![1]);
    st.write(&key("b"), vec![2, 2]);
    let snap = SnapshotCreator::new("storage.log");
    let (bytes, count) = snap.snapshot(&st, 0, 0);
    assert_eq!(count, 2);
    let mut fresh = Storage::new();
    let applied = snap.restore(&mut fresh, &bytes, 0).unwrap();
    assert_eq!(applied, 2);
    assert_eq!(fresh.read(&key("a"), 0), Some(vec![1]));
    assert_eq!(fresh.read(&key("b"), 0), Some(vec![2, 2]));
}

#[test]
fn snapshot_drops_deadlines_and_skips_expired() {
    let mut st = Storage::new();
    st.write_ex(&key("soon"), vec![1], 10, 0);
    st.write_ex(&key("later"), vec![2], 1000, 0);
    let snap = SnapshotCreator::new("storage.log");
    // at time 500, "soon" is past its deadline and is not captured
    let (bytes, count) = snap.snapshot(&st, 0, 500);
    assert_eq!(count, 1);
    let mut fresh = Storage::new();
    snap.restore(&mut fresh, &bytes, 500).unwrap();
    assert_eq!(fresh.read(&key("soon"), 500), None);
    // the captured entry lost its deadline
    assert_eq!(fresh.read(&key("later"), u64::MAX - 1), Some(vec![2]));
}

#[test]
fn put_logs_snapshot_captures_then_log_clears() {
    // one put reaches the log as exactly one record; the snapshot's sole
    // record re-spells it; the log is then truncated to nothing
    let mut st = Storage::new();
    let mut wal = WriteAheadLog::new();
    st.write(&key("a"), vec![1, 2, 3]);
    wal.append(put_frame(42, "a", vec![1, 2, 3]));
    assert_eq!(wal.pending.len(), 1);
    let rec = wal.write().unwrap();
    let (logged, used) = decode(&rec, 0).unwrap();
    assert_eq!(used, rec.len());
    assert_eq!(logged, put_frame(42, "a", vec![1, 2, 3]));
    assert_eq!(wal.log, rec);

    let snap = SnapshotCreator::new("storage.log");
    let (bytes, count) = snap.snapshot(&st, 43, 0);
    assert_eq!(count, 1);
    let (sole, n) = decode(&bytes, 0).unwrap();
    assert_eq!(n, bytes.len());
    assert_eq!(
        sole.command,
        CommandMessage::PUT("a".to_string(), vec![1, 2, 3], None)
    );

    wal.clear();
    assert_eq!(wal.log.len(), 0);
}

#[test]
fn restore_then_replay_rebuilds_across_a_restart() {
    // base state {a:[1], b:[2]} is snapshotted; afterwards c is written
    // and a deleted, both logged; a restart restores then replays
    let mut st = Storage::new();
    st.write(&key("a"), vec![1]);
    st.write(&key("b"), vec![2]);
    let snap = SnapshotCreator::new("storage.log");
    let (snapshot_bytes, _) = snap.snapshot(&st, 0, 0);

    let mut wal = WriteAheadLog::new();
    st.write(&key("c"), vec![3]);
    wal.append(put_frame(1, "c", vec![3]));
    st.delete(&key("a"));
    wal.append(delete_frame(2, "a"));
    while wal.write().is_some() {}

    // crash-restart: a fresh store, the snapshot first, the log second
    let mut rebuilt = Storage::new();
    let recovered = WriteAheadLog::with_log(wal.log.clone());
    snap.restore(&mut rebuilt, &snapshot_bytes, 10).unwrap();
    recovered.replay(&mut rebuilt, 10).unwrap();

    assert_eq!(rebuilt.read(&key("a"), 10), None);
    assert_eq!(rebuilt.read(&key("b"), 10), Some(vec![2]));
    assert_eq!(rebuilt.read(&key("c"), 10), Some(vec![3]));
    let mut ks = rebuilt.keys(10);
    ks.sort();
    assert_eq!(ks, vec![key("b"), key("c")]);
}

#[test]
fn replay_of_an_empty_log_applies_nothing() {
    let wal = WriteAheadLog::new();
    let mut st = Storage::new();
    st.write(&key("kept"), vec![1]);
    assert_eq!(wal.replay(&mut st, 0), Ok(0));
    assert_eq!(st.read(&key("kept"), 0), Some(vec![1]));
}

#[test]
fn snapshot_of_an_empty_store_is_empty() {
    let st = Storage::new();
    let snap = SnapshotCreator::new("storage.log");
    let (bytes, count) = snap.snapshot(&st, 0, 0);
    assert_eq!(count, 0);
    assert_eq!(bytes.len(), 0);
    let mut fresh = Storage::new();
    assert_eq!(snap.restore(&mut fresh, &bytes, 0), Ok(0));
    assert_eq!(fresh.keys(0), Vec::<String>::new());
}

#[test]
fn empty_key_and_empty_value_survive_the_log() {
    let mut wal = WriteAheadLog::new();
    wal.append(put_frame(1, "", Vec::new()));
    while wal.write().is_some() {}
    let mut st = Storage::new();
    assert_eq!(wal.replay(&mut st, 0), Ok(1));
    assert_eq!(st.read(&key(""), 0), Some(Vec::new()));
}

#[test]
fn clear_makes_the_next_read_see_the_end() {
    let mut wal = WriteAheadLog::new();
    wal.append(put_frame(1, "a", vec![1]));
    while wal.write().is_some() {}
    wal.clear();
    assert_eq!(wal.read_log_entry(0), Ok(None));
}

#[test]
fn failed_replay_keeps_the_records_before_the_failure() {
    let mut wal = WriteAheadLog::new();
    wal.append(put_frame(1, "a", vec![1]));
    wal.append(put_frame(2, "b", vec![2]));
    while wal.write().is_some() {}
    let mut torn = wal.log.clone();
    torn.extend(vec![9u8; 4]);
    let bad = WriteAheadLog::with_log(torn);
    let mut st = Storage::new();
    assert!(bad.replay(&mut st, 0).is_err());
    // both whole records were applied before the torn tail failed
    assert_eq!(st.read(&key("a"), 0), Some(vec![1]));
    assert_eq!(st.read(&key("b"), 0), Some(vec![2]));
}

#[test]
fn failed_restore_keeps_the_records_before_the_failure() {
    let mut st = Storage::new();
    st.write(&key("a"), vec![1]);
    let snap = SnapshotCreator::new("storage.log");
    let (mut bytes, _) = snap.snapshot(&st, 0, 0);
    bytes.extend(vec![9u8; 4]);
    let mut fresh = Storage::new();
    assert!(snap.restore(&mut fresh, &bytes, 0).is_err());
    assert_eq!(fresh.read(&key("a"), 0), Some(vec![1]));
}
