//! Storage engine behaviour: writes, reads, deletes, expiration, keys.

use cachetcp::storage::Storage;

fn key(s: &str) -> String {
    s.to_string()
}

#[test]
fn write_then_read_returns_value() {
    let mut st = Storage::new();
    st.write(&key("k"), vec![1, 2, 3]);
    assert_eq!(st.read(&key("k"), 0), Some(vec![1, 2, 3]));
}

#[test]
fn write_reports_previous_value() {
    let mut st = Storage::new();
    assert_eq!(st.write(&key("k"), vec![1]), None);
    assert_eq!(st.write(&key("k"), vec![2]), Some(vec![1]));
    assert_eq!(st.read(&key("k"), 0), Some(vec![2]));
}

#[test]
fn read_of_absent_key_is_none() {
    let st = Storage::new();
    assert_eq!(st.read(&key("missing"), 0), None);
}

#[test]
fn delete_then_read_is_none() {
    let mut st = Storage::new();
    st.write(&key("k"), vec![5]);
    assert_eq!(st.delete(&key("k")), Some(vec![5]));
    assert_eq!(st.read(&key("k"), 0), None);
}

#[test]
fn delete_of_absent_key_is_none() {
    let mut st = Storage::new();
    assert_eq!(st.delete(&key("never")), None);
}

#[test]
fn ttl_entry_reads_back_before_deadline() {
    let mut st = Storage::new();
    st.write_ex(&key("k"), vec![9], 100, 1000);
    assert_eq!(st.read(&key("k"), 1000), Some(vec![9]));
    assert_eq!(st.read(&key("k"), 1099), Some(vec![9]));
}

#[test]
fn ttl_entry_is_gone_from_deadline_on() {
    let mut st = Storage::new();
    st.write_ex(&key("k"), vec![9], 100, 1000);
    assert_eq!(st.read(&key("k"), 1100), None);
    assert_eq!(st.read(&key("k"), 5000), None);
}

#[test]
fn sweep_removes_expired_and_reports_each_once() {
    let mut st = Storage::new();
    st.write_ex(&key("dead"), vec![1], 50, 0);
    st.write_ex(&key("alive"), vec![2], 5000, 0);
    st.write(&key("forever"), vec![3]);
    let swept = st.sweep(100);
    assert_eq!(swept, vec![key("dead")]);
    assert_eq!(st.read(&key("dead"), 100), None);
    assert_eq!(st.read(&key("alive"), 100), Some(vec![2]));
    assert_eq!(st.read(&key("forever"), 100), Some(vec![3]));
    // a second sweep finds nothing left to remove
    assert_eq!(st.sweep(100), Vec::<String>::new());
}

#[test]
fn sweep_at_exact_deadline_removes() {
    let mut st = Storage::new();
    st.write_ex(&key("k"), vec![1], 100, 1000);
    let swept = st.sweep(1100);
    assert_eq!(swept, vec![key("k")]);
}

#[test]
fn overwrite_replaces_deadline() {
    let mut st = Storage::new();
    st.write_ex(&key("k"), vec![1], 10, 0);
    st.write(&key("k"), vec![2]);
    // the plain overwrite dropped the deadline
    assert_eq!(st.read(&key("k"), 1_000_000), Some(vec![2]));
}

#[test]
fn keys_after_put_put_delete() {
    let mut st = Storage::new();
    st.write(&key("x"), vec![1]);
    st.write(&key("y"), vec![2]);
    st.delete(&key("y"));
    assert_eq!(st.keys(0), vec![key("x")]);
}

#[test]
fn keys_lists_each_key_once() {
    let mut st = Storage::new();
    st.write(&key("a"), vec![1]);
    st.write(&key("b"), vec![2]);
    st.write(&key("a"), vec![3]);
    let mut ks = st.keys(0);
    ks.sort();
    assert_eq!(ks, vec![key("a"), key("b")]);
}

#[test]
fn distinct_writes_stay_whole() {
    // overlapping writers hand in whole values; a read sees exactly one
    // of them, never a byte-wise mixture
    let mut st = Storage::new();
    let values = [vec![1u8; 64], vec![2u8; 64], vec![3u8; 64]];
    for v in values.iter() {
        st.write(&key("shared"), v.clone());
    }
    let got = st.read(&key("shared"), 0).unwrap();
    assert!(values.contains(&got));
    assert_eq!(got, values[2].clone());
}

#[test]
fn ttl_saturates_instead_of_wrapping() {
    let mut st = Storage::new();
    st.write_ex(&key("k"), vec![1], u64::MAX, u64::MAX - 5);
    // the deadline saturates at the largest time, so the entry outlives
    // any earlier clock reading
    assert_eq!(st.read(&key("k"), u64::MAX - 1), Some(vec![1]));
}

#[test]
fn keys_omits_expired_entries() {
    let mut st = Storage::new();
    st.write_ex(&key("soon"), vec![1], 10, 0);
    st.write(&key("stay"), vec![2]);
    assert_eq!(st.keys(100), vec![key("stay")]);
    let mut both = st.keys(5);
    both.sort();
    assert_eq!(both, vec![key("soon"), key("stay")]);
}

#[test]
fn expire_emits_one_delete_record_per_swept_key() {
    let mut st = cachetcp::storage::Storage::new();
    st.write_ex(&key("dead"), vec![1], 10, 0);
    st.write(&key("alive"), vec![2]);
    let records = st.expire(100, 77);
    assert_eq!(records.len(), 1);
    assert_eq!(records[0].ts, 77);
    assert_eq!(
        records[0].command,
        cachetcp::proto::CommandMessage::DELETE(key("dead"))
    );
    assert_eq!(st.read(&key("dead"), 100), None);
    assert_eq!(st.read(&key("alive"), 100), Some(vec![2]));
}
