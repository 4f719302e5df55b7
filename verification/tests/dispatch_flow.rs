//! Dispatch of inbound frames: replies, storage effects, and which
//! commands reach the write-ahead log.

use cachetcp::dispatch::{decode_keys, encode_keys, handle_message};
use cachetcp::proto::{CommandMessage, FrameMessage};
use cachetcp::storage::Storage;

fn key(s: &str) -> String {
    s.to_string()
}

#[test]
fn connected_gets_empty_recv() {
    let mut st = Storage::new();
    let msg = FrameMessage::new(5, CommandMessage::CONNECTED());
    let (reply, record) = handle_message(&msg, &mut st, 0);
    let reply = reply.unwrap();
    assert_eq!(reply.ts, 5);
    assert_eq!(reply.command, CommandMessage::RECV(None));
    assert_eq!(record, None);
}

#[test]
fn ping_gets_pong() {
    let mut st = Storage::new();
    let msg = FrameMessage::new(6, CommandMessage::PING());
    let (reply, record) = handle_message(&msg, &mut st, 0);
    let reply = reply.unwrap();
    assert_eq!(reply.ts, 6);
    assert_eq!(reply.command, CommandMessage::PONG());
    assert_eq!(record, None);
}

#[test]
fn pong_is_ignored() {
    let mut st = Storage::new();
    let msg = FrameMessage::new(6, CommandMessage::PONG());
    assert_eq!(handle_message(&msg, &mut st, 0), (None, None));
}

#[test]
fn get_of_present_key_replies_with_value() {
    let mut st = Storage::new();
    st.write(&key("k"), vec![1, 2]);
    let msg = FrameMessage::new(7, CommandMessage::GET(key("k")));
    let (reply, record) = handle_message(&msg, &mut st, 0);
    assert_eq!(reply.unwrap().command, CommandMessage::RECV(Some(vec![1, 2])));
    assert_eq!(record, None);
}

#[test]
fn get_of_absent_key_replies_with_nothing() {
    let mut st = Storage::new();
    let msg = FrameMessage::new(7, CommandMessage::GET(key("k")));
    let (reply, _) = handle_message(&msg, &mut st, 0);
    assert_eq!(reply.unwrap().command, CommandMessage::RECV(None));
}

#[test]
fn put_stores_logs_and_acks() {
    let mut st = Storage::new();
    let msg = FrameMessage::new(8, CommandMessage::PUT(key("k"), vec![3], None));
    let (reply, record) = handle_message(&msg, &mut st, 0);
    assert_eq!(reply.unwrap().command, CommandMessage::RECV(None));
    assert_eq!(record.unwrap(), msg);
    assert_eq!(st.read(&key("k"), 0), Some(vec![3]));
}

#[test]
fn put_with_ttl_counts_from_dispatch_time() {
    let mut st = Storage::new();
    let msg = FrameMessage::new(8, CommandMessage::PUT(key("k"), vec![3], Some(100)));
    handle_message(&msg, &mut st, 1000);
    assert_eq!(st.read(&key("k"), 1099), Some(vec![3]));
    assert_eq!(st.read(&key("k"), 1100), None);
}

#[test]
fn delete_removes_logs_and_acks() {
    let mut st = Storage::new();
    st.write(&key("k"), vec![3]);
    let msg = FrameMessage::new(9, CommandMessage::DELETE(key("k")));
    let (reply, record) = handle_message(&msg, &mut st, 0);
    assert_eq!(reply.unwrap().command, CommandMessage::RECV(None));
    assert_eq!(record.unwrap(), msg);
    assert_eq!(st.read(&key("k"), 0), None);
}

#[test]
fn keys_reply_spells_the_key_set() {
    let mut st = Storage::new();
    st.write(&key("x"), vec![1]);
    st.write(&key("y"), vec![2]);
    st.delete(&key("y"));
    let msg = FrameMessage::new(10, CommandMessage::KEYS());
    let (reply, record) = handle_message(&msg, &mut st, 0);
    assert_eq!(record, None);
    let payload = match reply.unwrap().command {
        CommandMessage::RECV(Some(p)) => p,
        other => panic!("expected a payload-bearing reply, got {:?}", other),
    };
    let mut names = decode_keys(&payload).expect("the payload must spell a key list");
    names.sort();
    assert_eq!(names, vec![key("x")]);
}

#[test]
fn inbound_recv_is_ignored() {
    let mut st = Storage::new();
    st.write(&key("k"), vec![1]);
    let msg = FrameMessage::new(11, CommandMessage::RECV(Some(vec![1])));
    assert_eq!(handle_message(&msg, &mut st, 0), (None, None));
    assert_eq!(st.read(&key("k"), 0), Some(vec![1]));
}

#[test]
fn key_list_round_trips_through_the_payload() {
    let keys = vec![key("alpha"), key(""), key("βeta")];
    let payload = encode_keys(&keys);
    assert_eq!(decode_keys(&payload), Some(keys));
}

#[test]
fn empty_key_list_is_an_empty_payload() {
    let keys: Vec<String> = Vec::new();
    let payload = encode_keys(&keys);
    assert_eq!(payload.len(), 0);
    assert_eq!(decode_keys(&payload), Some(Vec::new()));
}

#[test]
fn torn_key_payload_is_rejected() {
    let keys = vec![key("alpha")];
    let mut payload = encode_keys(&keys);
    payload.pop();
    assert_eq!(decode_keys(&payload), None);
}

#[test]
fn get_of_expired_key_replies_with_nothing() {
    let mut st = Storage::new();
    let put = FrameMessage::new(1, CommandMessage::PUT(key("k"), vec![1], Some(50)));
    handle_message(&put, &mut st, 0);
    let get = FrameMessage::new(2, CommandMessage::GET(key("k")));
    let (reply, _) = handle_message(&get, &mut st, 100);
    assert_eq!(reply.unwrap().command, CommandMessage::RECV(None));
}

#[test]
fn keys_reply_omits_expired_keys() {
    let mut st = Storage::new();
    st.write_ex(&key("gone"), vec![1], 10, 0);
    st.write(&key("here"), vec![2]);
    let msg = FrameMessage::new(3, CommandMessage::KEYS());
    let (reply, _) = handle_message(&msg, &mut st, 100);
    let payload = match reply.unwrap().command {
        CommandMessage::RECV(Some(p)) => p,
        other => panic!("expected a payload-bearing reply, got {:?}", other),
    };
    assert_eq!(decode_keys(&payload), Some(vec![key("here")]));
}
