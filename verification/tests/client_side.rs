//! Client-side correlation helpers and the byte-group splitter.

use cachetcp::client::{is_reply_to, reply_payload, request_frame, Correlator};
use cachetcp::proto::{resolve_pair, CommandMessage, FrameMessage, VERSION};

#[test]
fn correlator_hands_out_increasing_ids() {
    let mut c = Correlator::new();
    assert_eq!(c.fresh(), 0);
    assert_eq!(c.fresh(), 1);
    assert_eq!(c.fresh(), 2);
}

#[test]
fn request_frame_carries_id_and_version() {
    let f = request_frame(9, CommandMessage::GET("k".to_string()));
    assert_eq!(f.ts, 9);
    assert_eq!(f.version, VERSION);
    assert_eq!(f.command, CommandMessage::GET("k".to_string()));
}

#[test]
fn reply_matching_needs_id_and_envelope() {
    let reply = FrameMessage::new(4, CommandMessage::RECV(Some(vec![1])));
    assert!(is_reply_to(&reply, 4));
    assert!(!is_reply_to(&reply, 5));
    let ping = FrameMessage::new(4, CommandMessage::PING());
    assert!(!is_reply_to(&ping, 4));
}

#[test]
fn reply_payload_extracts_recv_data() {
    let some = FrameMessage::new(1, CommandMessage::RECV(Some(vec![2, 3])));
    assert_eq!(reply_payload(some), Some(vec![2, 3]));
    let none = FrameMessage::new(1, CommandMessage::RECV(None));
    assert_eq!(reply_payload(none), None);
    let other = FrameMessage::new(1, CommandMessage::PONG());
    assert_eq!(reply_payload(other), None);
}

#[test]
fn resolve_pair_splits_at_zero_bytes() {
    let groups = resolve_pair(vec![1, 2, 0, 3, 0, 4]);
    assert_eq!(groups, vec![vec![1, 2], vec![0, 3], vec![0, 4]]);
}

#[test]
fn resolve_pair_of_nothing_is_no_groups() {
    assert_eq!(resolve_pair(Vec::new()), Vec::<Vec<u8>>::new());
}

#[test]
fn resolve_pair_with_leading_zero_starts_one_group() {
    let groups = resolve_pair(vec![0, 7]);
    assert_eq!(groups, vec![vec![0, 7]]);
}

#[test]
fn resolve_pair_keeps_runs_of_zeroes_apart() {
    let groups = resolve_pair(vec![0, 0, 5]);
    assert_eq!(groups, vec![vec![0], vec![0, 5]]);
}
