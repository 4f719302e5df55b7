//! Wire-format round trips and decode failure modes.

use cachetcp::codec::{decode, encode, CodecError};
use cachetcp::proto::{CommandMessage, FrameMessage};

fn round_trip(frame: FrameMessage) {
    let bytes = encode(&frame);
    let (back, used) = decode(&bytes, 0).expect("a fresh encoding must decode");
    assert_eq!(used, bytes.len());
    assert_eq!(back, frame);
}

#[test]
fn connected_round_trip() {
    round_trip(FrameMessage::new(7, CommandMessage::CONNECTED()));
}

#[test]
fn ping_round_trip() {
    round_trip(FrameMessage::new(8, CommandMessage::PING()));
}

#[test]
fn pong_round_trip() {
    round_trip(FrameMessage::new(9, CommandMessage::PONG()));
}

#[test]
fn get_round_trip() {
    round_trip(FrameMessage::new(10, CommandMessage::GET("alpha".to_string())));
}

#[test]
fn put_without_ttl_round_trip() {
    round_trip(FrameMessage::new(
        11,
        CommandMessage::PUT("key".to_string(), vec![1, 2, 3, 0, 255], None),
    ));
}

#[test]
fn put_with_ttl_round_trip() {
    round_trip(FrameMessage::new(
        12,
        CommandMessage::PUT("key".to_string(), vec![], Some(1500)),
    ));
}

#[test]
fn delete_round_trip() {
    round_trip(FrameMessage::new(13, CommandMessage::DELETE("gone".to_string())));
}

#[test]
fn keys_round_trip() {
    round_trip(FrameMessage::new(14, CommandMessage::KEYS()));
}

#[test]
fn recv_none_round_trip() {
    round_trip(FrameMessage::new(15, CommandMessage::RECV(None)));
}

#[test]
fn recv_some_round_trip() {
    round_trip(FrameMessage::new(16, CommandMessage::RECV(Some(vec![9, 8, 7]))));
}

#[test]
fn unicode_key_round_trip() {
    round_trip(FrameMessage::new(
        17,
        CommandMessage::PUT("clé-ß-日本語".to_string(), vec![42], Some(1)),
    ));
}

#[test]
fn correlation_id_extremes_survive() {
    round_trip(FrameMessage::new(0, CommandMessage::PING()));
    round_trip(FrameMessage::new(u128::MAX, CommandMessage::PING()));
}

#[test]
fn empty_buffer_is_connection_closed() {
    let empty: Vec<u8> = Vec::new();
    assert_eq!(decode(&empty, 0), Err(CodecError::ConnectionClosed));
}

#[test]
fn short_prefix_is_connection_closed() {
    let bytes = vec![0u8, 0, 0];
    assert_eq!(decode(&bytes, 0), Err(CodecError::ConnectionClosed));
}

#[test]
fn truncated_body_is_connection_closed() {
    let mut bytes = encode(&FrameMessage::new(1, CommandMessage::PING()));
    bytes.pop();
    assert_eq!(decode(&bytes, 0), Err(CodecError::ConnectionClosed));
}

#[test]
fn foreign_version_is_unsupported() {
    let mut bytes = encode(&FrameMessage::new(1, CommandMessage::PING()));
    // the version byte sits after the prefix and the correlation id
    bytes[8 + 16] = 2;
    assert_eq!(decode(&bytes, 0), Err(CodecError::UnsupportedVersion));
}

#[test]
fn unknown_tag_is_malformed() {
    let mut bytes = encode(&FrameMessage::new(1, CommandMessage::PING()));
    bytes[8 + 17] = 200;
    assert_eq!(decode(&bytes, 0), Err(CodecError::Malformed));
}

#[test]
fn invalid_utf8_key_is_malformed() {
    let mut bytes = encode(&FrameMessage::new(1, CommandMessage::GET("ab".to_string())));
    let last = bytes.len() - 2;
    bytes[last] = 0xFF;
    assert_eq!(decode(&bytes, 0), Err(CodecError::Malformed));
}

#[test]
fn two_messages_decode_in_sequence() {
    let first = FrameMessage::new(1, CommandMessage::GET("a".to_string()));
    let second = FrameMessage::new(2, CommandMessage::DELETE("b".to_string()));
    let mut bytes = encode(&first);
    bytes.extend(encode(&second));
    let (f1, n1) = decode(&bytes, 0).unwrap();
    let (f2, n2) = decode(&bytes, n1).unwrap();
    assert_eq!(f1, first);
    assert_eq!(f2, second);
    assert_eq!(n1 + n2, bytes.len());
}

#[test]
fn reply_keeps_correlation_id() {
    let request = FrameMessage::new(77, CommandMessage::GET("a".to_string()));
    let reply = request.reply_borrow(Some(vec![1]));
    assert_eq!(reply.ts, 77);
    assert_eq!(reply.command, CommandMessage::RECV(Some(vec![1])));
    let owned = request.reply(None);
    assert_eq!(owned.ts, 77);
    assert_eq!(owned.command, CommandMessage::RECV(None));
}
