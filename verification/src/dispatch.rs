//! The per-connection dispatch rules: how one inbound frame becomes a
//! storage operation, a reply, and possibly a write-ahead-log record. The
//! surrounding connection task performs the socket reads and writes and
//! hands frames in and out; every decision lives here.

use vstd::prelude::*;

use crate::codec::lp;
use crate::codec::parse_lp;
use crate::codec::pow256;
use crate::codec::write_lp;
use crate::codec::lemma_parse_lp_exact;
use crate::codec::lemma_pow256_16;
use crate::proto::CommandMessage;
use crate::proto::CommandV;
use crate::proto::FrameMessage;
use crate::proto::FrameV;
use crate::proto::VERSION;
use crate::storage::Storage;
use crate::storage::read_spec;
use crate::wal::apply_command;
use crate::wal::loggable;
use vstd::string::StrSliceExecFns;
use vstd::utf8::decode_utf8;
use vstd::utf8::encode_utf8;
use vstd::utf8::encode_utf8_decode_utf8;
use vstd::utf8::encode_utf8_valid_utf8;
use vstd::utf8::valid_utf8;

verus! {

/// The key list as the `Keys` reply carries it: each key's UTF-8 bytes
/// under an 8-byte length prefix, in list order.
pub open spec fn keys_payload(ks: Seq<Seq<char>>) -> Seq<u8>
    decreases ks.len(),
{
    if ks.len() == 0 {
        Seq::empty()
    } else {
        lp(encode_utf8(ks.first())) + keys_payload(ks.drop_first())
    }
}

/// The key list a `Keys` reply payload spells, if it is well formed.
pub open spec fn parse_keys(s: Seq<u8>) -> Option<Seq<Seq<char>>>
    decreases s.len(),
{
    if s.len() == 0 {
        Some(Seq::empty())
    } else {
        match parse_lp(s, 0) {
            None => None,
            Some((kb, n)) => if valid_utf8(kb) {
                match parse_keys(s.subrange(n, s.len() as int)) {
                    Some(rest) => Some(seq![decode_utf8(kb)] + rest),
                    None => None,
                }
            } else {
                None
            },
        }
    }
}

/// One more key at the end of the list appends one more chunk to the
/// payload.
proof fn lemma_keys_payload_push(a: Seq<Seq<char>>, x: Seq<char>)
    ensures
        keys_payload(a.push(x)) == keys_payload(a) + lp(encode_utf8(x)),
    decreases a.len(),
{
    if a.len() == 0 {
        assert(a.push(x).first() == x);
        assert(a.push(x).drop_first() =~= Seq::<Seq<char>>::empty());
        assert(keys_payload(a.push(x)) == lp(encode_utf8(x)) + keys_payload(
            Seq::<Seq<char>>::empty(),
        ));
        assert(lp(encode_utf8(x)) + Seq::<u8>::empty() =~= lp(encode_utf8(x)));
        assert(Seq::<u8>::empty() + lp(encode_utf8(x)) =~= lp(encode_utf8(x)));
    } else {
        assert(a.push(x).first() == a.first());
        assert(a.push(x).drop_first() =~= a.drop_first().push(x));
        lemma_keys_payload_push(a.drop_first(), x);
        assert(keys_payload(a.push(x)) == lp(encode_utf8(a.first())) + keys_payload(
            a.drop_first().push(x),
        ));
        assert((lp(encode_utf8(a.first())) + keys_payload(a.drop_first())) + lp(encode_utf8(x))
            =~= lp(encode_utf8(a.first())) + (keys_payload(a.drop_first()) + lp(encode_utf8(x))));
    }
}

/// A chunk standing at `at` parses the same from the stream's suffix at
/// `at`, with the offset rebased.
proof fn lemma_parse_lp_rebase(s: Seq<u8>, at: int)
    requires
        0 <= at <= s.len(),
    ensures
        match parse_lp(s, at) {
            Some(pair) => parse_lp(s.subrange(at, s.len() as int), 0) == Some(
                (pair.0, pair.1 - at),
            ),
            None => parse_lp(s.subrange(at, s.len() as int), 0) is None,
        },
{
    let sub = s.subrange(at, s.len() as int);
    if at + 8 <= s.len() {
        assert(sub.subrange(0, 8) =~= s.subrange(at, at + 8));
        let l = crate::codec::be_val(s.subrange(at, at + 8)) as int;
        if at + 8 + l <= s.len() {
            assert(sub.subrange(8, 8 + l) =~= s.subrange(at + 8, at + 8 + l));
        }
    }
}

/// Serializes a key list as the `Keys` reply payload. Each key's UTF-8
/// form, held in memory, fits under its 8-byte length prefix.
pub fn encode_keys(keys: &Vec<String>) -> (r: Vec<u8>)
    ensures
        r@ == keys_payload(keys.deep_view()),
        forall|i: int|
            0 <= i < keys.deep_view().len() ==> encode_utf8(#[trigger] keys.deep_view()[i]).len()
                < pow256(8),
{
    let ghost dv = keys.deep_view();
    let mut out: Vec<u8> = Vec::new();
    let mut i: usize = 0;
    proof {
        lemma_pow256_16();
        assert(out@ =~= keys_payload(dv.subrange(0, 0)));
    }
    while i < keys.len()
        invariant
            dv == keys.deep_view(),
            dv.len() == keys@.len(),
            i <= keys@.len(),
            out@ == keys_payload(dv.subrange(0, i as int)),
            pow256(8) == 0x1_0000_0000_0000_0000,
            forall|j: int| 0 <= j < i ==> encode_utf8(#[trigger] dv[j]).len() < pow256(8),
        decreases keys@.len() - i,
    {
        let kb = keys[i].as_str().as_bytes_vec();
        let kl = kb.len();
        proof {
            assert(dv[i as int] == keys@[i as int]@);
            assert(encode_utf8(dv[i as int]).len() == kl as nat);
        }
        write_lp(&mut out, &kb);
        proof {
            assert(dv.subrange(0, i as int + 1) =~= dv.subrange(0, i as int).push(dv[i as int]));
            lemma_keys_payload_push(dv.subrange(0, i as int), dv[i as int]);
        }
        i = i + 1;
    }
    proof {
        assert(dv.subrange(0, dv.len() as int) =~= dv);
    }
    out
}

/// Reads a `Keys` reply payload back into the key list it spells, or
/// nothing when the payload is not well formed.
pub fn decode_keys(buf: &Vec<u8>) -> (r: Option<Vec<String>>)
    ensures
        match r {
            Some(ks) => parse_keys(buf@) == Some(ks.deep_view()),
            None => parse_keys(buf@) is None,
        },
{
    let n = buf.len();
    let mut out: Vec<String> = Vec::new();
    let mut pos: usize = 0;
    proof {
        assert(out.deep_view() =~= Seq::<Seq<char>>::empty());
        assert(buf@.subrange(0, n as int) =~= buf@);
        let tail0 = parse_keys(buf@);
        if tail0 is Some {
            assert(out.deep_view() + tail0.unwrap() =~= tail0.unwrap());
        }
    }
    while pos < n
        invariant
            n == buf@.len(),
            pos <= n,
            ({
                let tail = parse_keys(buf@.subrange(pos as int, n as int));
                match tail {
                    Some(rest) => parse_keys(buf@) == Some(out.deep_view() + rest),
                    None => parse_keys(buf@) is None,
                }
            }),
        decreases n - pos,
    {
        let ghost sub = buf@.subrange(pos as int, n as int);
        match crate::codec::read_lp(buf, 0, n, pos) {
            None => {
                proof {
                    assert(buf@.subrange(0, n as int) =~= buf@);
                    lemma_parse_lp_rebase(buf@, pos as int);
                    assert(parse_keys(sub) is None);
                }
                return None;
            },
            Some((kb, next)) => {
                proof {
                    assert(buf@.subrange(0, n as int) =~= buf@);
                    lemma_parse_lp_rebase(buf@, pos as int);
                    assert(parse_lp(sub, 0) == Some((kb@, next as int - pos as int)));
                }
                match crate::codec::bytes_to_string(kb) {
                    None => {
                        proof {
                            assert(parse_keys(sub) is None);
                        }
                        return None;
                    },
                    Some(key) => {
                        let ghost out0 = out.deep_view();
                        proof {
                            assert(sub.subrange(next as int - pos as int, sub.len() as int)
                                =~= buf@.subrange(next as int, n as int));
                        }
                        out.push(key);
                        proof {
                            assert(out.deep_view() =~= out0.push(decode_utf8(kb@)));
                            let tail2 = parse_keys(buf@.subrange(next as int, n as int));
                            if tail2 is Some {
                                assert(parse_keys(sub) == Some(
                                    seq![decode_utf8(kb@)] + tail2.unwrap(),
                                ));
                                assert(out0 + (seq![decode_utf8(kb@)] + tail2.unwrap())
                                    =~= out.deep_view() + tail2.unwrap());
                            } else {
                                assert(parse_keys(sub) is None);
                            }
                        }
                        pos = next;
                    },
                }
            },
        }
    }
    proof {
        assert(buf@.subrange(pos as int, n as int) =~= Seq::<u8>::empty());
        assert(out.deep_view() + Seq::<Seq<char>>::empty() =~= out.deep_view());
    }
    Some(out)
}

/// Round trip of the key list: a payload built from keys parses back to
/// exactly those keys.
pub proof fn lemma_keys_round_trip(ks: Seq<Seq<char>>)
    requires
        forall|i: int| 0 <= i < ks.len() ==> encode_utf8(ks[i]).len() < pow256(8),
    ensures
        parse_keys(keys_payload(ks)) == Some(ks),
    decreases ks.len(),
{
    if ks.len() == 0 {
    } else {
        let kb = encode_utf8(ks.first());
        encode_utf8_valid_utf8(ks.first());
        encode_utf8_decode_utf8(ks.first());
        let payload = keys_payload(ks);
        let tail = keys_payload(ks.drop_first());
        crate::codec::lemma_be_bytes_len(kb.len(), 8);
        assert(payload.subrange(0, payload.len() as int) =~= lp(kb) + tail);
        lemma_parse_lp_exact(payload, 0, kb, tail);
        let n = 8 + kb.len() as int;
        assert(payload.subrange(n, payload.len() as int) =~= tail);
        assert forall|i: int| 0 <= i < ks.drop_first().len() implies encode_utf8(
            #[trigger] ks.drop_first()[i],
        ).len() < pow256(8) by {
            assert(ks.drop_first()[i] == ks[i + 1]);
        }
        lemma_keys_round_trip(ks.drop_first());
        assert(seq![ks.first()] + ks.drop_first() =~= ks);
    }
}

/// The reply envelope under the request's correlation id.
pub open spec fn recv_frame(ts: u128, data: Option<Seq<u8>>) -> FrameV {
    FrameV { ts, version: VERSION, command: CommandV::Recv { data } }
}

/// Handles one inbound frame against the store at time `now_ms`: the
/// reply to send back, if any, and the record to append to the
/// write-ahead log, if the command mutated the store. An inbound `Recv`
/// is a protocol violation by the peer and is ignored.
pub fn handle_message(msg: &FrameMessage, cc: &mut Storage, now_ms: u64) -> (r: (
    Option<FrameMessage>,
    Option<FrameMessage>,
))
    requires
        old(cc).wf(),
    ensures
        final(cc).wf(),
        match msg@.command {
            CommandV::Connected => r.0 is Some && r.0.unwrap()@ == recv_frame(msg@.ts, None)
                && r.1 is None && final(cc)@ == old(cc)@,
            CommandV::Ping => r.0 is Some && r.0.unwrap()@ == (FrameV {
                ts: msg@.ts,
                version: VERSION,
                command: CommandV::Pong,
            }) && r.1 is None && final(cc)@ == old(cc)@,
            CommandV::Pong => r.0 is None && r.1 is None && final(cc)@ == old(cc)@,
            CommandV::Get { key } => r.0 is Some && r.0.unwrap()@ == recv_frame(
                msg@.ts,
                read_spec(old(cc)@, key, now_ms),
            ) && r.1 is None && final(cc)@ == old(cc)@,
            CommandV::Put { .. } => final(cc)@ == apply_command(old(cc)@, msg@.command, now_ms)
                && r.0 is Some && r.0.unwrap()@ == recv_frame(msg@.ts, None) && r.1 is Some
                && r.1.unwrap()@ == msg@ && loggable(r.1.unwrap()@.command),
            CommandV::Delete { .. } => final(cc)@ == apply_command(old(cc)@, msg@.command, now_ms)
                && r.0 is Some && r.0.unwrap()@ == recv_frame(msg@.ts, None) && r.1 is Some
                && r.1.unwrap()@ == msg@ && loggable(r.1.unwrap()@.command),
            CommandV::Keys => r.1 is None && final(cc)@ == old(cc)@ && exists|ks: Seq<Seq<char>>|
                {
                    &&& ks.no_duplicates()
                    &&& ks.to_set() == crate::storage::live_map(old(cc)@, now_ms).dom()
                    &&& forall|i: int|
                        0 <= i < ks.len() ==> encode_utf8(#[trigger] ks[i]).len() < pow256(8)
                    &&& parse_keys(keys_payload(ks)) == Some(ks)
                    &&& r.0 is Some
                    &&& r.0.unwrap()@ == recv_frame(msg@.ts, Some(keys_payload(ks)))
                },
            CommandV::Recv { .. } => r.0 is None && r.1 is None && final(cc)@ == old(cc)@,
        },
{
    match &msg.command {
        CommandMessage::CONNECTED() => (Some(msg.reply_borrow(None)), None),
        CommandMessage::PING() => (
            Some(FrameMessage::new(msg.ts, CommandMessage::PONG())),
            None,
        ),
        CommandMessage::PONG() => (None, None),
        CommandMessage::GET(key) => {
            let data = cc.read(key, now_ms);
            proof {
                match data {
                    Some(ref v) => {
                        assert(v.deep_view() =~= v@);
                        assert(data.deep_view() == read_spec(old(cc)@, key@, now_ms));
                    },
                    None => {
                        assert(data.deep_view() == read_spec(old(cc)@, key@, now_ms));
                    },
                }
            }
            (Some(msg.reply_borrow(data)), None)
        },
        CommandMessage::PUT(key, value, ttl) => {
            let data = value.clone();
            proof {
                assert(data@ =~= value@);
            }
            match ttl {
                None => {
                    cc.write(key, data);
                },
                Some(d) => {
                    cc.write_ex(key, data, *d, now_ms);
                },
            }
            (Some(msg.reply_borrow(None)), Some(msg.clone()))
        },
        CommandMessage::DELETE(key) => {
            cc.delete(key);
            (Some(msg.reply_borrow(None)), Some(msg.clone()))
        },
        CommandMessage::KEYS() => {
            let ks = cc.keys(now_ms);
            let payload = encode_keys(&ks);
            let reply = msg.reply_borrow(Some(payload));
            proof {
                let ghost w = ks.deep_view();
                assert(payload.deep_view() =~= payload@);
                lemma_keys_round_trip(w);
                assert(w.no_duplicates() && w.to_set() == crate::storage::live_map(
                    old(cc)@,
                    now_ms,
                ).dom() && reply@ == recv_frame(
                    msg@.ts,
                    Some(keys_payload(w)),
                ));
            }
            (Some(reply), None)
        },
        CommandMessage::RECV(_) => (None, None),
    }
}

} // verus!
