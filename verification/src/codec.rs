//! The frame codec: every wire message is an 8-byte big-endian length
//! prefix followed by a frame body of exactly that many bytes. The body
//! carries the correlation id (16 bytes, big-endian), the version tag
//! (1 byte), a command tag (1 byte) and the command's fields, strings and
//! byte payloads each under their own 8-byte length prefix.
//!
//! `decode` is all-or-nothing: it either consumes one whole message or
//! reports why it cannot, and never exposes a partial frame.

use vstd::prelude::*;

use crate::proto::CommandMessage;
use crate::proto::CommandV;
use crate::proto::FrameMessage;
use crate::proto::FrameV;
use crate::proto::VERSION;
use vstd::slice::slice_subrange;
use vstd::slice::slice_to_vec;
use vstd::utf8::decode_utf8;
use vstd::utf8::encode_utf8;
use vstd::utf8::encode_utf8_decode_utf8;
use vstd::utf8::encode_utf8_valid_utf8;
use vstd::utf8::valid_utf8;

verus! {

/// Why a message could not be decoded. `ConnectionClosed` (the stream
/// ended before a whole message was available) is terminal for a reader;
/// `UnsupportedVersion` and `Malformed` are recoverable: the framing held,
/// only this message is dropped.
#[derive(Clone, Copy, Debug, PartialEq, Eq, Structural)]
pub enum CodecError {
    UnsupportedVersion,
    ConnectionClosed,
    Malformed,
}

/// 256 to the power `n`: the number of values `n` bytes can carry.
pub open spec fn pow256(n: nat) -> nat
    decreases n,
{
    if n == 0 {
        1
    } else {
        256 * pow256((n - 1) as nat)
    }
}

/// The value of `s` read as a big-endian integer.
pub open spec fn be_val(s: Seq<u8>) -> nat
    decreases s.len(),
{
    if s.len() == 0 {
        0
    } else {
        be_val(s.drop_last()) * 256 + s.last() as nat
    }
}

/// The `n`-byte big-endian encoding of `x` (mod 256^n).
pub open spec fn be_bytes(x: nat, n: nat) -> Seq<u8>
    decreases n,
{
    if n == 0 {
        Seq::empty()
    } else {
        be_bytes(x / 256, (n - 1) as nat).push((x % 256) as u8)
    }
}

pub proof fn lemma_be_bytes_len(x: nat, n: nat)
    ensures
        be_bytes(x, n).len() == n,
    decreases n,
{
    if n > 0 {
        lemma_be_bytes_len(x / 256, (n - 1) as nat);
    }
}

pub proof fn lemma_be_val_bound(s: Seq<u8>)
    ensures
        be_val(s) < pow256(s.len()),
    decreases s.len(),
{
    if s.len() > 0 {
        lemma_be_val_bound(s.drop_last());
    }
}

pub proof fn lemma_be_bytes_val(x: nat, n: nat)
    requires
        x < pow256(n),
    ensures
        be_val(be_bytes(x, n)) == x,
    decreases n,
{
    if n > 0 {
        assert(x / 256 < pow256((n - 1) as nat)) by (nonlinear_arith)
            requires
                x < 256 * pow256((n - 1) as nat),
        ;
        lemma_be_bytes_val(x / 256, (n - 1) as nat);
        lemma_be_bytes_len(x / 256, (n - 1) as nat);
        let b = be_bytes(x, n);
        assert(b.drop_last() =~= be_bytes(x / 256, (n - 1) as nat));
        assert(x / 256 * 256 + x % 256 == x) by (nonlinear_arith);
    }
}

/// 256^16 is one more than the largest `u128`.
pub proof fn lemma_pow256_16()
    ensures
        pow256(8) == 0x1_0000_0000_0000_0000,
        pow256(16) == 0x1_0000_0000_0000_0000_0000_0000_0000_0000,
{
    reveal_with_fuel(pow256, 17);
}

/// Appends the `n`-byte big-endian encoding of `x` to `out`.
fn write_be(out: &mut Vec<u8>, x: u128, n: usize)
    requires
        n <= 16,
        (x as nat) < pow256(n as nat),
    ensures
        final(out)@ == old(out)@ + be_bytes(x as nat, n as nat),
{
    let ghost full = be_bytes(x as nat, n as nat);
    proof {
        lemma_be_bytes_len(x as nat, n as nat);
    }
    let mut tmp: Vec<u8> = Vec::new();
    let mut v: u128 = x;
    let mut j: usize = 0;
    while j < n
        invariant
            j <= n,
            n <= 16,
            full == be_bytes(x as nat, n as nat),
            full.len() == n,
            be_bytes(v as nat, (n - j) as nat) =~= full.subrange(0, (n - j) as int),
            tmp@.len() == j,
            forall|k: int| 0 <= k < j ==> tmp@[k] == full[n - 1 - k],
        decreases n - j,
    {
        let b: u8 = (v % 256) as u8;
        proof {
            let m = (n - j) as nat;
            assert(be_bytes(v as nat, m) == be_bytes(v as nat / 256, (m - 1) as nat).push(
                (v as nat % 256) as u8,
            ));
            assert(be_bytes(v as nat, m).last() == (v as nat % 256) as u8);
            assert(full.subrange(0, m as int).last() == full[m as int - 1]);
            assert(be_bytes(v as nat / 256, (m - 1) as nat) =~= be_bytes(v as nat, m).drop_last());
            assert(full.subrange(0, m as int).drop_last() =~= full.subrange(0, m as int - 1));
        }
        tmp.push(b);
        v = v / 256;
        j = j + 1;
    }
    let ghost tmp0 = tmp@;
    let ghost out0 = out@;
    while tmp.len() > 0
        invariant
            tmp@.len() <= n,
            full.len() == n,
            tmp@ =~= tmp0.subrange(0, tmp@.len() as int),
            tmp0.len() == n,
            forall|k: int| 0 <= k < n ==> tmp0[k] == full[n - 1 - k],
            out@ =~= out0 + full.subrange(0, n - tmp@.len()),
        decreases tmp.len(),
    {
        let b = tmp.pop().unwrap();
        proof {
            assert(b == tmp0[tmp@.len() as int]);
            assert(b == full[n - 1 - tmp@.len()]);
            assert(out0 + full.subrange(0, n - tmp@.len()) =~= (out0 + full.subrange(
                0,
                n - tmp@.len() - 1,
            )).push(b));
        }
        out.push(b);
    }
    proof {
        assert(full.subrange(0, n as int) =~= full);
    }
}

/// Reads `n` bytes at `start` in `buf` as a big-endian integer.
fn read_be(buf: &[u8], start: usize, n: usize) -> (r: u128)
    requires
        n <= 16,
        start + n <= buf@.len(),
    ensures
        r as nat == be_val(buf@.subrange(start as int, start as int + n as int)),
{
    proof {
        lemma_pow256_16();
    }
    let blen: usize = buf.len();
    let mut acc: u128 = 0;
    let mut j: usize = 0;
    while j < n
        invariant
            j <= n,
            n <= 16,
            blen == buf@.len(),
            start + n <= buf@.len(),
            acc as nat == be_val(buf@.subrange(start as int, start as int + j as int)),
            (acc as nat) < pow256(j as nat),
            pow256(16) == 0x1_0000_0000_0000_0000_0000_0000_0000_0000,
        decreases n - j,
    {
        let b = buf[start + j];
        proof {
            let pre = buf@.subrange(start as int, start as int + j as int);
            let post = buf@.subrange(start as int, start as int + j as int + 1);
            assert(post.drop_last() =~= pre);
            assert(post.last() == b);
            assert(pow256((j + 1) as nat) == 256 * pow256(j as nat));
            assert((acc as nat) * 256 + b < 256 * pow256(j as nat)) by (nonlinear_arith)
                requires
                    (acc as nat) < pow256(j as nat),
                    b < 256,
            ;
            assert(256 * pow256(j as nat) <= pow256(16)) by {
                lemma_pow256_mono((j + 1) as nat, 16);
            }
        }
        acc = acc * 256 + (b as u128);
        j = j + 1;
    }
    acc
}

/// A byte sequence under its 8-byte big-endian length prefix.
pub open spec fn lp(b: Seq<u8>) -> Seq<u8> {
    be_bytes(b.len(), 8) + b
}

/// The wire tag of each command.
pub open spec fn cmd_tag(c: CommandV) -> u8 {
    match c {
        CommandV::Connected => 0,
        CommandV::Ping => 1,
        CommandV::Pong => 2,
        CommandV::Get { .. } => 3,
        CommandV::Put { .. } => 4,
        CommandV::Delete { .. } => 5,
        CommandV::Keys => 6,
        CommandV::Recv { .. } => 7,
    }
}

/// An optional time-to-live: a presence byte, then 8 bytes of milliseconds.
pub open spec fn ttl_bytes(t: Option<u64>) -> Seq<u8> {
    match t {
        None => seq![0u8],
        Some(ms) => seq![1u8] + be_bytes(ms as nat, 8),
    }
}

/// An optional byte payload: a presence byte, then the length-prefixed bytes.
pub open spec fn opt_bytes(d: Option<Seq<u8>>) -> Seq<u8> {
    match d {
        None => seq![0u8],
        Some(v) => seq![1u8] + lp(v),
    }
}

/// The command's fields on the wire. Strings travel as length-prefixed
/// UTF-8 bytes.
pub open spec fn cmd_payload(c: CommandV) -> Seq<u8> {
    match c {
        CommandV::Connected => Seq::empty(),
        CommandV::Ping => Seq::empty(),
        CommandV::Pong => Seq::empty(),
        CommandV::Get { key } => lp(encode_utf8(key)),
        CommandV::Put { key, value, ttl } => lp(encode_utf8(key)) + lp(value) + ttl_bytes(ttl),
        CommandV::Delete { key } => lp(encode_utf8(key)),
        CommandV::Keys => Seq::empty(),
        CommandV::Recv { data } => opt_bytes(data),
    }
}

/// One frame body: correlation id, version, command tag, command fields.
pub open spec fn body_bytes(f: FrameV) -> Seq<u8> {
    be_bytes(f.ts as nat, 16) + seq![f.version] + seq![cmd_tag(f.command)] + cmd_payload(f.command)
}

/// One whole wire message: the length-prefixed frame body.
pub open spec fn message_bytes(f: FrameV) -> Seq<u8> {
    lp(body_bytes(f))
}

/// Reads one length-prefixed chunk of `p` at offset `at`: the chunk and
/// the offset just after it, or nothing if `p` is too short.
pub open spec fn parse_lp(p: Seq<u8>, at: int) -> Option<(Seq<u8>, int)> {
    if !(0 <= at && at + 8 <= p.len()) {
        None
    } else {
        let l = be_val(p.subrange(at, at + 8)) as int;
        if at + 8 + l > p.len() {
            None
        } else {
            Some((p.subrange(at + 8, at + 8 + l), at + 8 + l))
        }
    }
}

/// Interprets a frame body's payload under a command tag. Yields nothing
/// when the tag is unknown or the payload does not fit it exactly.
pub open spec fn parse_payload(tag: u8, p: Seq<u8>) -> Option<CommandV> {
    if tag == 0 {
        if p.len() == 0 {
            Some(CommandV::Connected)
        } else {
            None
        }
    } else if tag == 1 {
        if p.len() == 0 {
            Some(CommandV::Ping)
        } else {
            None
        }
    } else if tag == 2 {
        if p.len() == 0 {
            Some(CommandV::Pong)
        } else {
            None
        }
    } else if tag == 3 {
        match parse_lp(p, 0) {
            Some((kb, end)) => if end == p.len() && valid_utf8(kb) {
                Some(CommandV::Get { key: decode_utf8(kb) })
            } else {
                None
            },
            None => None,
        }
    } else if tag == 4 {
        match parse_lp(p, 0) {
            Some((kb, o1)) => match parse_lp(p, o1) {
                Some((vb, o2)) => if !valid_utf8(kb) {
                    None
                } else if o2 + 1 == p.len() && p[o2] == 0 {
                    Some(CommandV::Put { key: decode_utf8(kb), value: vb, ttl: None })
                } else if o2 + 9 == p.len() && p[o2] == 1 {
                    Some(
                        CommandV::Put {
                            key: decode_utf8(kb),
                            value: vb,
                            ttl: Some(be_val(p.subrange(o2 + 1, o2 + 9)) as u64),
                        },
                    )
                } else {
                    None
                },
                None => None,
            },
            None => None,
        }
    } else if tag == 5 {
        match parse_lp(p, 0) {
            Some((kb, end)) => if end == p.len() && valid_utf8(kb) {
                Some(CommandV::Delete { key: decode_utf8(kb) })
            } else {
                None
            },
            None => None,
        }
    } else if tag == 6 {
        if p.len() == 0 {
            Some(CommandV::Keys)
        } else {
            None
        }
    } else if tag == 7 {
        if p.len() < 1 {
            None
        } else if p[0] == 0 {
            if p.len() == 1 {
                Some(CommandV::Recv { data: None })
            } else {
                None
            }
        } else if p[0] == 1 {
            match parse_lp(p, 1) {
                Some((vb, end)) => if end == p.len() {
                    Some(CommandV::Recv { data: Some(vb) })
                } else {
                    None
                },
                None => None,
            }
        } else {
            None
        }
    } else {
        None
    }
}

/// Interprets one frame body: all-or-nothing, checking the version tag
/// before the command.
pub open spec fn parse_body(b: Seq<u8>) -> Result<FrameV, CodecError> {
    if b.len() < 18 {
        Err(CodecError::Malformed)
    } else if b[16] != VERSION {
        Err(CodecError::UnsupportedVersion)
    } else {
        match parse_payload(b[17], b.subrange(18, b.len() as int)) {
            Some(c) => Ok(
                FrameV { ts: be_val(b.subrange(0, 16)) as u128, version: b[16], command: c },
            ),
            None => Err(CodecError::Malformed),
        }
    }
}

/// Interprets the first wire message of `s`: the frame and how many bytes
/// it occupied. `ConnectionClosed` when `s` holds less than one whole
/// message.
pub open spec fn parse_message(s: Seq<u8>) -> Result<(FrameV, int), CodecError> {
    if s.len() < 8 {
        Err(CodecError::ConnectionClosed)
    } else {
        let l = be_val(s.subrange(0, 8)) as int;
        if s.len() < 8 + l {
            Err(CodecError::ConnectionClosed)
        } else {
            match parse_body(s.subrange(8, 8 + l)) {
                Ok(f) => Ok((f, 8 + l)),
                Err(e) => Err(e),
            }
        }
    }
}

/// Appends `b` under its length prefix.
pub(crate) fn write_lp(out: &mut Vec<u8>, b: &Vec<u8>)
    ensures
        final(out)@ == old(out)@ + lp(b@),
{
    let l: usize = b.len();
    proof {
        lemma_pow256_16();
        assert((l as nat) < pow256(8));
    }
    let ghost out0 = out@;
    write_be(out, l as u128, 8);
    let mut tmp = slice_to_vec(b.as_slice());
    out.append(&mut tmp);
    proof {
        assert(final(out)@ =~= out0 + lp(b@));
    }
}

/// Serializes one frame into the bytes that carry it on the wire: the
/// 8-byte big-endian body length, then the body.
pub fn encode(f: &FrameMessage) -> (r: Vec<u8>)
    ensures
        r@ == message_bytes(f@),
        frame_fits(f@),
{
    proof {
        lemma_pow256_16();
    }
    let mut body: Vec<u8> = Vec::new();
    write_be(&mut body, f.ts, 16);
    body.push(f.version);
    let ghost head = be_bytes(f@.ts as nat, 16) + seq![f@.version];
    proof {
        assert(body@ =~= head);
    }
    match &f.command {
        CommandMessage::CONNECTED() => {
            body.push(0);
        },
        CommandMessage::PING() => {
            body.push(1);
        },
        CommandMessage::PONG() => {
            body.push(2);
        },
        CommandMessage::GET(key) => {
            body.push(3);
            let kb = key.as_str().as_bytes_vec();
            let kl = kb.len();
            proof {
                assert((kl as nat) < pow256(8));
            }
            write_lp(&mut body, &kb);
        },
        CommandMessage::PUT(key, value, ttl) => {
            body.push(4);
            let kb = key.as_str().as_bytes_vec();
            let kl = kb.len();
            let vl = value.len();
            proof {
                assert((kl as nat) < pow256(8));
                assert((vl as nat) < pow256(8));
            }
            write_lp(&mut body, &kb);
            write_lp(&mut body, value);
            match ttl {
                None => {
                    body.push(0);
                },
                Some(ms) => {
                    body.push(1);
                    write_be(&mut body, *ms as u128, 8);
                },
            }
        },
        CommandMessage::DELETE(key) => {
            body.push(5);
            let kb = key.as_str().as_bytes_vec();
            let kl = kb.len();
            proof {
                assert((kl as nat) < pow256(8));
            }
            write_lp(&mut body, &kb);
        },
        CommandMessage::KEYS() => {
            body.push(6);
        },
        CommandMessage::RECV(data) => {
            body.push(7);
            match data {
                None => {
                    body.push(0);
                },
                Some(v) => {
                    body.push(1);
                    let vl = v.len();
                    proof {
                        assert((vl as nat) < pow256(8));
                    }
                    write_lp(&mut body, v);
                },
            }
        },
    }
    proof {
        assert(body@ =~= body_bytes(f@));
        assert(cmd_fits(f@.command));
    }
    let mut out: Vec<u8> = Vec::new();
    let bl = body.len();
    proof {
        assert((bl as nat) < pow256(8));
        assert(frame_fits(f@));
    }
    write_be(&mut out, bl as u128, 8);
    out.append(&mut body);
    proof {
        assert(out@ =~= message_bytes(f@));
    }
    out
}

/// Relies on `String::from_utf8` of std: it succeeds exactly on valid
/// UTF-8 input and yields the string those bytes spell.
#[verifier::external_body]
pub(crate) fn bytes_to_string(v: Vec<u8>) -> (r: Option<String>)
    ensures
        r is Some <==> valid_utf8(v@),
        r is Some ==> r.unwrap()@ == decode_utf8(v@),
{
    match String::from_utf8(v) {
        Ok(s) => Some(s),
        Err(_) => None,
    }
}

/// Reads one length-prefixed chunk at relative offset `at` of the region
/// `[rstart, rend)` of `buf`, mirroring `parse_lp` on that region.
pub(crate) fn read_lp(buf: &Vec<u8>, rstart: usize, rend: usize, at: usize) -> (r: Option<(Vec<u8>, usize)>)
    requires
        rstart <= rend <= buf@.len(),
        at <= rend - rstart,
    ensures
        ({
            let p = buf@.subrange(rstart as int, rend as int);
            match r {
                Some(pair) => parse_lp(p, at as int) == Some((pair.0@, pair.1 as int)) && at
                    < pair.1 <= p.len(),
                None => parse_lp(p, at as int) is None,
            }
        }),
{
    let ghost p = buf@.subrange(rstart as int, rend as int);
    let avail = rend - rstart;
    if avail - at < 8 {
        return None;
    }
    let l128 = read_be(buf.as_slice(), rstart + at, 8);
    proof {
        assert(p.subrange(at as int, at as int + 8) =~= buf@.subrange(
            rstart as int + at as int,
            rstart as int + at as int + 8,
        ));
        lemma_be_val_bound(p.subrange(at as int, at as int + 8));
        lemma_pow256_16();
    }
    if l128 > (avail - at - 8) as u128 {
        return None;
    }
    let l = l128 as usize;
    let chunk = slice_to_vec(slice_subrange(buf.as_slice(), rstart + at + 8, rstart + at + 8 + l));
    proof {
        assert(p.subrange(at as int + 8, at as int + 8 + l as int) =~= buf@.subrange(
            rstart as int + at as int + 8,
            rstart as int + at as int + 8 + l as int,
        ));
    }
    Some((chunk, at + 8 + l))
}

/// Deserializes the frame body in the region `[bstart, bstart + blen)` of
/// `buf`, mirroring `parse_body` on it.
fn decode_body(buf: &Vec<u8>, bstart: usize, blen: usize) -> (r: Result<FrameMessage, CodecError>)
    requires
        bstart + blen <= buf@.len(),
    ensures
        ({
            let b = buf@.subrange(bstart as int, bstart as int + blen as int);
            match r {
                Ok(fm) => parse_body(b) == Ok::<FrameV, CodecError>(fm@),
                Err(e) => parse_body(b) == Err::<FrameV, CodecError>(e),
            }
        }),
{
    let ghost b = buf@.subrange(bstart as int, bstart as int + blen as int);
    let bufn: usize = buf.len();
    if blen < 18 {
        return Err(CodecError::Malformed);
    }
    let ts = read_be(buf.as_slice(), bstart, 16);
    proof {
        assert(b.subrange(0, 16) =~= buf@.subrange(bstart as int, bstart as int + 16));
        lemma_be_val_bound(b.subrange(0, 16));
        lemma_pow256_16();
    }
    let version = buf[bstart + 16];
    proof {
        assert(b[16] == version);
    }
    if version != VERSION {
        return Err(CodecError::UnsupportedVersion);
    }
    let tag = buf[bstart + 17];
    let pstart = bstart + 18;
    let pend = bstart + blen;
    let plen = blen - 18;
    let ghost p = buf@.subrange(pstart as int, pend as int);
    proof {
        assert(b[17] == tag);
        assert(p =~= b.subrange(18, blen as int));
    }
    if tag == 0 || tag == 1 || tag == 2 || tag == 6 {
        if plen != 0 {
            return Err(CodecError::Malformed);
        }
        let cmd = if tag == 0 {
            CommandMessage::CONNECTED()
        } else if tag == 1 {
            CommandMessage::PING()
        } else if tag == 2 {
            CommandMessage::PONG()
        } else {
            CommandMessage::KEYS()
        };
        Ok(FrameMessage::new(ts, cmd))
    } else if tag == 3 || tag == 5 {
        match read_lp(buf, pstart, pend, 0) {
            Some((kb, next)) => {
                if next != plen {
                    return Err(CodecError::Malformed);
                }
                match bytes_to_string(kb) {
                    Some(key) => {
                        if tag == 3 {
                            Ok(FrameMessage::new(ts, CommandMessage::GET(key)))
                        } else {
                            Ok(FrameMessage::new(ts, CommandMessage::DELETE(key)))
                        }
                    },
                    None => Err(CodecError::Malformed),
                }
            },
            None => Err(CodecError::Malformed),
        }
    } else if tag == 4 {
        match read_lp(buf, pstart, pend, 0) {
            Some((kb, o1)) => {
                match read_lp(buf, pstart, pend, o1) {
                    Some((vb, o2)) => {
                        proof {
                            if o2 < plen {
                                assert(p[o2 as int] == buf@[pstart as int + o2 as int]);
                            }
                        }
                        let ttl: Option<u64> = if o2 + 1 == plen && buf[pstart + o2] == 0 {
                            None
                        } else if o2 + 9 == plen && buf[pstart + o2] == 1 {
                            proof {
                                assert(p.subrange(o2 as int + 1, o2 as int + 9) =~= buf@.subrange(
                                    pstart as int + o2 as int + 1,
                                    pstart as int + o2 as int + 9,
                                ));
                                lemma_be_val_bound(p.subrange(o2 as int + 1, o2 as int + 9));
                                lemma_pow256_16();
                            }
                            let ms = read_be(buf.as_slice(), pstart + o2 + 1, 8);
                            Some(ms as u64)
                        } else {
                            return Err(CodecError::Malformed);
                        };
                        match bytes_to_string(kb) {
                            Some(key) => Ok(
                                FrameMessage::new(ts, CommandMessage::PUT(key, vb, ttl)),
                            ),
                            None => Err(CodecError::Malformed),
                        }
                    },
                    None => Err(CodecError::Malformed),
                }
            },
            None => Err(CodecError::Malformed),
        }
    } else if tag == 7 {
        if plen == 0 {
            return Err(CodecError::Malformed);
        }
        let flag = buf[pstart];
        proof {
            assert(p[0] == flag);
        }
        if flag == 0 {
            if plen == 1 {
                Ok(FrameMessage::new(ts, CommandMessage::RECV(None)))
            } else {
                Err(CodecError::Malformed)
            }
        } else if flag == 1 {
            match read_lp(buf, pstart, pend, 1) {
                Some((vb, end)) => {
                    if end == plen {
                        proof {
                            assert(vb.deep_view() =~= vb@);
                        }
                        Ok(FrameMessage::new(ts, CommandMessage::RECV(Some(vb))))
                    } else {
                        Err(CodecError::Malformed)
                    }
                },
                None => Err(CodecError::Malformed),
            }
        } else {
            Err(CodecError::Malformed)
        }
    } else {
        Err(CodecError::Malformed)
    }
}

/// Deserializes the first wire message found at offset `start` of `buf`:
/// the frame and the count of bytes it occupied, or the reason the bytes
/// do not hold one. All-or-nothing: a partial message yields
/// `ConnectionClosed` and nothing is consumed.
pub fn decode(buf: &Vec<u8>, start: usize) -> (r: Result<(FrameMessage, usize), CodecError>)
    requires
        start <= buf@.len(),
    ensures
        ({
            let s = buf@.subrange(start as int, buf@.len() as int);
            match r {
                Ok(pair) => parse_message(s) == Ok::<(FrameV, int), CodecError>(
                    (pair.0@, pair.1 as int),
                ) && 8 <= pair.1 && start + pair.1 <= buf@.len(),
                Err(e) => parse_message(s) == Err::<(FrameV, int), CodecError>(e),
            }
        }),
{
    let ghost s = buf@.subrange(start as int, buf@.len() as int);
    let avail = buf.len() - start;
    if avail < 8 {
        return Err(CodecError::ConnectionClosed);
    }
    let l128 = read_be(buf.as_slice(), start, 8);
    proof {
        assert(s.subrange(0, 8) =~= buf@.subrange(start as int, start as int + 8));
        lemma_be_val_bound(s.subrange(0, 8));
        lemma_pow256_16();
    }
    if l128 > (avail - 8) as u128 {
        return Err(CodecError::ConnectionClosed);
    }
    let l = l128 as usize;
    proof {
        assert(s.subrange(8, 8 + l as int) =~= buf@.subrange(
            start as int + 8,
            start as int + 8 + l as int,
        ));
    }
    match decode_body(buf, start + 8, l) {
        Ok(fm) => Ok((fm, 8 + l)),
        Err(e) => Err(e),
    }
}

/// Whether each variable-length piece of `c` fits under an 8-byte length
/// prefix. Every command built from in-memory strings and byte vectors fits.
pub open spec fn cmd_fits(c: CommandV) -> bool {
    match c {
        CommandV::Get { key } => encode_utf8(key).len() < pow256(8),
        CommandV::Put { key, value, ttl } => encode_utf8(key).len() < pow256(8) && value.len()
            < pow256(8),
        CommandV::Delete { key } => encode_utf8(key).len() < pow256(8),
        CommandV::Recv { data } => data is Some ==> data.unwrap().len() < pow256(8),
        _ => true,
    }
}

/// Whether `f` and each of its pieces fit under their 8-byte length
/// prefixes. Every frame built from in-memory strings and byte vectors fits.
pub open spec fn frame_fits(f: FrameV) -> bool {
    body_bytes(f).len() < pow256(8) && cmd_fits(f.command)
}

/// A length-prefixed chunk standing at `at` parses back to exactly that
/// chunk, whatever follows it.
pub(crate) proof fn lemma_parse_lp_exact(p: Seq<u8>, at: int, chunk: Seq<u8>, tail: Seq<u8>)
    requires
        0 <= at <= p.len(),
        p.subrange(at, p.len() as int) == lp(chunk) + tail,
        chunk.len() < pow256(8),
    ensures
        parse_lp(p, at) == Some((chunk, at + 8 + chunk.len())),
{
    let rest = p.subrange(at, p.len() as int);
    lemma_be_bytes_len(chunk.len(), 8);
    assert(rest.len() == 8 + chunk.len() + tail.len());
    assert(p.subrange(at, at + 8) =~= rest.subrange(0, 8));
    assert(rest.subrange(0, 8) =~= be_bytes(chunk.len(), 8));
    lemma_be_bytes_val(chunk.len(), 8);
    let l = chunk.len() as int;
    assert(p.subrange(at + 8, at + 8 + l) =~= rest.subrange(8, 8 + l));
    assert(rest.subrange(8, 8 + l) =~= chunk);
}

/// A command's payload, under the command's own tag, parses back to
/// exactly that command.
#[verifier::rlimit(40)]
proof fn lemma_payload_round_trip(c: CommandV)
    requires
        cmd_fits(c),
    ensures
        parse_payload(cmd_tag(c), cmd_payload(c)) == Some(c),
{
    lemma_pow256_16();
    let payload = cmd_payload(c);
    match c {
        CommandV::Connected => {
            assert(payload.len() == 0);
        },
        CommandV::Ping => {
            assert(payload.len() == 0);
        },
        CommandV::Pong => {
            assert(payload.len() == 0);
        },
        CommandV::Keys => {
            assert(payload.len() == 0);
        },
        CommandV::Get { key } => {
            let kb = encode_utf8(key);
            encode_utf8_valid_utf8(key);
            encode_utf8_decode_utf8(key);
            lemma_be_bytes_len(kb.len(), 8);
            assert(payload.subrange(0, payload.len() as int) =~= lp(kb) + Seq::<u8>::empty());
            lemma_parse_lp_exact(payload, 0, kb, Seq::empty());
            assert(parse_payload(3, payload) == Some(CommandV::Get { key }));
        },
        CommandV::Delete { key } => {
            let kb = encode_utf8(key);
            encode_utf8_valid_utf8(key);
            encode_utf8_decode_utf8(key);
            lemma_be_bytes_len(kb.len(), 8);
            assert(payload.subrange(0, payload.len() as int) =~= lp(kb) + Seq::<u8>::empty());
            lemma_parse_lp_exact(payload, 0, kb, Seq::empty());
            assert(parse_payload(5, payload) == Some(CommandV::Delete { key }));
        },
        CommandV::Put { key, value, ttl } => {
            let kb = encode_utf8(key);
            encode_utf8_valid_utf8(key);
            encode_utf8_decode_utf8(key);
            let tb = ttl_bytes(ttl);
            lemma_be_bytes_len(kb.len(), 8);
            lemma_be_bytes_len(value.len(), 8);
            assert(payload.subrange(0, payload.len() as int) =~= lp(kb) + (lp(value) + tb));
            lemma_parse_lp_exact(payload, 0, kb, lp(value) + tb);
            let o1 = 8 + kb.len() as int;
            assert(payload.subrange(o1, payload.len() as int) =~= lp(value) + tb);
            lemma_parse_lp_exact(payload, o1, value, tb);
            let o2 = o1 + 8 + value.len() as int;
            match ttl {
                None => {
                    assert(payload[o2] == 0);
                    assert(o2 + 1 == payload.len());
                },
                Some(ms) => {
                    lemma_be_bytes_len(ms as nat, 8);
                    assert(payload[o2] == 1);
                    assert(o2 + 9 == payload.len());
                    assert(payload.subrange(o2 + 1, o2 + 9) =~= be_bytes(ms as nat, 8));
                    lemma_be_bytes_val(ms as nat, 8);
                },
            }
            assert(parse_payload(4, payload) == Some(CommandV::Put { key, value, ttl }));
        },
        CommandV::Recv { data } => {
            match data {
                None => {
                    assert(payload.len() == 1 && payload[0] == 0);
                },
                Some(v) => {
                    lemma_be_bytes_len(v.len(), 8);
                    assert(payload[0] == 1);
                    assert(payload.subrange(1, payload.len() as int) =~= lp(v)
                        + Seq::<u8>::empty());
                    lemma_parse_lp_exact(payload, 1, v, Seq::empty());
                    assert(parse_lp(payload, 1) == Some((v, payload.len() as int)));
                    assert(parse_payload(7, payload) == Some(CommandV::Recv { data }));
                },
            }
        },
    }
}

/// Round trip of the wire format: the encoding of a well-formed frame,
/// however the stream continues after it, parses back to exactly that
/// frame, consuming exactly the encoding.
pub proof fn lemma_message_round_trip(f: FrameV, rest: Seq<u8>)
    requires
        f.version == VERSION,
        frame_fits(f),
    ensures
        parse_message(message_bytes(f) + rest) == Ok::<(FrameV, int), CodecError>(
            (f, message_bytes(f).len() as int),
        ),
{
    lemma_pow256_16();
    let body = body_bytes(f);
    let m = message_bytes(f);
    let s = m + rest;
    lemma_be_bytes_len(body.len(), 8);
    lemma_be_bytes_len(f.ts as nat, 16);
    assert(s.subrange(0, 8) =~= be_bytes(body.len(), 8));
    lemma_be_bytes_val(body.len(), 8);
    let l = body.len() as int;
    assert(s.len() >= 8 + l);
    assert(s.subrange(8, 8 + l) =~= body);
    // the body parses back to f
    assert(body.subrange(0, 16) =~= be_bytes(f.ts as nat, 16));
    lemma_be_bytes_val(f.ts as nat, 16);
    assert(body[16] == f.version);
    assert(body[17] == cmd_tag(f.command));
    let payload = cmd_payload(f.command);
    assert(body.len() == 18 + payload.len());
    assert(body.subrange(18, body.len() as int) =~= payload);
    lemma_payload_round_trip(f.command);
    assert(parse_body(body) == Ok::<FrameV, CodecError>(f));
}

/// A message that parses from a stream parses the same from exactly the
/// bytes it occupied: the framing reads nothing past the message.
pub proof fn lemma_parse_message_restrict(s: Seq<u8>, f: FrameV, n: int)
    requires
        parse_message(s) == Ok::<(FrameV, int), CodecError>((f, n)),
    ensures
        parse_message(s.subrange(0, n)) == Ok::<(FrameV, int), CodecError>((f, n)),
{
    let t = s.subrange(0, n);
    assert(t.subrange(0, 8) =~= s.subrange(0, 8));
    let l = be_val(s.subrange(0, 8)) as int;
    assert(t.subrange(8, 8 + l) =~= s.subrange(8, 8 + l));
}

/// A message that parses from a stream still parses, to the same frame
/// and length, after more bytes arrive: framing consumes nothing beyond
/// the message itself.
pub proof fn lemma_parse_message_prefix(s: Seq<u8>, ext: Seq<u8>, f: FrameV, n: int)
    requires
        parse_message(s) == Ok::<(FrameV, int), CodecError>((f, n)),
    ensures
        parse_message(s + ext) == Ok::<(FrameV, int), CodecError>((f, n)),
{
    let t = s + ext;
    assert(t.subrange(0, 8) =~= s.subrange(0, 8));
    let l = be_val(s.subrange(0, 8)) as int;
    assert(t.subrange(8, 8 + l) =~= s.subrange(8, 8 + l));
}

proof fn lemma_pow256_mono(a: nat, b: nat)
    requires
        a <= b,
    ensures
        pow256(a) <= pow256(b),
    decreases b,
{
    if a < b {
        lemma_pow256_mono(a, (b - 1) as nat);
        assert(pow256(b) == 256 * pow256((b - 1) as nat));
        assert(pow256((b - 1) as nat) <= 256 * pow256((b - 1) as nat)) by (nonlinear_arith)
            requires
                pow256((b - 1) as nat) >= 0,
        ;
    }
}

} // verus!
