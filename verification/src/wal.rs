//! The write-ahead log: an ordered queue of mutating commands and the
//! bytes of the append-only record stream they become. Enqueueing is
//! fire-and-forget; a single drain path turns queued commands into
//! length-prefixed records, one per call, in FIFO order. Replaying a
//! record stream applies each Put and Delete, in file order, to a store.

use vstd::prelude::*;

use crate::codec::encode;
use crate::codec::decode;
use crate::codec::body_bytes;
use crate::codec::frame_fits;
use crate::codec::lemma_be_bytes_len;
use crate::codec::message_bytes;
use crate::codec::parse_message;
use crate::codec::lemma_message_round_trip;
use crate::codec::lemma_parse_message_prefix;
use crate::codec::lemma_parse_message_restrict;
use crate::codec::CodecError;
use crate::proto::CommandMessage;
use crate::proto::CommandV;
use crate::proto::FrameMessage;
use crate::proto::FrameV;
use crate::proto::VERSION;
use crate::storage::EntryV;
use crate::storage::Storage;
use crate::storage::expiry_of;

verus! {

/// Why a replay failed: bytes that do not hold a whole record, or a
/// record carrying a command that a well-formed log never holds. Either
/// is fatal at startup: the store's state would be of unknown integrity.
#[derive(Clone, Copy, Debug, PartialEq, Eq, Structural)]
pub enum ReplayError {
    Frame(CodecError),
    ForeignRecord,
}

/// Whether a command may enter the log: only mutations are logged.
pub open spec fn loggable(c: CommandV) -> bool {
    c is Put || c is Delete
}

/// The mapping after one logged command is applied at time `now`: a Put
/// stores its value (a time-to-live counts from `now`), a Delete removes
/// its key, anything else changes nothing.
pub open spec fn apply_command(
    m: Map<Seq<char>, EntryV>,
    c: CommandV,
    now: u64,
) -> Map<Seq<char>, EntryV> {
    match c {
        CommandV::Put { key, value, ttl } => m.insert(
            key,
            EntryV {
                value,
                expires_at: match ttl {
                    None => None,
                    Some(d) => Some(expiry_of(now, d)),
                },
            },
        ),
        CommandV::Delete { key } => m.remove(key),
        _ => m,
    }
}

/// The outcome of replaying a record stream `s` against the mapping `m`
/// at time `now`: the final mapping and the count of applied records, or
/// the first failure. Records apply strictly in stream order.
pub open spec fn replay_spec(m: Map<Seq<char>, EntryV>, s: Seq<u8>, now: u64) -> Result<
    (Map<Seq<char>, EntryV>, nat),
    ReplayError,
>
    decreases s.len(),
{
    if s.len() == 0 {
        Ok((m, 0))
    } else {
        match parse_message(s) {
            Err(e) => Err(ReplayError::Frame(e)),
            Ok((f, n)) => if !loggable(f.command) {
                Err(ReplayError::ForeignRecord)
            } else {
                match replay_spec(
                    apply_command(m, f.command, now),
                    s.subrange(n, s.len() as int),
                    now,
                ) {
                    Ok((m2, c)) => Ok((m2, (c + 1) as nat)),
                    Err(e) => Err(e),
                }
            },
        }
    }
}

/// `r` with `c` more applied records counted.
pub open spec fn bump_count(
    r: Result<(Map<Seq<char>, EntryV>, nat), ReplayError>,
    c: nat,
) -> Result<(Map<Seq<char>, EntryV>, nat), ReplayError> {
    match r {
        Ok((m, c2)) => Ok((m, (c + c2) as nat)),
        Err(e) => Err(e),
    }
}

/// Unfolds one step of `replay_spec` over a stream whose first record
/// parses as a loggable command.
proof fn lemma_replay_step(m: Map<Seq<char>, EntryV>, s: Seq<u8>, f: FrameV, n: int, now: u64)
    requires
        s.len() > 0,
        parse_message(s) == Ok::<(FrameV, int), CodecError>((f, n)),
        loggable(f.command),
    ensures
        replay_spec(m, s, now) == bump_count(
            replay_spec(apply_command(m, f.command, now), s.subrange(n, s.len() as int), now),
            1,
        ),
{
}

/// A stream whose first record does not parse does not replay.
proof fn lemma_replay_step_err(m: Map<Seq<char>, EntryV>, s: Seq<u8>, e: CodecError, now: u64)
    requires
        s.len() > 0,
        parse_message(s) == Err::<(FrameV, int), CodecError>(e),
    ensures
        replay_spec(m, s, now) == Err::<(Map<Seq<char>, EntryV>, nat), ReplayError>(
            ReplayError::Frame(e),
        ),
{
}

/// A stream whose first record carries a command the log never holds
/// does not replay.
proof fn lemma_replay_step_foreign(m: Map<Seq<char>, EntryV>, s: Seq<u8>, f: FrameV, n: int, now: u64)
    requires
        s.len() > 0,
        parse_message(s) == Ok::<(FrameV, int), CodecError>((f, n)),
        !loggable(f.command),
    ensures
        replay_spec(m, s, now) == Err::<(Map<Seq<char>, EntryV>, nat), ReplayError>(
            ReplayError::ForeignRecord,
        ),
{
}

/// One record's own bytes, cut out of the stream they head, replay to
/// exactly that one command applied.
proof fn lemma_replay_chunk(
    m: Map<Seq<char>, EntryV>,
    log: Seq<u8>,
    pos: int,
    consumed: int,
    f: FrameV,
    now: u64,
)
    requires
        0 <= pos,
        8 <= consumed,
        pos + consumed <= log.len(),
        parse_message(log.subrange(pos, log.len() as int)) == Ok::<(FrameV, int), CodecError>(
            (f, consumed),
        ),
        loggable(f.command),
    ensures
        replay_spec(m, log.subrange(pos, pos + consumed), now) == Ok::<
            (Map<Seq<char>, EntryV>, nat),
            ReplayError,
        >((apply_command(m, f.command, now), 1)),
{
    let rest = log.subrange(pos, log.len() as int);
    lemma_parse_message_restrict(rest, f, consumed);
    let chunk = log.subrange(pos, pos + consumed);
    assert(chunk =~= rest.subrange(0, consumed));
    lemma_replay_step(m, chunk, f, consumed, now);
    assert(chunk.subrange(consumed, chunk.len() as int) =~= Seq::<u8>::empty());
    let applied = apply_command(m, f.command, now);
    assert(replay_spec(applied, chunk.subrange(consumed, chunk.len() as int), now) == Ok::<
        (Map<Seq<char>, EntryV>, nat),
        ReplayError,
    >((applied, 0)));
}

/// Counting twice counts the sum.
proof fn lemma_bump_bump(r: Result<(Map<Seq<char>, EntryV>, nat), ReplayError>, a: nat, b: nat)
    ensures
        bump_count(bump_count(r, a), b) == bump_count(r, (a + b) as nat),
{
}

/// The write-ahead log: the commands enqueued and not yet drained, in
/// arrival order, and the bytes of every record drained so far, in the
/// order they were appended. The caller keeps `log` durable by writing
/// each chunk that `write` hands back.
pub struct WriteAheadLog {
    pub pending: Vec<FrameMessage>,
    pub log: Vec<u8>,
}

impl WriteAheadLog {
    /// A log with nothing queued and nothing stored.
    pub fn new() -> (r: WriteAheadLog)
        ensures
            r.pending.deep_view() == Seq::<FrameV>::empty(),
            r.log@ == Seq::<u8>::empty(),
    {
        let r = WriteAheadLog { pending: Vec::new(), log: Vec::new() };
        proof {
            assert(r.pending.deep_view() =~= Seq::<FrameV>::empty());
        }
        r
    }

    /// A log whose stored records were read back from a durable medium,
    /// with nothing queued.
    pub fn with_log(bytes: Vec<u8>) -> (r: WriteAheadLog)
        ensures
            r.pending.deep_view() == Seq::<FrameV>::empty(),
            r.log@ == bytes@,
    {
        let r = WriteAheadLog { pending: Vec::new(), log: bytes };
        proof {
            assert(r.pending.deep_view() =~= Seq::<FrameV>::empty());
        }
        r
    }

    /// Enqueues one mutating command. Fire-and-forget: the record reaches
    /// the log bytes only when a later `write` call drains it.
    pub fn append(&mut self, msg: FrameMessage)
        requires
            loggable(msg@.command),
        ensures
            final(self).pending.deep_view() == old(self).pending.deep_view().push(msg@),
            final(self).log == old(self).log,
    {
        let ghost dv0 = self.pending.deep_view();
        self.pending.push(msg);
        proof {
            assert(self.pending.deep_view() =~= dv0.push(self.pending@.last()@));
        }
    }

    /// Drains one queued command: serializes the oldest one, appends its
    /// record to the log bytes, and hands the same record back for the
    /// caller to write durably. Yields nothing when the queue is empty.
    pub fn write(&mut self) -> (r: Option<Vec<u8>>)
        ensures
            match r {
                None => old(self).pending@.len() == 0 && *final(self) == *old(self),
                Some(rec) => {
                    &&& old(self).pending@.len() > 0
                    &&& rec@ == message_bytes(old(self).pending.deep_view()[0])
                    &&& final(self).log@ == old(self).log@ + rec@
                    &&& final(self).pending.deep_view() == old(self).pending.deep_view().subrange(
                        1,
                        old(self).pending.deep_view().len() as int,
                    )
                },
            },
    {
        if self.pending.len() == 0 {
            return None;
        }
        let msg = self.pending.remove(0);
        let rec = encode(&msg);
        let mut chunk = rec.clone();
        proof {
            assert(chunk@ =~= rec@);
        }
        self.log.append(&mut chunk);
        proof {
            assert(final(self).pending.deep_view() =~= old(self).pending.deep_view().subrange(
                1,
                old(self).pending.deep_view().len() as int,
            ));
            assert(old(self).pending.deep_view()[0] == msg@);
        }
        Some(rec)
    }

    /// Truncates the log bytes to nothing. Only sound after a snapshot
    /// has durably captured the state the records rebuilt: first
    /// snapshot, then clear, never the reverse.
    pub fn clear(&mut self)
        ensures
            final(self).log@ == Seq::<u8>::empty(),
            final(self).pending == old(self).pending,
    {
        self.log.clear();
    }

    /// The record at byte offset `pos` of the log, with the offset just
    /// after it. At the end of the log, and only there, there is nothing
    /// to read and nothing fails: after a `clear`, the next read at
    /// offset zero yields `Ok(None)`.
    pub fn read_log_entry(&self, pos: usize) -> (r: Result<
        Option<(FrameMessage, usize)>,
        CodecError,
    >)
        requires
            pos <= self.log@.len(),
        ensures
            match r {
                Ok(opt) => match opt {
                    None => pos == self.log@.len(),
                    Some(pair) => pos < self.log@.len() && parse_message(
                        self.log@.subrange(pos as int, self.log@.len() as int),
                    ) == Ok::<(FrameV, int), CodecError>((pair.0@, pair.1 as int)) && pos + pair.1
                        <= self.log@.len(),
                },
                Err(e) => pos < self.log@.len() && parse_message(
                    self.log@.subrange(pos as int, self.log@.len() as int),
                ) == Err::<(FrameV, int), CodecError>(e),
            },
    {
        if pos == self.log.len() {
            return Ok(None);
        }
        match decode(&self.log, pos) {
            Ok((f, n)) => Ok(Some((f, n))),
            Err(e) => Err(e),
        }
    }

    /// Applies the record at byte offset `pos` of `log` to `cc` and
    /// yields the offset just after it, or the reason the record cannot
    /// be applied, leaving `cc` untouched.
    #[verifier::rlimit(100)]
    fn replay_record(cc: &mut Storage, log: &Vec<u8>, pos: usize, now_ms: u64) -> (r: Result<
        usize,
        ReplayError,
    >)
        requires
            old(cc).wf(),
            pos < log@.len(),
        ensures
            final(cc).wf(),
            ({
                let rest = log@.subrange(pos as int, log@.len() as int);
                match r {
                    Ok(next) => pos + 8 <= next <= log@.len() && replay_spec(
                        old(cc)@,
                        rest,
                        now_ms,
                    ) == bump_count(
                        replay_spec(
                            final(cc)@,
                            log@.subrange(next as int, log@.len() as int),
                            now_ms,
                        ),
                        1,
                    ) && replay_spec(
                        old(cc)@,
                        log@.subrange(pos as int, next as int),
                        now_ms,
                    ) == Ok::<(Map<Seq<char>, EntryV>, nat), ReplayError>((final(cc)@, 1)),
                    Err(e) => final(cc)@ == old(cc)@ && replay_spec(old(cc)@, rest, now_ms)
                        == Err::<(Map<Seq<char>, EntryV>, nat), ReplayError>(e),
                }
            }),
    {
        let ghost rest = log@.subrange(pos as int, log@.len() as int);
        let ghost mcur = cc@;
        let ln: usize = log.len();
        match decode(log, pos) {
            Err(e) => {
                proof {
                    lemma_replay_step_err(mcur, rest, e, now_ms);
                }
                Err(ReplayError::Frame(e))
            },
            Ok((f, consumed)) => {
                let ghost fv = f@;
                match f.command {
                    CommandMessage::PUT(key, value, ttl) => {
                        match ttl {
                            None => {
                                cc.write(&key, value);
                            },
                            Some(d) => {
                                cc.write_ex(&key, value, d, now_ms);
                            },
                        }
                    },
                    CommandMessage::DELETE(key) => {
                        cc.delete(&key);
                    },
                    _ => {
                        proof {
                            assert(!loggable(fv.command));
                            lemma_replay_step_foreign(mcur, rest, fv, consumed as int, now_ms);
                        }
                        return Err(ReplayError::ForeignRecord);
                    },
                }
                proof {
                    assert(cc@ == apply_command(mcur, fv.command, now_ms));
                    assert(rest.subrange(consumed as int, rest.len() as int) =~= log@.subrange(
                        pos as int + consumed as int,
                        log@.len() as int,
                    ));
                    lemma_replay_step(mcur, rest, fv, consumed as int, now_ms);
                    assert(pos + consumed <= ln);
                    lemma_replay_chunk(mcur, log@, pos as int, consumed as int, fv, now_ms);
                }
                Ok(pos + consumed)
            },
        }
    }

    /// Replays every record of the log, in order, against `cc` at time
    /// `now_ms`, and counts the applied records. A failure is fatal to
    /// startup; `cc` then holds exactly the records before the failure,
    /// applied in order, and none after.
    #[verifier::rlimit(100)]
    pub fn replay(&self, cc: &mut Storage, now_ms: u64) -> (r: Result<u64, ReplayError>)
        requires
            old(cc).wf(),
        ensures
            final(cc).wf(),
            match r {
                Ok(count) => replay_spec(old(cc)@, self.log@, now_ms) == Ok::<
                    (Map<Seq<char>, EntryV>, nat),
                    ReplayError,
                >((final(cc)@, count as nat)),
                Err(e) => replay_spec(old(cc)@, self.log@, now_ms) == Err::<
                    (Map<Seq<char>, EntryV>, nat),
                    ReplayError,
                >(e) && exists|cut: int|
                    {
                        &&& 0 <= cut <= self.log@.len()
                        &&& replay_spec(old(cc)@, self.log@.subrange(0, cut), now_ms) == Ok::<
                            (Map<Seq<char>, EntryV>, nat),
                            ReplayError,
                        >((final(cc)@, replay_spec(
                            old(cc)@,
                            self.log@.subrange(0, cut),
                            now_ms,
                        ).unwrap().1))
                        &&& replay_spec(
                            final(cc)@,
                            self.log@.subrange(cut, self.log@.len() as int),
                            now_ms,
                        ) == Err::<(Map<Seq<char>, EntryV>, nat), ReplayError>(e)
                    },
            },
    {
        let ghost m0 = cc@;
        let ghost whole = self.log@;
        let n = self.log.len();
        let mut pos: usize = 0;
        let mut count: u64 = 0;
        proof {
            assert(whole.subrange(0, n as int) =~= whole);
            assert(whole.subrange(0, 0) =~= Seq::<u8>::empty());
        }
        while pos < n
            invariant
                cc.wf(),
                pos <= n,
                m0 == old(cc)@,
                n == self.log@.len(),
                whole == self.log@,
                8 * (count as int) <= pos,
                replay_spec(m0, whole, now_ms) == bump_count(
                    replay_spec(cc@, whole.subrange(pos as int, n as int), now_ms),
                    count as nat,
                ),
                replay_spec(m0, whole.subrange(0, pos as int), now_ms) == Ok::<
                    (Map<Seq<char>, EntryV>, nat),
                    ReplayError,
                >((cc@, count as nat)),
            decreases n - pos,
        {
            let ghost mcur = cc@;
            match Self::replay_record(cc, &self.log, pos, now_ms) {
                Err(e) => {
                    proof {
                        assert(replay_spec(m0, whole, now_ms) == Err::<
                            (Map<Seq<char>, EntryV>, nat),
                            ReplayError,
                        >(e));
                        assert({
                            &&& 0 <= pos as int <= whole.len()
                            &&& replay_spec(m0, whole.subrange(0, pos as int), now_ms) == Ok::<
                                (Map<Seq<char>, EntryV>, nat),
                                ReplayError,
                            >((cc@, replay_spec(
                                m0,
                                whole.subrange(0, pos as int),
                                now_ms,
                            ).unwrap().1))
                            &&& replay_spec(cc@, whole.subrange(pos as int, whole.len() as int), now_ms)
                                == Err::<(Map<Seq<char>, EntryV>, nat), ReplayError>(e)
                        });
                    }
                    return Err(e);
                },
                Ok(next) => {
                    proof {
                        lemma_bump_bump(
                            replay_spec(cc@, whole.subrange(next as int, n as int), now_ms),
                            1,
                            count as nat,
                        );
                        lemma_replay_concat(
                            m0,
                            whole.subrange(0, pos as int),
                            whole.subrange(pos as int, next as int),
                            now_ms,
                        );
                        assert(whole.subrange(0, pos as int) + whole.subrange(
                            pos as int,
                            next as int,
                        ) =~= whole.subrange(0, next as int));
                    }
                    pos = next;
                    count = count + 1;
                },
            }
        }
        proof {
            assert(whole.subrange(pos as int, n as int) =~= Seq::<u8>::empty());
        }
        Ok(count)
    }
}

/// Replay is a function of the starting state and the bytes alone: two
/// stores holding the same mapping, replaying the same record stream at
/// the same time, end in the same mapping with the same count.
pub proof fn lemma_replay_deterministic(
    m1: Map<Seq<char>, EntryV>,
    m2: Map<Seq<char>, EntryV>,
    s: Seq<u8>,
    now: u64,
)
    requires
        m1 == m2,
    ensures
        replay_spec(m1, s, now) == replay_spec(m2, s, now),
{
}

/// Replaying a stream made of two parts replays the first part, then the
/// second against what the first built, counting both.
pub proof fn lemma_replay_concat(m: Map<Seq<char>, EntryV>, a: Seq<u8>, b: Seq<u8>, now: u64)
    requires
        replay_spec(m, a, now) is Ok,
    ensures
        replay_spec(m, a + b, now) == bump_count(
            replay_spec(replay_spec(m, a, now).unwrap().0, b, now),
            replay_spec(m, a, now).unwrap().1,
        ),
    decreases a.len(),
{
    if a.len() == 0 {
        assert(a + b =~= b);
        assert(replay_spec(m, a, now) == Ok::<(Map<Seq<char>, EntryV>, nat), ReplayError>((m, 0)));
    } else {
        let (f, n) = parse_message(a).unwrap();
        lemma_parse_message_prefix(a, b, f, n);
        let m1 = apply_command(m, f.command, now);
        let a2 = a.subrange(n, a.len() as int);
        assert((a + b).subrange(n, (a + b).len() as int) =~= a2 + b);
        lemma_replay_concat(m1, a2, b, now);
    }
}

/// Appending one well-formed mutating record to a replayable log keeps
/// it replayable: the longer log replays to the old result with that one
/// command applied on top, counting one more record.
#[verifier::rlimit(50)]
pub proof fn lemma_replay_append(m: Map<Seq<char>, EntryV>, log: Seq<u8>, f: FrameV, now: u64)
    requires
        replay_spec(m, log, now) is Ok,
        loggable(f.command),
        f.version == VERSION,
        frame_fits(f),
    ensures
        replay_spec(m, log + message_bytes(f), now) == Ok::<
            (Map<Seq<char>, EntryV>, nat),
            ReplayError,
        >(
            (
                apply_command(replay_spec(m, log, now).unwrap().0, f.command, now),
                (replay_spec(m, log, now).unwrap().1 + 1) as nat,
            ),
        ),
{
    lemma_replay_concat(m, log, message_bytes(f), now);
    let m1 = replay_spec(m, log, now).unwrap().0;
    let rec = message_bytes(f);
    lemma_be_bytes_len(body_bytes(f).len(), 8);
    assert(rec.len() >= 8);
    lemma_message_round_trip(f, Seq::empty());
    assert(rec + Seq::<u8>::empty() =~= rec);
    assert(parse_message(rec) == Ok::<(FrameV, int), CodecError>((f, rec.len() as int)));
    lemma_replay_step(m1, rec, f, rec.len() as int, now);
    assert(rec.subrange(rec.len() as int, rec.len() as int) =~= Seq::<u8>::empty());
    let applied = apply_command(m1, f.command, now);
    assert(replay_spec(applied, rec.subrange(rec.len() as int, rec.len() as int), now) == Ok::<
        (Map<Seq<char>, EntryV>, nat),
        ReplayError,
    >((applied, 0)));
    assert(replay_spec(m1, rec, now) == Ok::<(Map<Seq<char>, EntryV>, nat), ReplayError>(
        (applied, 1),
    ));
}

} // verus!
