//! Snapshots: a full capture of the live key set, rewritten from scratch
//! on each cycle as a sequence of length-prefixed Put records without
//! deadlines, and the restore path that reads such a capture back at
//! startup. Restore must run before the write-ahead log replays, never
//! after: the snapshot is the baseline the log's records build on.

use vstd::prelude::*;

use vstd::map::*;

use crate::codec::encode;
use crate::codec::decode;
use crate::codec::frame_fits;
use crate::codec::message_bytes;
use crate::codec::parse_message;
use crate::codec::body_bytes;
use crate::codec::lemma_be_bytes_len;
use crate::codec::lemma_message_round_trip;
use crate::codec::lemma_parse_message_prefix;
use crate::codec::lemma_parse_message_restrict;
use crate::codec::CodecError;
use crate::proto::CommandMessage;
use crate::proto::CommandV;
use crate::proto::FrameMessage;
use crate::proto::FrameV;
use crate::proto::VERSION;
use crate::storage::EntryV;
use crate::storage::Storage;
use crate::storage::entry_v;
use crate::storage::has_key;
use crate::storage::live_at;
use crate::storage::live_map;
use crate::storage::map_of;
use crate::wal::apply_command;

verus! {

/// The outcome of restoring a record stream `s` into the mapping `m` at
/// time `now`: Put records apply in stream order (a time-to-live counts
/// from `now`), records of any other command are passed over, and the
/// count is of the applied records.
pub open spec fn restore_spec(m: Map<Seq<char>, EntryV>, s: Seq<u8>, now: u64) -> Result<
    (Map<Seq<char>, EntryV>, nat),
    CodecError,
>
    decreases s.len(),
{
    if s.len() == 0 {
        Ok((m, 0))
    } else {
        match parse_message(s) {
            Err(e) => Err(e),
            Ok((f, n)) => {
                let m2 = if f.command is Put {
                    apply_command(m, f.command, now)
                } else {
                    m
                };
                let inc: nat = if f.command is Put {
                    1
                } else {
                    0
                };
                match restore_spec(m2, s.subrange(n, s.len() as int), now) {
                    Ok((mf, c)) => Ok((mf, (c + inc) as nat)),
                    Err(e) => Err(e),
                }
            },
        }
    }
}

/// `r` with `c` more applied records counted.
pub open spec fn bump_restored(
    r: Result<(Map<Seq<char>, EntryV>, nat), CodecError>,
    c: nat,
) -> Result<(Map<Seq<char>, EntryV>, nat), CodecError> {
    match r {
        Ok((m, c2)) => Ok((m, (c + c2) as nat)),
        Err(e) => Err(e),
    }
}

/// `m` with every expiration deadline dropped: what a snapshot preserves
/// of a mapping.
pub open spec fn strip_ttl(m: Map<Seq<char>, EntryV>) -> Map<Seq<char>, EntryV> {
    Map::new(
        |k: Seq<char>| m.contains_key(k),
        |k: Seq<char>| EntryV { value: m[k].value, expires_at: None },
    )
}

/// Unfolds one step of `restore_spec` over a stream whose first record
/// parses.
proof fn lemma_restore_step(m: Map<Seq<char>, EntryV>, s: Seq<u8>, f: FrameV, n: int, now: u64)
    requires
        s.len() > 0,
        parse_message(s) == Ok::<(FrameV, int), CodecError>((f, n)),
    ensures
        restore_spec(m, s, now) == bump_restored(
            restore_spec(
                if f.command is Put {
                    apply_command(m, f.command, now)
                } else {
                    m
                },
                s.subrange(n, s.len() as int),
                now,
            ),
            if f.command is Put {
                1
            } else {
                0
            },
        ),
{
}

/// A stream whose first record does not parse does not restore.
proof fn lemma_restore_step_err(m: Map<Seq<char>, EntryV>, s: Seq<u8>, e: CodecError, now: u64)
    requires
        s.len() > 0,
        parse_message(s) == Err::<(FrameV, int), CodecError>(e),
    ensures
        restore_spec(m, s, now) == Err::<(Map<Seq<char>, EntryV>, nat), CodecError>(e),
{
}

/// One record's own bytes, cut out of the stream they head, restore to
/// exactly that one step.
proof fn lemma_restore_chunk(
    m: Map<Seq<char>, EntryV>,
    bytes: Seq<u8>,
    pos: int,
    consumed: int,
    f: FrameV,
    now: u64,
)
    requires
        0 <= pos,
        8 <= consumed,
        pos + consumed <= bytes.len(),
        parse_message(bytes.subrange(pos, bytes.len() as int)) == Ok::<(FrameV, int), CodecError>(
            (f, consumed),
        ),
    ensures
        restore_spec(m, bytes.subrange(pos, pos + consumed), now) == Ok::<
            (Map<Seq<char>, EntryV>, nat),
            CodecError,
        >(
            (
                if f.command is Put {
                    apply_command(m, f.command, now)
                } else {
                    m
                },
                if f.command is Put {
                    1
                } else {
                    0
                },
            ),
        ),
{
    let rest = bytes.subrange(pos, bytes.len() as int);
    lemma_parse_message_restrict(rest, f, consumed);
    let chunk = bytes.subrange(pos, pos + consumed);
    assert(chunk =~= rest.subrange(0, consumed));
    lemma_restore_step(m, chunk, f, consumed, now);
    assert(chunk.subrange(consumed, chunk.len() as int) =~= Seq::<u8>::empty());
    let applied = if f.command is Put {
        apply_command(m, f.command, now)
    } else {
        m
    };
    assert(restore_spec(applied, chunk.subrange(consumed, chunk.len() as int), now) == Ok::<
        (Map<Seq<char>, EntryV>, nat),
        CodecError,
    >((applied, 0)));
}

/// Counting twice counts the sum.
proof fn lemma_bump_restored(r: Result<(Map<Seq<char>, EntryV>, nat), CodecError>, a: nat, b: nat)
    ensures
        bump_restored(bump_restored(r, a), b) == bump_restored(r, (a + b) as nat),
{
}

/// Restoring a stream made of two parts restores the first part, then
/// the second against what the first built, counting both.
proof fn lemma_restore_concat(m: Map<Seq<char>, EntryV>, a: Seq<u8>, b: Seq<u8>, now: u64)
    requires
        restore_spec(m, a, now) is Ok,
    ensures
        restore_spec(m, a + b, now) == bump_restored(
            restore_spec(restore_spec(m, a, now).unwrap().0, b, now),
            restore_spec(m, a, now).unwrap().1,
        ),
    decreases a.len(),
{
    if a.len() == 0 {
        assert(a + b =~= b);
        assert(restore_spec(m, a, now) == Ok::<(Map<Seq<char>, EntryV>, nat), CodecError>((m, 0)));
    } else {
        let (f, n) = parse_message(a).unwrap();
        lemma_parse_message_prefix(a, b, f, n);
        let m1 = if f.command is Put {
            apply_command(m, f.command, now)
        } else {
            m
        };
        let a2 = a.subrange(n, a.len() as int);
        assert((a + b).subrange(n, (a + b).len() as int) =~= a2 + b);
        lemma_restore_concat(m1, a2, b, now);
        lemma_bump_restored(
            restore_spec(restore_spec(m, a, now).unwrap().0, b, now),
            restore_spec(m1, a2, now).unwrap().1,
            if f.command is Put {
                1
            } else {
                0
            },
        );
    }
}

/// Appending one well-formed Put record to a restorable stream keeps it
/// restorable: the longer stream restores to the old result with that
/// Put applied on top, counting one more record.
#[verifier::rlimit(50)]
proof fn lemma_restore_append_put(m: Map<Seq<char>, EntryV>, bytes: Seq<u8>, f: FrameV, now: u64)
    requires
        restore_spec(m, bytes, now) is Ok,
        f.command is Put,
        f.version == VERSION,
        frame_fits(f),
    ensures
        restore_spec(m, bytes + message_bytes(f), now) == Ok::<
            (Map<Seq<char>, EntryV>, nat),
            CodecError,
        >(
            (
                apply_command(restore_spec(m, bytes, now).unwrap().0, f.command, now),
                (restore_spec(m, bytes, now).unwrap().1 + 1) as nat,
            ),
        ),
{
    lemma_restore_concat(m, bytes, message_bytes(f), now);
    let m1 = restore_spec(m, bytes, now).unwrap().0;
    let rec = message_bytes(f);
    lemma_be_bytes_len(body_bytes(f).len(), 8);
    assert(rec.len() >= 8);
    lemma_message_round_trip(f, Seq::empty());
    assert(rec + Seq::<u8>::empty() =~= rec);
    assert(parse_message(rec) == Ok::<(FrameV, int), CodecError>((f, rec.len() as int)));
    lemma_restore_step(m1, rec, f, rec.len() as int, now);
    assert(rec.subrange(rec.len() as int, rec.len() as int) =~= Seq::<u8>::empty());
    let applied = apply_command(m1, f.command, now);
    assert(restore_spec(applied, rec.subrange(rec.len() as int, rec.len() as int), now) == Ok::<
        (Map<Seq<char>, EntryV>, nat),
        CodecError,
    >((applied, 0)));
    assert(restore_spec(m1, rec, now) == Ok::<(Map<Seq<char>, EntryV>, nat), CodecError>(
        (applied, 1),
    ));
}

/// Writes snapshots of a store and reads them back. The path names the
/// durable medium the caller keeps the bytes on.
pub struct SnapshotCreator {
    pub path: String,
}

impl SnapshotCreator {
    pub fn new(path: &str) -> (r: SnapshotCreator)
        ensures
            r.path@ == path@,
    {
        SnapshotCreator { path: path.to_owned() }
    }

    /// Serializes every entry of `cc` still live at `now_ms` as one Put
    /// record carrying no deadline, under correlation id `ts`: one record
    /// per live key, and the count of keys written. Restoring the bytes
    /// into an empty store, at any time, rebuilds exactly the live
    /// entries with their deadlines dropped. Entries already past their
    /// deadline are not captured.
    #[verifier::rlimit(60)]
    pub fn snapshot(&self, cc: &Storage, ts: u128, now_ms: u64) -> (r: (Vec<u8>, u64))
        requires
            cc.wf(),
        ensures
            forall|at: u64|
                restore_spec(Map::<Seq<char>, EntryV>::empty(), r.0@, at) == Ok::<
                    (Map<Seq<char>, EntryV>, nat),
                    CodecError,
                >((strip_ttl(live_map(cc@, now_ms)), r.1 as nat)),
            exists|ks: Seq<Seq<char>>|
                {
                    &&& ks.no_duplicates()
                    &&& ks.to_set() == live_map(cc@, now_ms).dom()
                    &&& r.1 as nat == ks.len()
                },
    {
        let ghost s0 = cc.entries@;
        let ghost mut ks: Seq<Seq<char>> = Seq::empty();
        let mut out: Vec<u8> = Vec::new();
        let mut count: u64 = 0;
        let mut i: usize = 0;
        proof {
            assert(ks.to_set() =~= live_map(map_of(s0.subrange(0, 0)), now_ms).dom());
            assert forall|at: u64|
                restore_spec(Map::<Seq<char>, EntryV>::empty(), out@, at) == Ok::<
                    (Map<Seq<char>, EntryV>, nat),
                    CodecError,
                >((strip_ttl(live_map(map_of(s0.subrange(0, 0)), now_ms)), 0nat)) by {
                assert(out@ =~= Seq::<u8>::empty());
                assert_maps_equal!(
                    strip_ttl(live_map(map_of(s0.subrange(0, 0)), now_ms)),
                    Map::<Seq<char>, EntryV>::empty()
                );
            }
        }
        while i < cc.entries.len()
            invariant
                cc.wf(),
                s0 == cc.entries@,
                i <= s0.len(),
                count as int <= i,
                ks.no_duplicates(),
                ks.len() == count as nat,
                forall|t: int| 0 <= t < ks.len() ==> has_key(s0.subrange(0, i as int), ks[t]),
                ks.to_set() == live_map(map_of(s0.subrange(0, i as int)), now_ms).dom(),
                forall|at: u64|
                    restore_spec(Map::<Seq<char>, EntryV>::empty(), out@, at) == Ok::<
                        (Map<Seq<char>, EntryV>, nat),
                        CodecError,
                    >((strip_ttl(live_map(map_of(s0.subrange(0, i as int)), now_ms)), count as nat)),
            decreases s0.len() - i,
        {
            let ghost pre = s0.subrange(0, i as int);
            let ghost post = s0.subrange(0, i as int + 1);
            let ghost k = s0[i as int].key@;
            let ghost ev = entry_v(s0[i as int]);
            proof {
                assert(post.drop_last() =~= pre);
                assert(post.last() == s0[i as int]);
                assert forall|j: int| 0 <= j < pre.len() implies pre[j].key@ != k by {
                    assert(pre[j] == s0[j]);
                }
                assert(!has_key(pre, k));
                crate::storage::lemma_map_of_push(pre, s0[i as int]);
                assert(post =~= pre.push(s0[i as int]));
            }
            let e = &cc.entries[i];
            let live = match e.expires_at {
                None => true,
                Some(d) => d > now_ms,
            };
            if live {
                let frame = FrameMessage::new(
                    ts,
                    CommandMessage::PUT(e.key.clone(), e.value.clone(), None),
                );
                proof {
                    assert(frame@.command == (CommandV::Put { key: k, value: ev.value, ttl: None }));
                }
                let ghost out0 = out@;
                let mut rec = encode(&frame);
                out.append(&mut rec);
                proof {
                    assert(out@ == out0 + message_bytes(frame@));
                    assert(live_at(ev, now_ms));
                    assert forall|at: u64|
                        restore_spec(Map::<Seq<char>, EntryV>::empty(), out@, at) == Ok::<
                            (Map<Seq<char>, EntryV>, nat),
                            CodecError,
                        >((
                            strip_ttl(live_map(map_of(post), now_ms)),
                            (count + 1) as nat,
                        )) by {
                        lemma_restore_append_put(
                            Map::<Seq<char>, EntryV>::empty(),
                            out0,
                            frame@,
                            at,
                        );
                        assert(strip_ttl(live_map(map_of(post), now_ms)) =~= strip_ttl(
                            live_map(map_of(pre), now_ms),
                        ).insert(k, EntryV { value: ev.value, expires_at: None }));
                    }
                }
                count = count + 1;
                proof {
                    assert forall|t: int| 0 <= t < ks.len() implies ks[t] != k by {
                        assert(has_key(pre, ks[t]));
                    }
                    crate::storage::lemma_to_set_push(ks, k);
                    assert(ks.push(k).to_set() =~= live_map(map_of(post), now_ms).dom()) by {
                        assert(live_map(map_of(post), now_ms).dom() =~= live_map(
                            map_of(pre),
                            now_ms,
                        ).dom().insert(k));
                    }
                    ks = ks.push(k);
                }
            } else {
                proof {
                    assert(live_map(map_of(post), now_ms) =~= live_map(map_of(pre), now_ms));
                    assert forall|at: u64|
                        restore_spec(Map::<Seq<char>, EntryV>::empty(), out@, at) == Ok::<
                            (Map<Seq<char>, EntryV>, nat),
                            CodecError,
                        >((strip_ttl(live_map(map_of(post), now_ms)), count as nat)) by {
                        assert(strip_ttl(live_map(map_of(post), now_ms)) =~= strip_ttl(
                            live_map(map_of(pre), now_ms),
                        ));
                    }
                }
            }
            i = i + 1;
        }
        proof {
            assert(s0.subrange(0, s0.len() as int) =~= s0);
        }
        (out, count)
    }

    /// Applies the record at byte offset `pos` of `bytes` to `cc`: the
    /// offset just after it and whether the record was a Put and applied.
    /// A record that cannot be read leaves `cc` untouched.
    #[verifier::rlimit(100)]
    fn restore_record(cc: &mut Storage, bytes: &Vec<u8>, pos: usize, now_ms: u64) -> (r: Result<
        (usize, bool),
        CodecError,
    >)
        requires
            old(cc).wf(),
            pos < bytes@.len(),
        ensures
            final(cc).wf(),
            ({
                let rest = bytes@.subrange(pos as int, bytes@.len() as int);
                match r {
                    Ok(pair) => pos + 8 <= pair.0 <= bytes@.len() && restore_spec(
                        old(cc)@,
                        rest,
                        now_ms,
                    ) == bump_restored(
                        restore_spec(
                            final(cc)@,
                            bytes@.subrange(pair.0 as int, bytes@.len() as int),
                            now_ms,
                        ),
                        if pair.1 {
                            1
                        } else {
                            0
                        },
                    ) && restore_spec(
                        old(cc)@,
                        bytes@.subrange(pos as int, pair.0 as int),
                        now_ms,
                    ) == Ok::<(Map<Seq<char>, EntryV>, nat), CodecError>(
                        (
                            final(cc)@,
                            if pair.1 {
                                1
                            } else {
                                0
                            },
                        ),
                    ),
                    Err(e) => final(cc)@ == old(cc)@ && restore_spec(old(cc)@, rest, now_ms)
                        == Err::<(Map<Seq<char>, EntryV>, nat), CodecError>(e),
                }
            }),
    {
        let ghost rest = bytes@.subrange(pos as int, bytes@.len() as int);
        let ghost mcur = cc@;
        let ln: usize = bytes.len();
        match decode(bytes, pos) {
            Err(e) => {
                proof {
                    lemma_restore_step_err(mcur, rest, e, now_ms);
                }
                Err(e)
            },
            Ok((f, consumed)) => {
                let ghost fv = f@;
                let applied: bool = match f.command {
                    CommandMessage::PUT(key, value, ttl) => {
                        match ttl {
                            None => {
                                cc.write(&key, value);
                            },
                            Some(d) => {
                                cc.write_ex(&key, value, d, now_ms);
                            },
                        }
                        true
                    },
                    _ => false,
                };
                proof {
                    if fv.command is Put {
                        assert(cc@ == apply_command(mcur, fv.command, now_ms));
                    } else {
                        assert(cc@ == mcur);
                    }
                    assert(rest.subrange(consumed as int, rest.len() as int) =~= bytes@.subrange(
                        pos as int + consumed as int,
                        bytes@.len() as int,
                    ));
                    lemma_restore_step(mcur, rest, fv, consumed as int, now_ms);
                    assert(pos + consumed <= ln);
                    lemma_restore_chunk(mcur, bytes@, pos as int, consumed as int, fv, now_ms);
                }
                Ok((pos + consumed, applied))
            },
        }
    }

    /// Reads the record stream `bytes` into `cc` at time `now_ms`,
    /// applying each Put in order, and counts the applied records. A
    /// failure is fatal to startup; `cc` then holds exactly the records
    /// before the failure, applied in order, and none after.
    #[verifier::rlimit(100)]
    pub fn restore(&self, cc: &mut Storage, bytes: &Vec<u8>, now_ms: u64) -> (r: Result<
        u64,
        CodecError,
    >)
        requires
            old(cc).wf(),
        ensures
            final(cc).wf(),
            match r {
                Ok(count) => restore_spec(old(cc)@, bytes@, now_ms) == Ok::<
                    (Map<Seq<char>, EntryV>, nat),
                    CodecError,
                >((final(cc)@, count as nat)),
                Err(e) => restore_spec(old(cc)@, bytes@, now_ms) == Err::<
                    (Map<Seq<char>, EntryV>, nat),
                    CodecError,
                >(e) && exists|cut: int|
                    {
                        &&& 0 <= cut <= bytes@.len()
                        &&& restore_spec(old(cc)@, bytes@.subrange(0, cut), now_ms) == Ok::<
                            (Map<Seq<char>, EntryV>, nat),
                            CodecError,
                        >((final(cc)@, restore_spec(
                            old(cc)@,
                            bytes@.subrange(0, cut),
                            now_ms,
                        ).unwrap().1))
                        &&& restore_spec(
                            final(cc)@,
                            bytes@.subrange(cut, bytes@.len() as int),
                            now_ms,
                        ) == Err::<(Map<Seq<char>, EntryV>, nat), CodecError>(e)
                    },
            },
    {
        let ghost m0 = cc@;
        let ghost whole = bytes@;
        let n = bytes.len();
        let mut pos: usize = 0;
        let mut count: u64 = 0;
        proof {
            assert(whole.subrange(0, n as int) =~= whole);
            assert(whole.subrange(0, 0) =~= Seq::<u8>::empty());
        }
        while pos < n
            invariant
                cc.wf(),
                pos <= n,
                m0 == old(cc)@,
                n == bytes@.len(),
                whole == bytes@,
                8 * (count as int) <= pos,
                restore_spec(m0, whole, now_ms) == bump_restored(
                    restore_spec(cc@, whole.subrange(pos as int, n as int), now_ms),
                    count as nat,
                ),
                restore_spec(m0, whole.subrange(0, pos as int), now_ms) == Ok::<
                    (Map<Seq<char>, EntryV>, nat),
                    CodecError,
                >((cc@, count as nat)),
            decreases n - pos,
        {
            match Self::restore_record(cc, bytes, pos, now_ms) {
                Err(e) => {
                    proof {
                        assert(restore_spec(m0, whole, now_ms) == Err::<
                            (Map<Seq<char>, EntryV>, nat),
                            CodecError,
                        >(e));
                        assert({
                            &&& 0 <= pos as int <= whole.len()
                            &&& restore_spec(m0, whole.subrange(0, pos as int), now_ms) == Ok::<
                                (Map<Seq<char>, EntryV>, nat),
                                CodecError,
                            >((cc@, restore_spec(
                                m0,
                                whole.subrange(0, pos as int),
                                now_ms,
                            ).unwrap().1))
                            &&& restore_spec(cc@, whole.subrange(pos as int, whole.len() as int), now_ms)
                                == Err::<(Map<Seq<char>, EntryV>, nat), CodecError>(e)
                        });
                    }
                    return Err(e);
                },
                Ok((next, applied)) => {
                    proof {
                        lemma_bump_restored(
                            restore_spec(cc@, whole.subrange(next as int, n as int), now_ms),
                            if applied {
                                1
                            } else {
                                0
                            },
                            count as nat,
                        );
                        lemma_restore_concat(
                            m0,
                            whole.subrange(0, pos as int),
                            whole.subrange(pos as int, next as int),
                            now_ms,
                        );
                        assert(whole.subrange(0, pos as int) + whole.subrange(
                            pos as int,
                            next as int,
                        ) =~= whole.subrange(0, next as int));
                    }
                    pos = next;
                    if applied {
                        count = count + 1;
                    }
                },
            }
        }
        proof {
            assert(whole.subrange(pos as int, n as int) =~= Seq::<u8>::empty());
        }
        Ok(count)
    }
}

} // verus!
