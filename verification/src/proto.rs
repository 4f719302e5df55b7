//! Protocol messages: commands, frames, and their mathematical models.

use vstd::prelude::*;

verus! {

/// The protocol version this implementation supports. Frames carrying any
/// other version are rejected by the codec.
pub const VERSION: u8 = 1;

/// Mathematical model of one protocol command.
pub ghost enum CommandV {
    Connected,
    Ping,
    Pong,
    Get { key: Seq<char> },
    Put { key: Seq<char>, value: Seq<u8>, ttl: Option<u64> },
    Delete { key: Seq<char> },
    Keys,
    Recv { data: Option<Seq<u8>> },
}

/// Mathematical model of one frame: correlation id, version and command.
pub ghost struct FrameV {
    pub ts: u128,
    pub version: u8,
    pub command: CommandV,
}

/// One protocol command. `RECV` is the universal reply envelope; a
/// well-formed peer never issues it as a request. Time-to-live values are
/// carried as whole milliseconds.
#[derive(Debug, PartialEq, Eq)]
pub enum CommandMessage {
    CONNECTED(),
    PING(),
    PONG(),
    GET(String),
    PUT(String, Vec<u8>, Option<u64>),
    DELETE(String),
    KEYS(),
    RECV(Option<Vec<u8>>),
}

impl View for CommandMessage {
    type V = CommandV;

    open spec fn view(&self) -> CommandV {
        match self {
            CommandMessage::CONNECTED() => CommandV::Connected,
            CommandMessage::PING() => CommandV::Ping,
            CommandMessage::PONG() => CommandV::Pong,
            CommandMessage::GET(key) => CommandV::Get { key: key@ },
            CommandMessage::PUT(key, value, ttl) => CommandV::Put {
                key: key@,
                value: value@,
                ttl: *ttl,
            },
            CommandMessage::DELETE(key) => CommandV::Delete { key: key@ },
            CommandMessage::KEYS() => CommandV::Keys,
            CommandMessage::RECV(data) => CommandV::Recv { data: data.deep_view() },
        }
    }
}

impl Clone for CommandMessage {
    fn clone(&self) -> (r: Self)
        ensures
            r@ == self@,
    {
        match self {
            CommandMessage::CONNECTED() => CommandMessage::CONNECTED(),
            CommandMessage::PING() => CommandMessage::PING(),
            CommandMessage::PONG() => CommandMessage::PONG(),
            CommandMessage::GET(key) => CommandMessage::GET(key.clone()),
            CommandMessage::PUT(key, value, ttl) => {
                let v = value.clone();
                proof {
                    assert(v@ =~= value@);
                }
                CommandMessage::PUT(key.clone(), v, *ttl)
            },
            CommandMessage::DELETE(key) => CommandMessage::DELETE(key.clone()),
            CommandMessage::KEYS() => CommandMessage::KEYS(),
            CommandMessage::RECV(data) => {
                match data {
                    None => CommandMessage::RECV(None),
                    Some(d) => {
                        let v = d.clone();
                        proof {
                            assert(v@ =~= d@);
                        }
                        CommandMessage::RECV(Some(v))
                    },
                }
            },
        }
    }
}

/// One frame: a correlation id chosen by the sender (`ts`), the protocol
/// version, and the command. The correlation id matches a request to its
/// reply on a single connection.
#[derive(Debug, PartialEq, Eq)]
pub struct FrameMessage {
    pub ts: u128,
    pub version: u8,
    pub command: CommandMessage,
}

impl View for FrameMessage {
    type V = FrameV;

    open spec fn view(&self) -> FrameV {
        FrameV { ts: self.ts, version: self.version, command: self.command@ }
    }
}

impl DeepView for FrameMessage {
    type V = FrameV;

    open spec fn deep_view(&self) -> FrameV {
        self@
    }
}

impl Clone for FrameMessage {
    fn clone(&self) -> (r: Self)
        ensures
            r@ == self@,
    {
        FrameMessage { ts: self.ts, version: self.version, command: self.command.clone() }
    }
}

impl FrameMessage {
    /// Builds a frame around `command`, stamped with the supported version.
    pub fn new(ts: u128, command: CommandMessage) -> (r: FrameMessage)
        ensures
            r@ == (FrameV { ts, version: VERSION, command: command@ }),
    {
        FrameMessage { ts, version: VERSION, command }
    }

    /// The reply to this frame: a `RECV` envelope carrying `data`, under
    /// the same correlation id, consuming the request.
    pub fn reply(self, data: Option<Vec<u8>>) -> (r: FrameMessage)
        ensures
            r@ == (FrameV {
                ts: self@.ts,
                version: VERSION,
                command: CommandV::Recv { data: data.deep_view() },
            }),
    {
        FrameMessage { ts: self.ts, version: VERSION, command: CommandMessage::RECV(data) }
    }

    /// The reply to this frame, leaving the request in place.
    pub fn reply_borrow(&self, data: Option<Vec<u8>>) -> (r: FrameMessage)
        ensures
            r@ == (FrameV {
                ts: self@.ts,
                version: VERSION,
                command: CommandV::Recv { data: data.deep_view() },
            }),
    {
        FrameMessage { ts: self.ts, version: VERSION, command: CommandMessage::RECV(data) }
    }
}

/// Groups `s` as `resolve_pair` does: a new group starts at every zero
/// byte and at the very first byte; every byte lands in the newest group.
pub open spec fn resolve_pair_spec(s: Seq<u8>) -> Seq<Seq<u8>>
    decreases s.len(),
{
    if s.len() == 0 {
        Seq::empty()
    } else {
        let prev = resolve_pair_spec(s.drop_last());
        let x = s.last();
        if x == 0 || prev.len() == 0 {
            prev.push(seq![x])
        } else {
            prev.update(prev.len() - 1, prev.last().push(x))
        }
    }
}

/// Splits a byte payload into groups at zero bytes: each group after the
/// first begins with the zero byte that opened it.
pub fn resolve_pair(input: Vec<u8>) -> (r: Vec<Vec<u8>>)
    ensures
        r.deep_view() == resolve_pair_spec(input@),
{
    let mut out: Vec<Vec<u8>> = Vec::new();
    let mut cur: Vec<u8> = Vec::new();
    let mut started: bool = false;
    let mut i: usize = 0;
    while i < input.len()
        invariant
            i <= input.len(),
            started ==> resolve_pair_spec(input@.subrange(0, i as int)) =~= out.deep_view().push(
                cur@,
            ),
            !started ==> out.len() == 0 && cur.len() == 0 && resolve_pair_spec(
                input@.subrange(0, i as int),
            ) =~= Seq::<Seq<u8>>::empty(),
        decreases input.len() - i,
    {
        let x = input[i];
        let ghost pre = input@.subrange(0, i as int);
        let ghost post = input@.subrange(0, i as int + 1);
        let ghost out0 = out.deep_view();
        let ghost cur0 = cur@;
        let ghost started0 = started;
        proof {
            assert(post.drop_last() =~= pre);
            assert(post.last() == x);
        }
        if x == 0 || !started {
            if started {
                out.push(cur);
                cur = Vec::new();
            }
            started = true;
            cur.push(x);
            proof {
                if started0 {
                    assert(out.deep_view() =~~= out0.push(cur0));
                    assert(resolve_pair_spec(post) =~~= out.deep_view().push(cur@));
                } else {
                    assert(resolve_pair_spec(post) =~~= out.deep_view().push(cur@));
                }
            }
        } else {
            cur.push(x);
            proof {
                assert(resolve_pair_spec(pre).len() > 0);
                assert(resolve_pair_spec(pre).last() == cur0);
                assert(resolve_pair_spec(post) =~~= out.deep_view().push(cur@));
            }
        }
        i = i + 1;
    }
    proof {
        assert(input@.subrange(0, input@.len() as int) =~= input@);
    }
    if started {
        let ghost out0 = out.deep_view();
        let ghost cur0 = cur@;
        out.push(cur);
        proof {
            assert(out.deep_view() =~~= out0.push(cur0));
        }
    } else {
        proof {
            assert(out.deep_view() =~~= Seq::<Seq<u8>>::empty());
        }
    }
    out
}

} // verus!
