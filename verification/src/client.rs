//! Client-side correlation: a request goes out under a fresh correlation
//! id, and the reply is the `RECV` frame that comes back under the same
//! id. The connection task around this logic owns the socket and the
//! table of waiting requests.

use vstd::prelude::*;

use crate::proto::CommandMessage;
use crate::proto::CommandV;
use crate::proto::FrameMessage;
use crate::proto::FrameV;
use crate::proto::VERSION;

verus! {

/// Hands out correlation ids, each one exactly once, in increasing
/// order: unique among the requests in flight on one connection.
pub struct Correlator {
    pub next: u128,
}

impl Correlator {
    pub fn new() -> (r: Correlator)
        ensures
            r.next == 0,
    {
        Correlator { next: 0 }
    }

    /// The next unused id.
    pub fn fresh(&mut self) -> (id: u128)
        requires
            old(self).next < u128::MAX,
        ensures
            id == old(self).next,
            final(self).next == old(self).next + 1,
    {
        let id = self.next;
        self.next = self.next + 1;
        id
    }
}

/// The frame that carries `command` as a request under correlation id
/// `id`.
pub fn request_frame(id: u128, command: CommandMessage) -> (r: FrameMessage)
    ensures
        r@ == (FrameV { ts: id, version: VERSION, command: command@ }),
{
    FrameMessage::new(id, command)
}

/// Whether `f` is the reply to the request sent under `id`: a `RECV`
/// envelope carrying the same correlation id.
pub fn is_reply_to(f: &FrameMessage, id: u128) -> (r: bool)
    ensures
        r == (f@.ts == id && f@.command is Recv),
{
    let tagged = match &f.command {
        CommandMessage::RECV(_) => true,
        _ => false,
    };
    tagged && f.ts == id
}

/// The payload a reply envelope carries: the data of a `RECV` frame,
/// nothing for any other frame.
pub fn reply_payload(f: FrameMessage) -> (r: Option<Vec<u8>>)
    ensures
        match f@.command {
            CommandV::Recv { data } => r.deep_view() == data,
            _ => r is None,
        },
{
    match f.command {
        CommandMessage::RECV(data) => {
            proof {
                match data {
                    Some(ref v) => {
                        assert(v.deep_view() =~= v@);
                    },
                    None => {},
                }
            }
            data
        },
        _ => None,
    }
}

} // verus!
