//! Process configuration: which role to run and where the durable files
//! live. The argument parser at the process edge fills this in and hands
//! it to the server or client loop.

use vstd::prelude::*;

verus! {

/// The role the process runs as.
#[derive(Clone, Copy, Debug, PartialEq, Eq, Structural)]
pub enum Runtime {
    Server,
    Client,
    Testing,
}

/// Everything the process needs to start: the role, the listen or
/// connect address, the two durable file paths, and the snapshot
/// interval in minutes.
#[derive(Debug)]
pub struct Args {
    pub subcommand: Runtime,
    pub addr: String,
    pub wal: String,
    pub snapshot: String,
    pub snapshot_internal: u64,
}

} // verus!
