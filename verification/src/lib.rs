//! A networked, in-memory key-value cache with crash durability.
//!
//! The crate holds the verified core of the system: the binary wire
//! protocol (frames and their length-prefixed encoding), the in-memory
//! storage engine with optional per-key expiration, the write-ahead log
//! and snapshot durability logic, and the per-connection dispatch rules.
//! The surrounding process (sockets, files, timers) lives outside and
//! feeds this core plain values.

pub mod cli;
pub mod client;
pub mod codec;
pub mod dispatch;
pub mod proto;
pub mod snapshot;
pub mod storage;
pub mod wal;
