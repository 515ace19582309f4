//! A relay that keeps every connected peer informed of every other peer's head pose.
//!
//! The library holds the logic of the relay: the length-prefixed framing of messages,
//! the binary layout of head records, the per-tick decisions of the relay loop and the
//! client's handling of incoming aggregates. Sockets, threads and timers stay with the
//! caller, which performs the reads and writes that the library asks for.
use vstd::prelude::*;

pub mod bytes;
pub mod client;
pub mod framer;
pub mod registry;
pub mod wire;
