//! Core of an event-driven, connection-multiplexing TCP server.
//!
//! The library holds the verified engine: a bounded pool of reusable byte
//! buffers, a registry of live connections, a FIFO backlog of submissions
//! that did not fit into the OS submission channel, a shared-queue worker
//! pool, a broadcast fan-out policy, and the reactor state machine that turns
//! completion events into the next batch of submissions. The surrounding
//! program performs the actual socket and submission-queue calls and feeds
//! results back in as plain values.

pub mod buffer_pool;
pub mod worker;
pub mod backlog;
pub mod fanout;
pub mod reactor;
pub mod registry;
pub mod tokens;

use vstd::prelude::*;

verus! {

/// Where the server listens: host address and port, and the depth of the
/// OS-level accept backlog handed to `listen`.
#[derive(Clone, Copy, PartialEq, Eq, Structural, Debug)]
pub struct ListenConfig {
    pub ip: u32,
    pub port: u16,
    pub os_backlog: u32,
}

impl Default for ListenConfig {
    /// The loopback address, port 8080, and an accept backlog of 1024.
    fn default() -> (r: ListenConfig)
        ensures
            r.ip == 0x7F000001u32,
            r.port == 8080,
            r.os_backlog == 1024,
    {
        ListenConfig { ip: 0x7F000001, port: 8080, os_backlog: 1024 }
    }
}

} // verus!
