//! Recovery client states, status words and counters.

use vstd::prelude::*;

verus! {

pub const STATUS_DISCONNECTED: u32 = 0;
pub const STATUS_CONNECTING: u32 = 1;
pub const STATUS_CONNECTED: u32 = 2;
pub const STATUS_SERVER_CLOSED: u32 = 3;
pub const STATUS_SOCKET_ERROR: u32 = 4;

#[derive(Debug, Clone, Copy, PartialEq, Eq, Structural)]
pub enum ClientState {
    Disconnected,
    Connecting,
    Connected,
}

#[derive(Debug, Clone, Copy, PartialEq, Eq, Structural)]
pub struct RecoveryCounters {
    pub requests_sent: u64,
    pub responses_received: u64,
    pub packets_forwarded: u64,
    pub stale_session_dropped: u64,
    pub malformed_stream: u64,
    pub oversize_packets: u64,
    pub connections_attempted: u64,
    pub server_closed: u64,
    pub socket_errors: u64,
}

impl Default for RecoveryCounters {
    fn default() -> (r: Self)
        ensures
            r == (RecoveryCounters {
                requests_sent: 0,
                responses_received: 0,
                packets_forwarded: 0,
                stale_session_dropped: 0,
                malformed_stream: 0,
                oversize_packets: 0,
                connections_attempted: 0,
                server_closed: 0,
                socket_errors: 0,
            }),
    {
        RecoveryCounters {
            requests_sent: 0,
            responses_received: 0,
            packets_forwarded: 0,
            stale_session_dropped: 0,
            malformed_stream: 0,
            oversize_packets: 0,
            connections_attempted: 0,
            server_closed: 0,
            socket_errors: 0,
        }
    }
}

} // verus!
