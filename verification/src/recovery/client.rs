//! The recovery client's state: the server it talks to, its socket (opened and closed by
//! the caller), its connection state and counters, and the request bytes it sends.

use vstd::prelude::*;
use crate::protocol::moldudp64::{encode_request, header_bytes, REQUEST_LEN};
use crate::recovery::types::ClientState;

verus! {

/// The feed id recovered packets are ingested under.
pub const FEED_R: u8 = 2;

#[derive(Debug, Clone, Copy, PartialEq, Eq, Structural)]
pub struct RecoveryCounters {
    pub requests_sent: u64,
    pub packets_received: u64,
    pub socket_errors: u64,
}

impl Default for RecoveryCounters {
    fn default() -> (r: Self)
        ensures
            r == (RecoveryCounters { requests_sent: 0, packets_received: 0, socket_errors: 0 }),
    {
        RecoveryCounters { requests_sent: 0, packets_received: 0, socket_errors: 0 }
    }
}

pub struct RecoveryClient {
    ip: [u8; 4],
    port: u16,
    fd: Option<i32>,
    state: ClientState,
    counters: RecoveryCounters,
}

/// The abstract state of a recovery client.
pub struct ClientView {
    pub ip: [u8; 4],
    pub port: u16,
    pub fd: Option<i32>,
    pub state: ClientState,
    pub counters: RecoveryCounters,
}

impl View for RecoveryClient {
    type V = ClientView;

    closed spec fn view(&self) -> ClientView {
        ClientView { ip: self.ip, port: self.port, fd: self.fd, state: self.state, counters: self.counters }
    }
}

impl RecoveryClient {
    /// A client of `ip:port` over socket `fd`: connected when a socket could be opened,
    /// disconnected otherwise.
    pub fn with_socket(ip: [u8; 4], port: u16, fd: Option<i32>) -> (c: Self)
        ensures
            c@ == (ClientView {
                ip,
                port,
                fd,
                state: if fd is Some {
                    ClientState::Connected
                } else {
                    ClientState::Disconnected
                },
                counters: RecoveryCounters { requests_sent: 0, packets_received: 0, socket_errors: 0 },
            }),
    {
        let state = if fd.is_some() {
            ClientState::Connected
        } else {
            ClientState::Disconnected
        };
        RecoveryClient { ip, port, fd, state, counters: RecoveryCounters::default() }
    }

    pub fn state(&self) -> (r: ClientState)
        ensures
            r == self@.state,
    {
        self.state
    }

    pub fn counters(&self) -> (r: &RecoveryCounters)
        ensures
            *r == self@.counters,
    {
        &self.counters
    }

    /// The socket, while one is open.
    pub fn fd(&self) -> (r: Option<i32>)
        ensures
            r == self@.fd,
    {
        self.fd
    }

    pub fn ip(&self) -> (r: [u8; 4])
        ensures
            r == self@.ip,
    {
        self.ip
    }

    pub fn port(&self) -> (r: u16)
        ensures
            r == self@.port,
    {
        self.port
    }

    /// The request for `count` messages from `from_seq` in `session`, when a socket is
    /// open to send it on.
    pub fn request_frame(&self, session: &[u8; 10], from_seq: u64, count: u16) -> (r: Option<[u8; REQUEST_LEN]>)
        requires
            count >= 1,
        ensures
            self@.fd is None ==> r is None,
            self@.fd is Some ==> (r matches Some(b) && b@ == header_bytes(session@, from_seq, count)),
    {
        if self.fd.is_some() {
            let mut req_buf = [0u8; REQUEST_LEN];
            encode_request(session, from_seq, count, &mut req_buf);
            Some(req_buf)
        } else {
            None
        }
    }

    /// Records the result of sending a request: a positive byte count is a request sent,
    /// anything else a socket error.
    pub fn record_send(&mut self, res: isize)
        ensures
            final(self)@ == (ClientView {
                counters: if res > 0 {
                    RecoveryCounters {
                        requests_sent: old(self)@.counters.requests_sent.wrapping_add(1),
                        ..old(self)@.counters
                    }
                } else {
                    RecoveryCounters {
                        socket_errors: old(self)@.counters.socket_errors.wrapping_add(1),
                        ..old(self)@.counters
                    }
                },
                ..old(self)@
            }),
    {
        if res > 0 {
            self.counters.requests_sent = self.counters.requests_sent.wrapping_add(1);
        } else {
            self.counters.socket_errors = self.counters.socket_errors.wrapping_add(1);
        }
    }

    /// Records the result of a receive: a positive byte count is a packet of that many
    /// bytes, anything else no packet.
    pub fn record_recv(&mut self, n: isize) -> (r: Option<usize>)
        ensures
            n > 0 ==> r == Some(n as usize) && final(self)@ == (ClientView {
                counters: RecoveryCounters {
                    packets_received: old(self)@.counters.packets_received.wrapping_add(1),
                    ..old(self)@.counters
                },
                ..old(self)@
            }),
            n <= 0 ==> r is None && final(self)@ == old(self)@,
    {
        if n > 0 {
            self.counters.packets_received = self.counters.packets_received.wrapping_add(1);
            Some(n as usize)
        } else {
            None
        }
    }

    /// Kept for callers that poll the client; there is nothing to do.
    pub fn poll(&mut self)
        ensures
            final(self)@ == old(self)@,
    {
    }

    /// Forgets the socket (returned for the caller to close) and disconnects.
    pub fn disconnect(&mut self) -> (r: Option<i32>)
        ensures
            r == old(self)@.fd,
            final(self)@ == (ClientView { fd: None, state: ClientState::Disconnected, ..old(self)@ }),
    {
        let fd = self.fd;
        self.fd = None;
        self.state = ClientState::Disconnected;
        fd
    }
}

} // verus!
