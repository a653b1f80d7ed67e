//! Recovery client side: the client's connection state and counters, the requests it
//! sends and what it records of each send and receive, and the command a recovery
//! intent is published as.

pub mod channel;
pub mod client;
pub mod retry;
pub mod types;
