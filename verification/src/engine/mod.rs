//! Engine-side tools: the zero-allocation latency histogram, the ITCH stream audit,
//! the tail attribution study, and the replay configuration file.

pub mod audit;
pub mod histogram;
pub mod replay_config;
pub mod tail_study;
