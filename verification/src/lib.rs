//! Market-data feed handling: MoldUDP64 framing and ITCH 5.0 payload checks,
//! the A/B feed arbitrator, replay scheduling and rendering, and audit tools.

pub mod protocol;
pub mod arbitrator;
pub mod testkit;
pub mod engine;
pub mod transport;
pub mod recovery;
