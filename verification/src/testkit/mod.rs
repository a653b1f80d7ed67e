//! Test and harness support: the golden hash walker, confluence sinks, the
//! independent reference arbitrator, the deterministic replay scheduler, and the
//! answers of the fake and the grammar-only retransmission servers.

pub mod fakeserver;
pub mod golden;
pub mod oracle;
pub mod reference;
pub mod sink;
pub mod spec_server;
pub mod sched;
