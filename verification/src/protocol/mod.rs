//! Wire formats: ITCH 5.0 payload lengths, MoldUDP64 framing, fused validation,
//! and the performance gate thresholds.

pub mod bytes;
pub mod gates;
pub mod itch5;
pub mod moldudp64;
pub mod packet;

use vstd::prelude::*;

verus! {

/// Largest payload slot the arbitrator's window keeps per message.
pub const MAX_MSG_LEN: usize = 64;

} // verus!
