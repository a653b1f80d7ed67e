//! Macro state machine of the sequencer.

use vstd::prelude::*;

verus! {

#[derive(Debug, Clone, Copy, PartialEq, Eq, Structural)]
pub enum State {
    /// Initial unanchored state before the first data packet of a session.
    Init,
    /// Contiguous in-order stream (steady state).
    Contig,
    /// Gap opened: staging disordered packets.
    Gap,
    /// End-of-session persist train.
    EosPersist,
    /// End of session reached for the current session.
    Ended,
    /// Permanently sealed.
    Dead,
}

} // verus!
