//! Types, events, proofs of contiguity, and the sink that receives the output stream.

use vstd::prelude::*;

verus! {

pub type FeedId = u8;

/// Proof that a message was emitted from the contiguous sequence path; minted only
/// during in-order frame emission or in-order drain.
#[derive(Debug, PartialEq, Eq)]
pub struct LiveFeedProof {
    gen: u64,
}

impl LiveFeedProof {
    /// The proof era this proof was minted in.
    pub closed spec fn era(&self) -> u64 {
        self.gen
    }

    pub(crate) fn mint(gen: u64) -> (p: Self)
        ensures
            p.era() == gen,
    {
        LiveFeedProof { gen }
    }

    /// Returns the proof era generation counter.
    pub fn gen(&self) -> (g: u64)
        ensures
            g == self.era(),
    {
        self.gen
    }
}

/// Sequencer lifecycle and control plane events.
#[derive(Debug, Clone, Copy, PartialEq, Eq)]
pub enum Event {
    GapOpened { from: u64, ahead: Option<u64>, gen: u64 },
    ReAnchored { gen: u64, at: u64 },
    SessionBoundary { prev: [u8; 10], next: [u8; 10], gen: u64 },
    EndOfSession { session: [u8; 10], final_wm: u64, announced_next: u64 },
    SessionDead { reason: DeadReason, last_wm: u64 },
}

#[derive(Debug, Clone, Copy, PartialEq, Eq, Structural)]
pub enum DeadReason {
    RetryExhausted,
    TcpUnreachable,
    Sealed,
}

/// Mutation modes for differential oracle validation; each injects one known bug.
#[derive(Debug, Clone, Copy, PartialEq, Eq, Structural)]
pub enum SequencerMutation {
    /// No bug injected.
    NoMutation,
    /// Zombie class: stale staged slots survive an in-order advance.
    DisableClearOnAdvance,
    /// Off-by-one clamp: only half the window is used for staging.
    OffByOneClamp,
    /// Drops the staged window when end of session arrives.
    DropStagedAtEos,
}

impl Default for SequencerMutation {
    fn default() -> (m: Self)
        ensures
            m == SequencerMutation::NoMutation,
    {
        SequencerMutation::NoMutation
    }
}

/// Outstanding gap recovery intent: request `[from, to_excl)`.
#[derive(Debug, Clone, Copy, PartialEq, Eq, Structural)]
pub struct RecoveryIntent {
    pub from: u64,
    pub to_excl: u64,
}

/// One item of the stream a sink receives.
pub enum SinkItem {
    Msg { gen: u64, seq: u64, data: Seq<u8> },
    Ev(Event),
}

/// Consumer of the sequencer's output: contiguous messages with their proof, and
/// control-plane events. Single-threaded fold target.
pub trait Sink {
    /// Everything received so far, in order. Every sink in this library defines it; the
    /// default only lets sinks written outside verified code (which implement the two
    /// methods alone) compile. A verified sink cannot keep it, since with an empty
    /// stream it could not meet the contracts of `on_msg` and `on_event`.
    open spec fn items(&self) -> Seq<SinkItem> {
        Seq::empty()
    }

    /// Invoked per contiguous message with valid proof.
    fn on_msg(&mut self, proof: &LiveFeedProof, seq: u64, msg: &[u8])
        ensures
            final(self).items() == old(self).items().push(
                SinkItem::Msg { gen: proof.era(), seq, data: msg@ },
            ),
    ;

    /// Invoked per control-plane event.
    fn on_event(&mut self, ev: &Event)
        ensures
            final(self).items() == old(self).items().push(SinkItem::Ev(*ev)),
    ;
}

} // verus!
