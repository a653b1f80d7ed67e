//! The A/B feed arbitrator: a sequencer that merges duplicate feeds into one
//! contiguous, exactly-once message stream with gap detection and recovery intents.

pub mod conformance;
pub mod counters;
pub mod fidelity;
pub mod evidence_law;
pub mod gap;
pub mod gen_law;
pub mod intent;
pub mod intent_law;
pub mod sequencer;
pub mod session;
pub mod state;
pub mod transition;
pub mod types;
pub mod window;
pub mod window_law;

pub use counters::{Counters, FeedCounters, ViolationCounters};
pub use sequencer::Sequencer;
pub use state::State;
pub use types::{DeadReason, Event, FeedId, LiveFeedProof, RecoveryIntent, SequencerMutation, Sink};
