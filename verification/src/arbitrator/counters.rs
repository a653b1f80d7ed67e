//! Sequencer telemetry counters. Copy structs; no allocation.
//!
//! Counters advance with wrapping arithmetic: a counter that has reached `u64::MAX`
//! starts again from zero.

use vstd::prelude::*;
use crate::arbitrator::types::FeedId;
use crate::protocol::moldudp64::FrameError;
use crate::protocol::packet::PacketError;

verus! {

#[derive(Debug, Clone, Copy, Default, PartialEq, Eq)]
pub struct FeedCounters {
    pub packets: u64,
    pub dups: u64,
    pub bytes: u64,
}

#[derive(Debug, Clone, Copy, Default, PartialEq, Eq)]
pub struct ViolationCounters {
    pub truncated: u64,
    pub trailing_bytes: u64,
    pub block_overrun: u64,
    pub zero_length_message: u64,
    pub seq_overflow: u64,
    pub payload_invalid: u64,
    pub other: u64,
}

/// `x + 1`, starting again from zero past `u64::MAX`.
pub open spec fn inc(x: u64) -> u64 {
    x.wrapping_add(1)
}

/// The violation counters after one frame error of the kind of `err`.
pub open spec fn after_frame_error(v: ViolationCounters, err: FrameError) -> ViolationCounters {
    match err {
        FrameError::Truncated { .. } => ViolationCounters { truncated: inc(v.truncated), ..v },
        FrameError::TrailingBytes { .. } => ViolationCounters {
            trailing_bytes: inc(v.trailing_bytes),
            ..v
        },
        FrameError::BlockOverrun => ViolationCounters { block_overrun: inc(v.block_overrun), ..v },
        FrameError::ZeroLengthMessage => ViolationCounters {
            zero_length_message: inc(v.zero_length_message),
            ..v
        },
        FrameError::SeqOverflow => ViolationCounters { seq_overflow: inc(v.seq_overflow), ..v },
    }
}

/// The violation counters after one packet error of the kind of `err`.
pub open spec fn after_packet_error(v: ViolationCounters, err: PacketError) -> ViolationCounters {
    match err {
        PacketError::Framing(fe) => after_frame_error(v, fe),
        PacketError::Payload(_) => ViolationCounters { payload_invalid: inc(v.payload_invalid), ..v },
    }
}

impl ViolationCounters {
    /// Counts one frame error under its kind.
    pub fn record_frame_error(&mut self, err: FrameError)
        ensures
            *final(self) == after_frame_error(*old(self), err),
    {
        match err {
            FrameError::Truncated { .. } => self.truncated = self.truncated.wrapping_add(1),
            FrameError::TrailingBytes { .. } => self.trailing_bytes = self.trailing_bytes.wrapping_add(1),
            FrameError::BlockOverrun => self.block_overrun = self.block_overrun.wrapping_add(1),
            FrameError::ZeroLengthMessage => self.zero_length_message = self.zero_length_message.wrapping_add(1),
            FrameError::SeqOverflow => self.seq_overflow = self.seq_overflow.wrapping_add(1),
        }
    }

    /// Counts one packet error: framing errors by kind, payload errors together.
    pub fn record_packet_error(&mut self, err: PacketError)
        ensures
            *final(self) == after_packet_error(*old(self), err),
    {
        match err {
            PacketError::Framing(fe) => self.record_frame_error(fe),
            PacketError::Payload(_) => self.payload_invalid = self.payload_invalid.wrapping_add(1),
        }
    }
}

#[derive(Debug, Clone, Copy, Default, PartialEq, Eq)]
pub struct Counters {
    pub feed_a: FeedCounters,
    pub feed_b: FeedCounters,
    pub violations: ViolationCounters,
    pub total_violations: u64,
    pub staged_msgs: u64,
    pub dup_msgs: u64,
    pub beyond_window_dropped: u64,
    pub window_flushed: u64,
    pub gap_opens: u64,
    pub reanchors: u64,
    pub heartbeats: u64,
    pub eos_seen: u64,
    pub eos_dup: u64,
    pub sessions: u64,
    pub data_after_eos: u64,
    pub ignored_after_dead: u64,
    pub intents_issued: u64,
    pub msgs_emitted: u64,
}

/// Even feed ids count as feed A, odd ones as feed B.
pub open spec fn is_feed_a(feed: FeedId) -> bool {
    feed % 2 == 0
}

/// The counters of the feed that `feed` names.
pub open spec fn feed_of(c: Counters, feed: FeedId) -> FeedCounters {
    if is_feed_a(feed) {
        c.feed_a
    } else {
        c.feed_b
    }
}

/// `c` with the counters of the feed that `feed` names replaced by `f`.
pub open spec fn with_feed(c: Counters, feed: FeedId, f: FeedCounters) -> Counters {
    if is_feed_a(feed) {
        Counters { feed_a: f, ..c }
    } else {
        Counters { feed_b: f, ..c }
    }
}

/// The all-zero counters.
pub open spec fn zero_counters() -> Counters {
    let f = FeedCounters { packets: 0, dups: 0, bytes: 0 };
    Counters {
        feed_a: f,
        feed_b: f,
        violations: ViolationCounters {
            truncated: 0,
            trailing_bytes: 0,
            block_overrun: 0,
            zero_length_message: 0,
            seq_overflow: 0,
            payload_invalid: 0,
            other: 0,
        },
        total_violations: 0,
        staged_msgs: 0,
        dup_msgs: 0,
        beyond_window_dropped: 0,
        window_flushed: 0,
        gap_opens: 0,
        reanchors: 0,
        heartbeats: 0,
        eos_seen: 0,
        eos_dup: 0,
        sessions: 0,
        data_after_eos: 0,
        ignored_after_dead: 0,
        intents_issued: 0,
        msgs_emitted: 0,
    }
}

impl Counters {
    /// The all-zero counters.
    pub fn zeroed() -> (c: Self)
        ensures
            c == zero_counters(),
    {
        let f = FeedCounters { packets: 0, dups: 0, bytes: 0 };
        Counters {
            feed_a: f,
            feed_b: f,
            violations: ViolationCounters {
                truncated: 0,
                trailing_bytes: 0,
                block_overrun: 0,
                zero_length_message: 0,
                seq_overflow: 0,
                payload_invalid: 0,
                other: 0,
            },
            total_violations: 0,
            staged_msgs: 0,
            dup_msgs: 0,
            beyond_window_dropped: 0,
            window_flushed: 0,
            gap_opens: 0,
            reanchors: 0,
            heartbeats: 0,
            eos_seen: 0,
            eos_dup: 0,
            sessions: 0,
            data_after_eos: 0,
            ignored_after_dead: 0,
            intents_issued: 0,
            msgs_emitted: 0,
        }
    }

    /// The counters of one feed, for update: even ids are feed A, odd ids feed B.
    pub fn feed_mut(&mut self, feed: FeedId) -> (r: &mut FeedCounters)
        ensures
            *r == feed_of(*old(self), feed),
            *final(self) == with_feed(*old(self), feed, *final(r)),
    {
        if (feed & 1) == 0 {
            proof {
                assert((feed & 1) == 0 <==> feed % 2 == 0) by (bit_vector);
            }
            &mut self.feed_a
        } else {
            proof {
                assert((feed & 1) == 0 <==> feed % 2 == 0) by (bit_vector);
            }
            &mut self.feed_b
        }
    }

    /// The counters of one feed: even ids are feed A, odd ids feed B.
    pub fn feed(&self, feed: FeedId) -> (r: &FeedCounters)
        ensures
            *r == feed_of(*self, feed),
    {
        proof {
            assert((feed & 1) == 0 <==> feed % 2 == 0) by (bit_vector);
        }
        if (feed & 1) == 0 {
            &self.feed_a
        } else {
            &self.feed_b
        }
    }
}

} // verus!
