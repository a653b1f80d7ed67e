//! Confluence sinks: a golden-hash fold of the message stream, and a sink that
//! also checks the stream's grammar (generation law, one-by-one sequence numbers,
//! gap pairing).

use vstd::prelude::*;
use crate::arbitrator::conformance::{item_ok, item_update, StreamCheck};
use crate::arbitrator::types::{Event, LiveFeedProof, Sink, SinkItem};
use crate::protocol::bytes::{be_u16, u16_le_bytes, u16_to_le};
use crate::testkit::golden::{fnv_bytes, fnv_fold, golden_msg, golden_walk, FNV_OFFSET};

verus! {

/// The messages of a `[u16 BE len][msg]...` stream, in order, up to the first block that
/// does not fit.
pub open spec fn stream_msgs(rest: Seq<u8>) -> Seq<Seq<u8>>
    decreases rest.len(),
{
    if rest.len() < 2 {
        Seq::empty()
    } else {
        let len = be_u16(rest[0], rest[1]) as int;
        if rest.len() - 2 < len {
            Seq::empty()
        } else {
            seq![rest.subrange(2, 2 + len)] + stream_msgs(rest.skip(2 + len))
        }
    }
}

/// The hash after folding `msgs` one by one, in order, from `h`.
pub open spec fn fold_all(h: u64, msgs: Seq<Seq<u8>>) -> u64
    decreases msgs.len(),
{
    if msgs.len() == 0 {
        h
    } else {
        fold_all(fold_msg_hash(h, msgs[0]), msgs.drop_first())
    }
}

/// The golden walk hashes the stream's messages exactly as a sink folds them.
pub proof fn lemma_walk_is_fold(rest: Seq<u8>, h: u64, seq: u64, limit: nat)
    requires
        limit >= rest.len(),
    ensures
        golden_walk(rest, h, seq, limit).0 == fold_all(h, stream_msgs(rest)),
    decreases rest.len(),
{
    if rest.len() >= 2 {
        let len = be_u16(rest[0], rest[1]) as int;
        if rest.len() - 2 >= len {
            let m = rest.subrange(2, 2 + len);
            lemma_walk_is_fold(rest.skip(2 + len), golden_msg(h, m), (seq + 1) as u64, (limit - 1) as nat);
            let ms = seq![m] + stream_msgs(rest.skip(2 + len));
            assert(ms[0] == m);
            assert(ms.drop_first() =~= stream_msgs(rest.skip(2 + len)));
        }
    }
}

/// A sink that folds every message of a ground-truth stream once, in order, from the
/// initial hash, reaches the stream's golden hash.
pub proof fn law_sink_fold_is_golden(gt: Seq<u8>)
    ensures
        golden_walk(gt, FNV_OFFSET, 1, gt.len()).0 == fold_all(FNV_OFFSET, stream_msgs(gt)),
{
    lemma_walk_is_fold(gt, FNV_OFFSET, 1, gt.len());
}

/// The hash after folding one message: its length (little-endian `u16`), then its bytes.
pub open spec fn fold_msg_hash(h: u64, msg: Seq<u8>) -> u64 {
    fnv_fold(fnv_fold(h, u16_le_bytes(msg.len() as u16)), msg)
}

/// Folds all emitted messages into the canonical FNV-1a-64 hash.
#[derive(Clone, Copy)]
pub struct HashSink {
    pub hash: u64,
    pub count: u64,
    /// Everything this sink has received, in order.
    pub log: Ghost<Seq<SinkItem>>,
}

impl HashSink {
    pub fn new() -> (s: Self)
        ensures
            s.hash == FNV_OFFSET,
            s.count == 0,
            s.items() == Seq::<SinkItem>::empty(),
    {
        HashSink { hash: FNV_OFFSET, count: 0, log: Ghost(Seq::empty()) }
    }

    /// Folds one message into the hash and counts it (the count starts again from zero
    /// past `u64::MAX`).
    pub fn fold_msg(&mut self, seq: u64, msg: &[u8])
        ensures
            final(self).hash == fold_msg_hash(old(self).hash, msg@),
            final(self).count == old(self).count.wrapping_add(1),
            final(self).items() == old(self).items(),
    {
        self.hash = fnv_bytes(self.hash, &u16_to_le(msg.len() as u16));
        self.hash = fnv_bytes(self.hash, msg);
        self.count = self.count.wrapping_add(1);
    }
}

impl Default for HashSink {
    fn default() -> (s: Self)
        ensures
            s.hash == FNV_OFFSET,
            s.count == 0,
            s.items() == Seq::<SinkItem>::empty(),
    {
        Self::new()
    }
}

impl Sink for HashSink {
    open spec fn items(&self) -> Seq<SinkItem> {
        self.log@
    }

    fn on_msg(&mut self, proof: &LiveFeedProof, seq: u64, msg: &[u8])
        ensures
            final(self).hash == fold_msg_hash(old(self).hash, msg@),
            final(self).count == old(self).count.wrapping_add(1),
    {
        self.fold_msg(seq, msg);
        proof {
            self.log@ = self.log@.push(SinkItem::Msg { gen: proof.era(), seq, data: msg@ });
        }
    }

    fn on_event(&mut self, ev: &Event)
        ensures
            final(self).hash == old(self).hash,
            final(self).count == old(self).count,
    {
        proof {
            self.log@ = self.log@.push(SinkItem::Ev(*ev));
        }
    }
}

/// Checks every item against the stream grammar while folding the golden hash.
/// Items that break the grammar are counted in `violations`.
#[derive(Clone)]
pub struct ConformanceSink {
    pub hash_sink: HashSink,
    pub last_gen: u64,
    pub gap_open_gen: Option<u64>,
    pub gap_open_from: Option<u64>,
    pub gap_opens: u64,
    pub reanchors: u64,
    pub session_boundaries: u64,
    pub end_of_sessions: u64,
    pub session_deads: u64,
    pub last_seq: u64,
    pub violations: u64,
    /// Everything this sink has received, in order.
    pub log: Ghost<Seq<SinkItem>>,
}

impl ConformanceSink {
    /// What the grammar check remembers.
    pub open spec fn check_state(&self) -> StreamCheck {
        StreamCheck {
            last_gen: self.last_gen,
            gap_gen: self.gap_open_gen,
            gap_from: self.gap_open_from,
            last_seq: self.last_seq,
        }
    }

    /// `violations` after `item`.
    pub open spec fn violations_after(&self, item: SinkItem) -> u64 {
        if item_ok(self.check_state(), item) {
            self.violations
        } else {
            self.violations.wrapping_add(1)
        }
    }

    pub fn new() -> (s: Self)
        ensures
            s.hash_sink.hash == FNV_OFFSET && s.hash_sink.count == 0,
            s.check_state() == (StreamCheck { last_gen: 0, gap_gen: None, gap_from: None, last_seq: 0 }),
            s.gap_opens == 0 && s.reanchors == 0 && s.session_boundaries == 0,
            s.end_of_sessions == 0 && s.session_deads == 0 && s.violations == 0,
            s.items() == Seq::<SinkItem>::empty(),
    {
        ConformanceSink {
            hash_sink: HashSink::new(),
            last_gen: 0,
            gap_open_gen: None,
            gap_open_from: None,
            gap_opens: 0,
            reanchors: 0,
            session_boundaries: 0,
            end_of_sessions: 0,
            session_deads: 0,
            last_seq: 0,
            violations: 0,
            log: Ghost(Seq::empty()),
        }
    }

    pub fn hash(&self) -> (r: u64)
        ensures
            r == self.hash_sink.hash,
    {
        self.hash_sink.hash
    }

    pub fn count(&self) -> (r: u64)
        ensures
            r == self.hash_sink.count,
    {
        self.hash_sink.count
    }
}

impl Default for ConformanceSink {
    fn default() -> (s: Self)
        ensures
            s.hash_sink.hash == FNV_OFFSET && s.hash_sink.count == 0,
            s.check_state() == (StreamCheck { last_gen: 0, gap_gen: None, gap_from: None, last_seq: 0 }),
            s.violations == 0,
            s.items() == Seq::<SinkItem>::empty(),
    {
        Self::new()
    }
}

impl Sink for ConformanceSink {
    open spec fn items(&self) -> Seq<SinkItem> {
        self.log@
    }

    fn on_msg(&mut self, proof: &LiveFeedProof, seq: u64, msg: &[u8])
        ensures
            ({
                let item = SinkItem::Msg { gen: proof.era(), seq, data: msg@ };
                &&& final(self).check_state() == item_update(old(self).check_state(), item)
                &&& final(self).violations == old(self).violations_after(item)
            }),
            final(self).hash_sink.hash == fold_msg_hash(old(self).hash_sink.hash, msg@),
            final(self).hash_sink.count == old(self).hash_sink.count.wrapping_add(1),
            final(self).gap_opens == old(self).gap_opens,
            final(self).reanchors == old(self).reanchors,
            final(self).session_boundaries == old(self).session_boundaries,
            final(self).end_of_sessions == old(self).end_of_sessions,
            final(self).session_deads == old(self).session_deads,
    {
        let gen = proof.gen();
        let in_order = self.last_seq == 0 || (self.last_seq < u64::MAX && seq == self.last_seq + 1);
        if !(gen >= self.last_gen && in_order) {
            self.violations = self.violations.wrapping_add(1);
        }
        self.last_seq = seq;
        self.hash_sink.fold_msg(seq, msg);
        proof {
            self.log@ = self.log@.push(SinkItem::Msg { gen: proof.era(), seq, data: msg@ });
        }
    }

    fn on_event(&mut self, ev: &Event)
        ensures
            final(self).check_state() == item_update(old(self).check_state(), SinkItem::Ev(*ev)),
            final(self).violations == old(self).violations_after(SinkItem::Ev(*ev)),
            final(self).hash_sink.hash == old(self).hash_sink.hash,
            final(self).hash_sink.count == old(self).hash_sink.count,
            final(self).gap_opens == (if ev is GapOpened {
                old(self).gap_opens.wrapping_add(1)
            } else {
                old(self).gap_opens
            }),
            final(self).reanchors == (if ev is ReAnchored {
                old(self).reanchors.wrapping_add(1)
            } else {
                old(self).reanchors
            }),
            final(self).session_boundaries == (if ev is SessionBoundary {
                old(self).session_boundaries.wrapping_add(1)
            } else {
                old(self).session_boundaries
            }),
            final(self).end_of_sessions == (if ev is EndOfSession {
                old(self).end_of_sessions.wrapping_add(1)
            } else {
                old(self).end_of_sessions
            }),
            final(self).session_deads == (if ev is SessionDead {
                old(self).session_deads.wrapping_add(1)
            } else {
                old(self).session_deads
            }),
    {
        match *ev {
            Event::GapOpened { from, ahead: _, gen } => {
                if !(gen > self.last_gen && self.gap_open_gen.is_none()) {
                    self.violations = self.violations.wrapping_add(1);
                }
                self.last_gen = gen;
                self.gap_open_gen = Some(gen);
                self.gap_open_from = Some(from);
                self.gap_opens = self.gap_opens.wrapping_add(1);
            },
            Event::ReAnchored { gen, at } => {
                let same_gap = match self.gap_open_gen {
                    Some(g) => g == gen,
                    None => false,
                };
                let after_start = match self.gap_open_from {
                    Some(f) => at >= f,
                    None => true,
                };
                if !(same_gap && after_start) {
                    self.violations = self.violations.wrapping_add(1);
                }
                self.gap_open_gen = None;
                self.gap_open_from = None;
                self.reanchors = self.reanchors.wrapping_add(1);
            },
            Event::SessionBoundary { prev: _, next: _, gen } => {
                if !(gen > self.last_gen) {
                    self.violations = self.violations.wrapping_add(1);
                }
                self.last_gen = gen;
                self.gap_open_gen = None;
                self.gap_open_from = None;
                self.session_boundaries = self.session_boundaries.wrapping_add(1);
                self.last_seq = 0;
            },
            Event::EndOfSession { .. } => {
                self.gap_open_gen = None;
                self.gap_open_from = None;
                self.end_of_sessions = self.end_of_sessions.wrapping_add(1);
            },
            Event::SessionDead { .. } => {
                self.gap_open_gen = None;
                self.gap_open_from = None;
                self.session_deads = self.session_deads.wrapping_add(1);
            },
        }
        proof {
            self.log@ = self.log@.push(SinkItem::Ev(*ev));
        }
    }
}

} // verus!
