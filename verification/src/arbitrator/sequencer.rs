//! The sequencer: merges the A and B copies of a MoldUDP64 feed into one contiguous,
//! exactly-once message stream, staging out-of-order messages in a 1024-slot window.

use vstd::prelude::*;
use crate::arbitrator::counters::{
    after_frame_error, after_packet_error, feed_of, inc, with_feed, zero_counters, Counters,
    FeedCounters, ViolationCounters,
};
use crate::arbitrator::gap::{check_gap_close, gap_evidence, gap_close_effect, gap_evidence_effect};
use crate::arbitrator::intent::{check_recovery_intent, intent_effect};
use crate::arbitrator::session::{
    clear_window, eos_effect, handle_eos, handle_heartbeat, heartbeat_effect, is_unset, seal_effect,
    session_dispatch,
};
use crate::arbitrator::state::State;
use crate::arbitrator::transition::{
    after_end, classic_apply, classic_data, close_step, contig_finish, contig_step, gap_finish,
    indexed_apply, indexed_data, count_arrival, dispatch_step, drain_step, emit_run,
    entry_step, eos_step, frame_header, frame_prelude, gap_step, heartbeat_step, indexed_blocks,
    settle_pending, spec_ingest, spec_ingest_indexed, stage_run, triples_fit, view_wf, violated,
    walk_error, SequencerView,
};
use crate::arbitrator::types::{DeadReason, FeedId, LiveFeedProof, RecoveryIntent, SequencerMutation, Sink, SinkItem};
use crate::arbitrator::window::{
    clear_effect, clear_slots, drain, drain_effect, empty_window, lemma_occupied_bound,
    lemma_occupied_zeros, occupied, stage_effect, stage_msg, ARENA_SIZE, WINDOW_SLOTS,
};
use crate::protocol::bytes::{be_u16, read_be_u16};
use crate::protocol::itch5::{self, spec_validate, ItchError};
use crate::protocol::moldudp64::{
    self, header_matches, span_of, FrameError, Header, EOS_COUNT, HEADER_LEN, HEARTBEAT_COUNT,
};
use crate::protocol::packet::{
    block_end, lemma_lenient_end, lemma_lenient_step, lenient_blocks, numbered_visits, PacketError,
};

verus! {

pub struct Sequencer {
    /// Watermark: the next expected sequence number.
    w: u64,
    /// Proof era counter.
    gen: u64,
    session: [u8; 10],
    state: State,
    gap_active: bool,
    /// Highest sequence number known to have been transmitted while a gap is open.
    evidence_hwm: u64,
    /// Highest staged sequence number (0 = none).
    max_staged: u64,
    staged_count: u32,
    /// Virtual time of the last watermark advance (or anchor).
    progress_vt: u64,
    hb_seq: u64,
    /// Virtual time of the last heartbeat evidence beyond the watermark.
    hb_vt: u64,
    /// Outstanding recovery intent, exclusive end.
    pending_to: Option<u64>,
    last_intent_vt: u64,
    counters: Counters,
    /// Test-only mutation mode.
    pub mutation: SequencerMutation,
    /// Slot `i`: 0 = absent, else stored length + 1.
    lens: [u8; WINDOW_SLOTS],
    /// Slot `i` at byte offset `64 * i`.
    arena: [u8; ARENA_SIZE],
}

impl View for Sequencer {
    type V = SequencerView;

    closed spec fn view(&self) -> SequencerView {
        SequencerView {
            w: self.w,
            gen: self.gen,
            session: self.session,
            state: self.state,
            gap_active: self.gap_active,
            evidence_hwm: self.evidence_hwm,
            max_staged: self.max_staged,
            staged_count: self.staged_count,
            progress_vt: self.progress_vt,
            hb_seq: self.hb_seq,
            hb_vt: self.hb_vt,
            pending_to: self.pending_to,
            last_intent_vt: self.last_intent_vt,
            counters: self.counters,
            mutation: self.mutation,
            lens: self.lens@,
            arena: self.arena@,
        }
    }
}

/// A freshly made sequencer with mutation mode `m`: everything zero, no session, `Init`.
pub open spec fn is_fresh(v: SequencerView, m: SequencerMutation) -> bool {
    &&& v.w == 0 && v.gen == 0 && is_unset(v.session) && v.state == State::Init
    &&& !v.gap_active && v.evidence_hwm == 0 && v.max_staged == 0 && v.staged_count == 0
    &&& v.progress_vt == 0 && v.hb_seq == 0 && v.hb_vt == 0 && v.pending_to is None
    &&& v.last_intent_vt == 0 && v.counters == zero_counters() && v.mutation == m
    &&& v.lens == empty_window() && v.arena == Seq::new(65536, |i: int| 0u8)
}

/// The header of a frame is the one its first 20 bytes carry.
pub proof fn lemma_frame_header(h: Header, frame: Seq<u8>)
    requires
        header_matches(h, frame),
    ensures
        frame_header(frame) == h,
{
    let c = frame_header(frame);
    assert(header_matches(c, frame));
    assert(c.session =~= h.session);
}

/// Walks the blocks of `frame`, emitting those past the first `skip` under generation
/// `gen` until the first invalid payload; returns how many it emitted and how the walk
/// ended.
fn emit_blocks<S: Sink>(frame: &[u8], first: u64, count: u16, skip: u64, gen: u64, sink: &mut S) -> (r: (
    u64,
    Option<PacketError>,
))
    requires
        frame@.len() >= HEADER_LEN,
    ensures
        ({
            let (ms, ferr) = lenient_blocks(frame@.skip(HEADER_LEN as int), count as nat);
            let (out, perr) = emit_run(numbered_visits(ms, first, skip as nat), gen);
            &&& final(sink).items() == old(sink).items() + out
            &&& r.0 == out.len()
            &&& r.1 == walk_error(perr, ferr)
        }),
{
    let ghost base = sink.items();
    let ghost whole = lenient_blocks(frame@.skip(HEADER_LEN as int), count as nat);
    let ghost target = emit_run(numbered_visits(whole.0, first, skip as nat), gen);
    let proof = LiveFeedProof::mint(gen);
    let mut pos: usize = HEADER_LEN;
    let mut seq = first;
    let mut to_skip = skip;
    let mut i: u16 = 0;
    let mut n: u64 = 0;
    proof {
        assert(sink.items() + target.0 =~= base + target.0);
    }
    while i < count
        invariant
            HEADER_LEN <= pos <= frame@.len(),
            i <= count,
            n <= i,
            proof.era() == gen,
            base == old(sink).items(),
            whole == lenient_blocks(frame@.skip(HEADER_LEN as int), count as nat),
            target == emit_run(numbered_visits(whole.0, first, skip as nat), gen),
            lenient_blocks(frame@.skip(pos as int), (count - i) as nat).1 == whole.1,
            sink.items().len() == base.len() + n,
            ({
                let rest = emit_run(
                    numbered_visits(
                        lenient_blocks(frame@.skip(pos as int), (count - i) as nat).0,
                        seq,
                        to_skip as nat,
                    ),
                    gen,
                );
                &&& sink.items() + rest.0 == base + target.0
                &&& rest.1 == target.1
            }),
        decreases count - i,
    {
        let ghost ms_r = lenient_blocks(frame@.skip(pos as int), (count - i) as nat).0;
        proof {
            lemma_lenient_step(frame@, pos as int, (count - i) as nat);
        }
        let end = match block_end(frame, pos) {
            Ok(e) => e,
            Err(e) => {
                proof {
                    assert(ms_r.len() == 0);
                    assert(sink.items() =~= base + target.0);
                }
                return (n, Some(PacketError::Framing(e)));
            },
        };
        let data = vstd::slice::slice_subrange(frame, pos + 2, end);
        let ghost ms_next = lenient_blocks(frame@.skip(end as int), (count - i - 1) as nat).0;
        proof {
            assert(ms_r =~= seq![data@] + ms_next);
            assert(ms_r.drop_first() =~= ms_next);
        }
        if to_skip > 0 {
            to_skip = to_skip - 1;
        } else {
            let ghost nv = numbered_visits(ms_next, seq.wrapping_add(1), 0);
            proof {
                assert(numbered_visits(ms_r, seq, 0) == seq![(seq, data@)] + nv);
                assert((seq![(seq, data@)] + nv)[0] == (seq, data@));
                assert((seq![(seq, data@)] + nv).drop_first() =~= nv);
            }
            match itch5::validate(data) {
                Err(e) => {
                    proof {
                        assert(sink.items() =~= base + target.0);
                    }
                    return (n, Some(PacketError::Payload(e)));
                },
                Ok(()) => {},
            }
            let ghost before = sink.items();
            sink.on_msg(&proof, seq, data);
            n = n + 1;
            proof {
                let rest = emit_run(nv, gen);
                assert(sink.items() + rest.0 =~= before + (seq![SinkItem::Msg { gen, seq, data: data@ }] + rest.0));
            }
        }
        pos = end;
        seq = seq.wrapping_add(1);
        i = i + 1;
    }
    proof {
        lemma_lenient_end(frame@, pos as int);
        assert(sink.items() =~= base + target.0);
    }
    if pos != frame.len() {
        return (n, Some(PacketError::Framing(FrameError::TrailingBytes { extra: frame.len() - pos })));
    }
    (n, None)
}

/// Emits the blocks that the triples from index `skip` on pick out of `frame`, under
/// generation `gen`, until the first invalid payload; returns how many it emitted and
/// the payload error, if any.
fn emit_triples<S: Sink>(
    frame: &[u8],
    blocks: &[(u64, u32, u32)],
    skip: usize,
    gen: u64,
    sink: &mut S,
) -> (r: (u64, Option<PacketError>))
    requires
        triples_fit(frame@, blocks@),
        skip <= blocks@.len(),
    ensures
        ({
            let (out, perr) = emit_run(indexed_blocks(frame@, blocks@).skip(skip as int), gen);
            &&& final(sink).items() == old(sink).items() + out
            &&& r.0 == out.len()
            &&& r.1 == walk_error(perr, None)
        }),
{
    let ghost base = sink.items();
    let ghost all = indexed_blocks(frame@, blocks@);
    let ghost target = emit_run(all.skip(skip as int), gen);
    let proof = LiveFeedProof::mint(gen);
    let mut j: usize = skip;
    let mut n: u64 = 0;
    proof {
        assert(sink.items() + target.0 =~= base + target.0);
    }
    while j < blocks.len()
        invariant
            skip <= j <= blocks@.len(),
            n == j - skip,
            proof.era() == gen,
            triples_fit(frame@, blocks@),
            base == old(sink).items(),
            all == indexed_blocks(frame@, blocks@),
            target == emit_run(all.skip(skip as int), gen),
            sink.items().len() == base.len() + n,
            ({
                let rest = emit_run(all.skip(j as int), gen);
                &&& sink.items() + rest.0 == base + target.0
                &&& rest.1 == target.1
            }),
        decreases blocks@.len() - j,
    {
        let (seq, start, end) = blocks[j];
        let data = vstd::slice::slice_subrange(frame, start as usize, end as usize);
        let ghost tail = all.skip(j as int);
        proof {
            assert(tail[0] == (seq, data@));
            assert(tail.drop_first() =~= all.skip(j + 1));
        }
        match itch5::validate(data) {
            Err(e) => {
                proof {
                    assert(sink.items() =~= base + target.0);
                }
                return (n, Some(PacketError::Payload(e)));
            },
            Ok(()) => {},
        }
        let ghost before = sink.items();
        sink.on_msg(&proof, seq, data);
        n = n + 1;
        proof {
            let rest = emit_run(all.skip(j + 1), gen);
            assert(sink.items() + rest.0 =~= before + (seq![SinkItem::Msg { gen, seq, data: data@ }] + rest.0));
        }
        j = j + 1;
    }
    proof {
        assert(all.skip(j as int).len() == 0);
        assert(sink.items() =~= base + target.0);
    }
    (n, None)
}

impl Sequencer {
    /// The window invariant holds.
    pub open spec fn wf(&self) -> bool {
        view_wf(self@)
    }

    /// Creates a new sequencer on the heap (one startup allocation).
    pub fn new() -> (s: Box<Self>)
        ensures
            s.wf(),
            is_fresh(s@, SequencerMutation::NoMutation),
    {
        Box::new(Self::new_unboxed())
    }

    /// Creates a new sequencer with a specific test mutation mode.
    pub fn with_mutation(mutation: SequencerMutation) -> (s: Box<Self>)
        ensures
            s.wf(),
            is_fresh(s@, mutation),
    {
        let mut u = Self::new_unboxed();
        u.mutation = mutation;
        Box::new(u)
    }

    /// Creates an unboxed sequencer.
    pub fn new_unboxed() -> (s: Self)
        ensures
            s.wf(),
            is_fresh(s@, SequencerMutation::NoMutation),
    {
        let s = Sequencer {
            w: 0,
            gen: 0,
            session: [0u8; 10],
            state: State::Init,
            gap_active: false,
            evidence_hwm: 0,
            max_staged: 0,
            staged_count: 0,
            progress_vt: 0,
            hb_seq: 0,
            hb_vt: 0,
            pending_to: None,
            last_intent_vt: 0,
            counters: Counters::zeroed(),
            mutation: SequencerMutation::NoMutation,
            lens: [0u8; 1024],
            arena: [0u8; 65536],
        };
        proof {
            lemma_occupied_zeros(1024);
            assert(s.lens@ =~= empty_window());
            assert(s.arena@ =~= Seq::new(65536, |i: int| 0u8));
            assert(s.session@ =~= seq![0u8, 0u8, 0u8, 0u8, 0u8, 0u8, 0u8, 0u8, 0u8, 0u8]);
        }
        s
    }

    /// Ingests one frame received on `feed` at time `now_ns`, emitting to `sink` every
    /// message that becomes contiguous and every control-plane event.
    pub fn ingest<S: Sink>(&mut self, frame: &[u8], feed: FeedId, now_ns: u64, sink: &mut S)
        requires
            old(self).wf(),
        ensures
            final(self).wf(),
            final(self)@ == spec_ingest(old(self)@, frame@, feed, now_ns).0,
            final(sink).items() == old(sink).items() + spec_ingest(old(self)@, frame@, feed, now_ns).1,
    {
        let ghost base = sink.items();
        let hdr = match self.prelude(frame, feed, sink) {
            Some(h) => h,
            None => {
                return;
            },
        };
        let ghost s1 = self@;
        let ghost out1 = sink.items().skip(base.len() as int);
        assert(sink.items() =~= base + out1);
        if hdr.count == HEARTBEAT_COUNT {
            self.heartbeat(hdr.seq, feed, now_ns, sink);
            assert(sink.items() =~= base + (out1 + heartbeat_step(s1, hdr.seq, now_ns).1));
            return;
        }
        if hdr.count == EOS_COUNT {
            self.end_of_session(&hdr, sink);
            assert(sink.items() =~= base + (out1 + eos_step(s1, hdr.seq).1));
            return;
        }
        self.ingest_data(frame, feed, now_ns, &hdr, sink);
        assert(sink.items() =~= base + (out1 + classic_data(s1, frame@, feed, now_ns, hdr).1));
    }

    /// A data frame in a live session, its blocks walked from the frame.
    fn ingest_data<S: Sink>(&mut self, frame: &[u8], feed: FeedId, now_ns: u64, hdr: &Header, sink: &mut S)
        requires
            old(self).wf(),
            frame@.len() >= HEADER_LEN,
        ensures
            final(self).wf(),
            ({
                let (s1, out) = classic_data(old(self)@, frame@, feed, now_ns, *hdr);
                &&& final(self)@ == s1
                &&& final(sink).items() == old(sink).items() + out
            }),
    {
        if self.state == State::Ended {
            self.counters.data_after_eos = self.counters.data_after_eos.wrapping_add(1);
            self.counters.total_violations = self.counters.total_violations.wrapping_add(1);
            assert(sink.items() =~= old(sink).items() + Seq::<SinkItem>::empty());
            return;
        }
        let (first, last) = match hdr.span() {
            Some(sp) => sp,
            None => {
                self.counters.violations.seq_overflow = self.counters.violations.seq_overflow.wrapping_add(1);
                self.counters.total_violations = self.counters.total_violations.wrapping_add(1);
                assert(sink.items() =~= old(sink).items() + Seq::<SinkItem>::empty());
                return;
            },
        };
        if !self.enter(feed, hdr.count, first, last, now_ns) {
            assert(sink.items() =~= old(sink).items() + Seq::<SinkItem>::empty());
            return;
        }
        if first <= self.w {
            self.contig_classic(frame, hdr.count, first, last, now_ns, sink);
        } else {
            self.gap_classic(frame, hdr.count, first, last, now_ns, sink);
        }
    }

    /// A data frame reaching the watermark, its blocks walked from the frame.
    #[verifier::rlimit(50)]
    fn contig_classic<S: Sink>(
        &mut self,
        frame: &[u8],
        count: u16,
        first: u64,
        last: u64,
        now_ns: u64,
        sink: &mut S,
    )
        requires
            old(self).wf(),
            frame@.len() >= HEADER_LEN,
            first <= old(self)@.w,
        ensures
            final(self).wf(),
            ({
                let (s1, out) = classic_apply(old(self)@, frame@, count, first, last, now_ns);
                &&& final(self)@ == s1
                &&& final(sink).items() == old(sink).items() + out
            }),
    {
        let gen = self.gen;
        let d = self.w - first;
        let skip: u64 = if d < count as u64 { d } else { count as u64 };
        if skip != 0 {
            self.counters.dup_msgs = self.counters.dup_msgs.wrapping_add(skip);
        }
        let (n_emit, err) = emit_blocks(frame, first, count, skip, gen, sink);
        self.counters.msgs_emitted = self.counters.msgs_emitted.wrapping_add(n_emit);
        if let Some(e) = err {
            self.counters.violations.record_packet_error(e);
            self.counters.total_violations = self.counters.total_violations.wrapping_add(1);
            return;
        }
        let ghost out3 = sink.items().skip(old(sink).items().len() as int);
        assert(sink.items() =~= old(sink).items() + out3);
        self.finish_contig(last, now_ns, sink);
        proof {
            let (s4, out4) = contig_finish(
                SequencerView { counters: self@.counters, ..old(self)@ },
                last,
                now_ns,
            );
            assert(sink.items() =~= old(sink).items() + (out3 + out4));
        }
    }

    /// A data frame beyond the watermark, its blocks walked from the frame.
    fn gap_classic<S: Sink>(
        &mut self,
        frame: &[u8],
        count: u16,
        first: u64,
        last: u64,
        now_ns: u64,
        sink: &mut S,
    )
        requires
            old(self).wf(),
            frame@.len() >= HEADER_LEN,
            first > old(self)@.w,
        ensures
            final(self).wf(),
            ({
                let (s1, out) = classic_apply(old(self)@, frame@, count, first, last, now_ns);
                &&& final(self)@ == s1
                &&& final(sink).items() == old(sink).items() + out
            }),
    {
        gap_evidence(
            &mut self.gap_active,
            &mut self.gen,
            &mut self.evidence_hwm,
            self.w,
            first,
            &mut self.state,
            &mut self.counters,
            sink,
        );
        let ghost out3 = sink.items().skip(old(sink).items().len() as int);
        assert(sink.items() =~= old(sink).items() + out3);
        let clamp = if self.mutation == SequencerMutation::OffByOneClamp {
            self.w.wrapping_add((WINDOW_SLOTS / 2) as u64)
        } else {
            self.w.wrapping_add(WINDOW_SLOTS as u64)
        };
        let err = self.stage_blocks(frame, first, count, clamp);
        if let Some(e) = err {
            self.counters.violations.record_packet_error(e);
            self.counters.total_violations = self.counters.total_violations.wrapping_add(1);
            return;
        }
        let ghost s3 = self@;
        self.finish_gap(last, now_ns, sink);
        proof {
            let (s4, out4) = gap_finish(s3, last, now_ns);
            assert(sink.items() =~= old(sink).items() + (out3 + out4));
        }
    }

    /// Indexed ingest router: with no triples the frame goes through `ingest`, otherwise
    /// through `ingest_indexed`.
    pub fn ingest_auto<S: Sink>(
        &mut self,
        frame: &[u8],
        feed: FeedId,
        now_ns: u64,
        sink: &mut S,
        blocks: &[(u64, u32, u32)],
    )
        requires
            old(self).wf(),
            triples_fit(frame@, blocks@),
        ensures
            final(self).wf(),
            ({
                let (s1, out) = if blocks@.len() == 0 {
                    spec_ingest(old(self)@, frame@, feed, now_ns)
                } else {
                    spec_ingest_indexed(old(self)@, frame@, feed, now_ns, blocks@)
                };
                &&& final(self)@ == s1
                &&& final(sink).items() == old(sink).items() + out
            }),
    {
        if blocks.len() == 0 {
            self.ingest(frame, feed, now_ns, sink);
        } else {
            self.ingest_indexed(frame, feed, now_ns, sink, blocks);
        }
    }

    /// Indexed fast path: `blocks` carries the frame's `(seq, start, end)` triples, so no
    /// length-prefix chain is walked; only the header is decoded.
    pub fn ingest_indexed<S: Sink>(
        &mut self,
        frame: &[u8],
        feed: FeedId,
        now_ns: u64,
        sink: &mut S,
        blocks: &[(u64, u32, u32)],
    )
        requires
            old(self).wf(),
            triples_fit(frame@, blocks@),
        ensures
            final(self).wf(),
            final(self)@ == spec_ingest_indexed(old(self)@, frame@, feed, now_ns, blocks@).0,
            final(sink).items() == old(sink).items() + spec_ingest_indexed(
                old(self)@,
                frame@,
                feed,
                now_ns,
                blocks@,
            ).1,
    {
        let ghost base = sink.items();
        let hdr = match self.prelude(frame, feed, sink) {
            Some(h) => h,
            None => {
                return;
            },
        };
        let ghost s1 = self@;
        let ghost out1 = sink.items().skip(base.len() as int);
        assert(sink.items() =~= base + out1);
        if hdr.count == HEARTBEAT_COUNT {
            self.heartbeat(hdr.seq, feed, now_ns, sink);
            assert(sink.items() =~= base + (out1 + heartbeat_step(s1, hdr.seq, now_ns).1));
            return;
        }
        if hdr.count == EOS_COUNT {
            self.end_of_session(&hdr, sink);
            assert(sink.items() =~= base + (out1 + eos_step(s1, hdr.seq).1));
            return;
        }
        self.ingest_data_indexed(frame, feed, now_ns, &hdr, blocks, sink);
        assert(sink.items() =~= base + (out1 + indexed_data(s1, frame@, feed, now_ns, hdr, blocks@).1));
    }

    /// A data frame in a live session, its blocks taken from the triples.
    fn ingest_data_indexed<S: Sink>(
        &mut self,
        frame: &[u8],
        feed: FeedId,
        now_ns: u64,
        hdr: &Header,
        blocks: &[(u64, u32, u32)],
        sink: &mut S,
    )
        requires
            old(self).wf(),
            triples_fit(frame@, blocks@),
        ensures
            final(self).wf(),
            ({
                let (s1, out) = indexed_data(old(self)@, frame@, feed, now_ns, *hdr, blocks@);
                &&& final(self)@ == s1
                &&& final(sink).items() == old(sink).items() + out
            }),
    {
        if self.state == State::Ended {
            self.counters.data_after_eos = self.counters.data_after_eos.wrapping_add(1);
            self.counters.total_violations = self.counters.total_violations.wrapping_add(1);
            assert(sink.items() =~= old(sink).items() + Seq::<SinkItem>::empty());
            return;
        }
        if blocks.len() == 0 {
            assert(sink.items() =~= old(sink).items() + Seq::<SinkItem>::empty());
            return;
        }
        let first = blocks[0].0;
        let last = blocks[blocks.len() - 1].0;
        if !self.enter(feed, hdr.count, first, last, now_ns) {
            assert(sink.items() =~= old(sink).items() + Seq::<SinkItem>::empty());
            return;
        }
        if first <= self.w {
            self.contig_indexed(frame, blocks, now_ns, sink);
        } else {
            self.gap_indexed(frame, blocks, now_ns, sink);
        }
    }

    /// A data frame reaching the watermark, its blocks taken from the triples.
    #[verifier::rlimit(50)]
    fn contig_indexed<S: Sink>(&mut self, frame: &[u8], blocks: &[(u64, u32, u32)], now_ns: u64, sink: &mut S)
        requires
            old(self).wf(),
            triples_fit(frame@, blocks@),
            blocks@.len() > 0,
            blocks@[0].0 <= old(self)@.w,
        ensures
            final(self).wf(),
            ({
                let (s1, out) = indexed_apply(old(self)@, frame@, blocks@, now_ns);
                &&& final(self)@ == s1
                &&& final(sink).items() == old(sink).items() + out
            }),
    {
        let first = blocks[0].0;
        let last = blocks[blocks.len() - 1].0;
        let gen = self.gen;
        let d = self.w - first;
        let skip: u64 = if d < blocks.len() as u64 { d } else { blocks.len() as u64 };
        if skip != 0 {
            self.counters.dup_msgs = self.counters.dup_msgs.wrapping_add(skip);
        }
        let (n_emit, err) = emit_triples(frame, blocks, skip as usize, gen, sink);
        self.counters.msgs_emitted = self.counters.msgs_emitted.wrapping_add(n_emit);
        if let Some(e) = err {
            self.counters.violations.record_packet_error(e);
            self.counters.total_violations = self.counters.total_violations.wrapping_add(1);
            return;
        }
        let ghost out3 = sink.items().skip(old(sink).items().len() as int);
        assert(sink.items() =~= old(sink).items() + out3);
        self.finish_contig(last, now_ns, sink);
        proof {
            let (s4, out4) = contig_finish(
                SequencerView { counters: self@.counters, ..old(self)@ },
                last,
                now_ns,
            );
            assert(sink.items() =~= old(sink).items() + (out3 + out4));
        }
    }

    /// A data frame beyond the watermark, its blocks taken from the triples.
    fn gap_indexed<S: Sink>(&mut self, frame: &[u8], blocks: &[(u64, u32, u32)], now_ns: u64, sink: &mut S)
        requires
            old(self).wf(),
            triples_fit(frame@, blocks@),
            blocks@.len() > 0,
            blocks@[0].0 > old(self)@.w,
        ensures
            final(self).wf(),
            ({
                let (s1, out) = indexed_apply(old(self)@, frame@, blocks@, now_ns);
                &&& final(self)@ == s1
                &&& final(sink).items() == old(sink).items() + out
            }),
    {
        let first = blocks[0].0;
        let last = blocks[blocks.len() - 1].0;
        gap_evidence(
            &mut self.gap_active,
            &mut self.gen,
            &mut self.evidence_hwm,
            self.w,
            first,
            &mut self.state,
            &mut self.counters,
            sink,
        );
        let ghost out3 = sink.items().skip(old(sink).items().len() as int);
        assert(sink.items() =~= old(sink).items() + out3);
        let clamp = if self.mutation == SequencerMutation::OffByOneClamp {
            self.w.wrapping_add((WINDOW_SLOTS / 2) as u64)
        } else {
            self.w.wrapping_add(WINDOW_SLOTS as u64)
        };
        let err = self.stage_triples(frame, blocks, clamp);
        if let Some(e) = err {
            self.counters.violations.record_packet_error(e);
            self.counters.total_violations = self.counters.total_violations.wrapping_add(1);
            return;
        }
        let ghost s3 = self@;
        self.finish_gap(last, now_ns, sink);
        proof {
            let (s4, out4) = gap_finish(s3, last, now_ns);
            assert(sink.items() =~= old(sink).items() + (out3 + out4));
        }
    }

    /// Evaluates gap recovery intent at time `now_ns`.
    pub fn recovery_intent(&mut self, now_ns: u64) -> (r: Option<RecoveryIntent>)
        ensures
            ({
                let s = old(self)@;
                let (ri, p, lv, c) = intent_effect(
                    s.w,
                    s.max_staged,
                    s.staged_count,
                    s.progress_vt,
                    s.hb_seq,
                    s.hb_vt,
                    s.pending_to,
                    s.last_intent_vt,
                    now_ns,
                    s.counters,
                );
                &&& r == ri
                &&& final(self)@ == SequencerView { pending_to: p, last_intent_vt: lv, counters: c, ..s }
            }),
    {
        check_recovery_intent(
            self.w,
            self.max_staged,
            self.staged_count,
            self.progress_vt,
            self.hb_seq,
            self.hb_vt,
            &mut self.pending_to,
            &mut self.last_intent_vt,
            now_ns,
            &mut self.counters,
        )
    }

    /// Seals the sequencer into the permanent `Dead` state.
    pub fn seal<S: Sink>(&mut self, reason: DeadReason, sink: &mut S)
        ensures
            ({
                let (st, out) = seal_effect(reason, old(self)@.w, old(self)@.state);
                &&& final(self)@ == SequencerView { state: st, ..old(self)@ }
                &&& final(sink).items() == old(sink).items() + out
            }),
    {
        crate::arbitrator::session::seal(reason, self.w, &mut self.state, sink);
    }

    /// Walks the blocks of `frame`, staging each valid one below `clamp` (the rest are
    /// dropped as beyond the window) until the first invalid payload; returns how the
    /// walk ended.
    fn stage_blocks(&mut self, frame: &[u8], first: u64, count: u16, clamp: u64) -> (r: Option<PacketError>)
        requires
            old(self).wf(),
            frame@.len() >= HEADER_LEN,
        ensures
            final(self).wf(),
            ({
                let s = old(self)@;
                let (ms, ferr) = lenient_blocks(frame@.skip(HEADER_LEN as int), count as nat);
                let (l, a, sc, c, perr) = stage_run(
                    numbered_visits(ms, first, 0),
                    s.lens,
                    s.arena,
                    s.staged_count,
                    s.counters,
                    s.w,
                    clamp,
                );
                &&& final(self)@ == SequencerView { lens: l, arena: a, staged_count: sc, counters: c, ..s }
                &&& r == walk_error(perr, ferr)
            }),
    {
        let ghost s0 = self@;
        let ghost whole = lenient_blocks(frame@.skip(HEADER_LEN as int), count as nat);
        let ghost target = stage_run(
            numbered_visits(whole.0, first, 0),
            s0.lens,
            s0.arena,
            s0.staged_count,
            s0.counters,
            s0.w,
            clamp,
        );
        let mut pos: usize = HEADER_LEN;
        let mut seq = first;
        let mut i: u16 = 0;
        while i < count
            invariant
                HEADER_LEN <= pos <= frame@.len(),
                i <= count,
                s0 == old(self)@,
                self.wf(),
                self@ == (SequencerView {
                    lens: self.lens@,
                    arena: self.arena@,
                    staged_count: self.staged_count,
                    counters: self.counters,
                    ..s0
                }),
                whole == lenient_blocks(frame@.skip(HEADER_LEN as int), count as nat),
                lenient_blocks(frame@.skip(pos as int), (count - i) as nat).1 == whole.1,
                target == stage_run(
                    numbered_visits(whole.0, first, 0),
                    s0.lens,
                    s0.arena,
                    s0.staged_count,
                    s0.counters,
                    s0.w,
                    clamp,
                ),
                target == stage_run(
                    numbered_visits(lenient_blocks(frame@.skip(pos as int), (count - i) as nat).0, seq, 0),
                    self.lens@,
                    self.arena@,
                    self.staged_count,
                    self.counters,
                    s0.w,
                    clamp,
                ),
            decreases count - i,
        {
            let ghost ms_r = lenient_blocks(frame@.skip(pos as int), (count - i) as nat).0;
            proof {
                lemma_lenient_step(frame@, pos as int, (count - i) as nat);
            }
            let end = match block_end(frame, pos) {
                Ok(e) => e,
                Err(e) => {
                    assert(ms_r.len() == 0);
                    return Some(PacketError::Framing(e));
                },
            };
            let data = vstd::slice::slice_subrange(frame, pos + 2, end);
            let ghost ms_next = lenient_blocks(frame@.skip(end as int), (count - i - 1) as nat).0;
            let ghost nv = numbered_visits(ms_next, seq.wrapping_add(1), 0);
            proof {
                assert(ms_r =~= seq![data@] + ms_next);
                assert(ms_r.drop_first() =~= ms_next);
                assert(numbered_visits(ms_r, seq, 0) == seq![(seq, data@)] + nv);
                assert((seq![(seq, data@)] + nv)[0] == (seq, data@));
                assert((seq![(seq, data@)] + nv).drop_first() =~= nv);
            }
            match itch5::validate(data) {
                Err(e) => {
                    return Some(PacketError::Payload(e));
                },
                Ok(()) => {},
            }
            if seq < clamp {
                if stage_msg(&mut self.lens, &mut self.arena, &mut self.staged_count, self.w, seq, data) {
                    self.counters.staged_msgs = self.counters.staged_msgs.wrapping_add(1);
                } else {
                    self.counters.beyond_window_dropped = self.counters.beyond_window_dropped.wrapping_add(1);
                }
            } else {
                self.counters.beyond_window_dropped = self.counters.beyond_window_dropped.wrapping_add(1);
            }
            pos = end;
            seq = seq.wrapping_add(1);
            i = i + 1;
        }
        proof {
            lemma_lenient_end(frame@, pos as int);
        }
        if pos != frame.len() {
            return Some(PacketError::Framing(FrameError::TrailingBytes { extra: frame.len() - pos }));
        }
        None
    }

    /// Stages each valid block that the triples pick out of `frame` below `clamp` (the
    /// rest are dropped as beyond the window) until the first invalid payload; returns the
    /// payload error, if any.
    fn stage_triples(&mut self, frame: &[u8], blocks: &[(u64, u32, u32)], clamp: u64) -> (r: Option<PacketError>)
        requires
            old(self).wf(),
            triples_fit(frame@, blocks@),
        ensures
            final(self).wf(),
            ({
                let s = old(self)@;
                let (l, a, sc, c, perr) = stage_run(
                    indexed_blocks(frame@, blocks@),
                    s.lens,
                    s.arena,
                    s.staged_count,
                    s.counters,
                    s.w,
                    clamp,
                );
                &&& final(self)@ == SequencerView { lens: l, arena: a, staged_count: sc, counters: c, ..s }
                &&& r == walk_error(perr, None)
            }),
    {
        let ghost s0 = self@;
        let ghost all = indexed_blocks(frame@, blocks@);
        let ghost target = stage_run(all, s0.lens, s0.arena, s0.staged_count, s0.counters, s0.w, clamp);
        let mut j: usize = 0;
        proof {
            assert(all.skip(0) =~= all);
        }
        while j < blocks.len()
            invariant
                j <= blocks@.len(),
                s0 == old(self)@,
                self.wf(),
                triples_fit(frame@, blocks@),
                self@ == (SequencerView {
                    lens: self.lens@,
                    arena: self.arena@,
                    staged_count: self.staged_count,
                    counters: self.counters,
                    ..s0
                }),
                all == indexed_blocks(frame@, blocks@),
                target == stage_run(all, s0.lens, s0.arena, s0.staged_count, s0.counters, s0.w, clamp),
                target == stage_run(
                    all.skip(j as int),
                    self.lens@,
                    self.arena@,
                    self.staged_count,
                    self.counters,
                    s0.w,
                    clamp,
                ),
            decreases blocks@.len() - j,
        {
            let (seq, start, end) = blocks[j];
            let data = vstd::slice::slice_subrange(frame, start as usize, end as usize);
            let ghost tail = all.skip(j as int);
            proof {
                assert(tail[0] == (seq, data@));
                assert(tail.drop_first() =~= all.skip(j + 1));
            }
            match itch5::validate(data) {
                Err(e) => {
                    return Some(PacketError::Payload(e));
                },
                Ok(()) => {},
            }
            if seq < clamp {
                if stage_msg(&mut self.lens, &mut self.arena, &mut self.staged_count, self.w, seq, data) {
                    self.counters.staged_msgs = self.counters.staged_msgs.wrapping_add(1);
                } else {
                    self.counters.beyond_window_dropped = self.counters.beyond_window_dropped.wrapping_add(1);
                }
            } else {
                self.counters.beyond_window_dropped = self.counters.beyond_window_dropped.wrapping_add(1);
            }
            j = j + 1;
        }
        proof {
            assert(all.skip(j as int).len() == 0);
        }
        None
    }

    /// Moves the watermark past `last` after a frame reaching it was emitted: clears the
    /// slots passed, drains the window, closes an open gap if it can, and settles a
    /// pending recovery target.
    fn finish_contig<S: Sink>(&mut self, last: u64, now_ns: u64, sink: &mut S)
        requires
            old(self).wf(),
        ensures
            final(self).wf(),
            ({
                let (s1, out) = contig_finish(old(self)@, last, now_ns);
                &&& final(self)@ == s1
                &&& final(sink).items() == old(sink).items() + out
            }),
    {
        let old_w = self.w;
        let gen = self.gen;
        self.w = last.wrapping_add(1);
        if self.staged_count != 0 && self.mutation != SequencerMutation::DisableClearOnAdvance {
            clear_slots(&mut self.lens, &mut self.staged_count, &mut self.max_staged, old_w, self.w);
        }
        self.progress_vt = now_ns;
        let ghost mid = sink.items();
        if self.staged_count != 0 {
            let drained = drain(
                &mut self.lens,
                &self.arena,
                &mut self.w,
                &mut self.staged_count,
                &mut self.max_staged,
                gen,
                sink,
            );
            self.counters.msgs_emitted = self.counters.msgs_emitted.wrapping_add(drained);
            if drained > 0 {
                self.progress_vt = now_ns;
            }
        } else {
            assert(sink.items() =~= mid + Seq::<SinkItem>::empty());
        }
        let ghost mid2 = sink.items();
        if self.gap_active {
            check_gap_close(
                &mut self.gap_active,
                &mut self.evidence_hwm,
                self.w,
                gen,
                &mut self.state,
                &mut self.counters,
                sink,
            );
        } else {
            assert(sink.items() =~= mid2 + Seq::<SinkItem>::empty());
        }
        if let Some(p) = self.pending_to {
            if self.w >= p {
                self.pending_to = None;
            }
        }
        proof {
            let (s1, out) = contig_finish(old(self)@, last, now_ns);
            assert(sink.items() =~= old(sink).items() + out);
        }
    }

    /// Settles a frame beyond the watermark after its blocks were staged: raises the
    /// evidence and the highest staged sequence number, drains the window, closes the
    /// gap if it can, and settles a pending recovery target.
    fn finish_gap<S: Sink>(&mut self, last: u64, now_ns: u64, sink: &mut S)
        requires
            old(self).wf(),
        ensures
            final(self).wf(),
            ({
                let (s1, out) = gap_finish(old(self)@, last, now_ns);
                &&& final(self)@ == s1
                &&& final(sink).items() == old(sink).items() + out
            }),
    {
        if last >= self.w.wrapping_add(WINDOW_SLOTS as u64) {
            let l1 = last.wrapping_add(1);
            if self.evidence_hwm < l1 {
                self.evidence_hwm = l1;
            }
        }
        if self.max_staged < last {
            self.max_staged = last;
        }
        let gen = self.gen;
        let drained = drain(
            &mut self.lens,
            &self.arena,
            &mut self.w,
            &mut self.staged_count,
            &mut self.max_staged,
            gen,
            sink,
        );
        self.counters.msgs_emitted = self.counters.msgs_emitted.wrapping_add(drained);
        if drained > 0 {
            self.progress_vt = now_ns;
        }
        check_gap_close(
            &mut self.gap_active,
            &mut self.evidence_hwm,
            self.w,
            self.gen,
            &mut self.state,
            &mut self.counters,
            sink,
        );
        if let Some(p) = self.pending_to {
            if self.w >= p {
                self.pending_to = None;
            }
        }
        proof {
            let (s1, out) = gap_finish(old(self)@, last, now_ns);
            assert(sink.items() =~= old(sink).items() + out);
        }
    }

    /// Counts the frame's arrival, stops on a short frame or after `Dead`, and
    /// otherwise dispatches its session; returns its header when ingestion goes on.
    fn prelude<S: Sink>(&mut self, frame: &[u8], feed: FeedId, sink: &mut S) -> (r: Option<Header>)
        requires
            old(self).wf(),
        ensures
            final(self).wf(),
            ({
                let (go, s1, out) = frame_prelude(old(self)@, frame@, feed);
                &&& (r is Some) == go
                &&& final(self)@ == s1
                &&& final(sink).items() == old(sink).items() + out
            }),
            r matches Some(h) ==> h == frame_header(frame@) && frame@.len() >= HEADER_LEN,
    {
        let fc = self.counters.feed_mut(feed);
        fc.packets = fc.packets.wrapping_add(1);
        fc.bytes = fc.bytes.wrapping_add(frame.len() as u64);
        if frame.len() < HEADER_LEN {
            self.counters.violations.truncated = self.counters.violations.truncated.wrapping_add(1);
            self.counters.total_violations = self.counters.total_violations.wrapping_add(1);
            assert(old(sink).items() + Seq::<SinkItem>::empty() =~= old(sink).items());
            return None;
        }
        let hdr = match moldudp64::parse_header(frame) {
            Ok(h) => h,
            Err(e) => {
                self.counters.violations.record_frame_error(e);
                self.counters.total_violations = self.counters.total_violations.wrapping_add(1);
                return None;
            },
        };
        proof {
            lemma_frame_header(hdr, frame@);
        }
        if self.state == State::Dead {
            self.counters.ignored_after_dead = self.counters.ignored_after_dead.wrapping_add(1);
            assert(old(sink).items() + Seq::<SinkItem>::empty() =~= old(sink).items());
            return None;
        }
        self.dispatch(hdr.session, sink);
        Some(hdr)
    }

    /// Session discovery or boundary.
    fn dispatch<S: Sink>(&mut self, next: [u8; 10], sink: &mut S)
        requires
            old(self).wf(),
        ensures
            final(self).wf(),
            ({
                let (s1, out) = dispatch_step(old(self)@, next);
                &&& final(self)@ == s1
                &&& final(sink).items() == old(sink).items() + out
            }),
    {
        session_dispatch(
            &mut self.session,
            next,
            &mut self.lens,
            &mut self.staged_count,
            &mut self.max_staged,
            &mut self.gap_active,
            &mut self.evidence_hwm,
            &mut self.hb_seq,
            &mut self.hb_vt,
            &mut self.pending_to,
            &mut self.gen,
            &mut self.state,
            &mut self.counters,
            sink,
        );
        proof {
            let (s1, out) = dispatch_step(old(self)@, next);
            if is_unset(old(self)@.session) || old(self)@.session@ == next@ {
                assert(final(sink).items() =~= old(sink).items() + out);
            } else {
                assert(final(sink).items() =~= old(sink).items() + out);
            }
            assert(self@.lens == s1.lens);
            assert(self@ == s1);
        }
    }

    /// A heartbeat announcing `seq`.
    fn heartbeat<S: Sink>(&mut self, seq: u64, feed: FeedId, now_ns: u64, sink: &mut S)
        requires
            old(self).wf(),
        ensures
            final(self).wf(),
            ({
                let (s1, out) = heartbeat_step(old(self)@, seq, now_ns);
                &&& final(self)@ == s1
                &&& final(sink).items() == old(sink).items() + out
            }),
    {
        handle_heartbeat(
            seq,
            feed,
            now_ns,
            self.w,
            &mut self.hb_seq,
            &mut self.hb_vt,
            &mut self.gap_active,
            &mut self.gen,
            &mut self.evidence_hwm,
            &mut self.state,
            &mut self.counters,
            sink,
        );
    }

    /// An end-of-session frame.
    fn end_of_session<S: Sink>(&mut self, hdr: &Header, sink: &mut S)
        requires
            old(self).wf(),
        ensures
            final(self).wf(),
            ({
                let (s1, out) = eos_step(old(self)@, hdr.seq);
                &&& final(self)@ == s1
                &&& final(sink).items() == old(sink).items() + out
            }),
    {
        if self.mutation == SequencerMutation::DropStagedAtEos {
            clear_window(&mut self.lens);
            self.staged_count = 0;
            proof {
                lemma_occupied_zeros(1024);
            }
        }
        handle_eos(hdr, self.w, self.session, &mut self.state, &mut self.counters, sink);
    }

    /// Anchors on the first data frame of a session or counts a duplicate frame;
    /// returns whether the frame goes on to be applied.
    fn enter(&mut self, feed: FeedId, count: u16, first: u64, last: u64, now_ns: u64) -> (r: bool)
        requires
            old(self).wf(),
        ensures
            final(self).wf(),
            (r, final(self)@) == entry_step(old(self)@, feed, count, first, last, now_ns),
    {
        if self.state == State::Init {
            self.w = first;
            self.progress_vt = now_ns;
            self.state = State::Contig;
            true
        } else if last < self.w {
            let fc = self.counters.feed_mut(feed);
            fc.dups = fc.dups.wrapping_add(1);
            self.counters.dup_msgs = self.counters.dup_msgs.wrapping_add(count as u64);
            false
        } else {
            true
        }
    }

    pub fn watermark(&self) -> (r: u64)
        ensures
            r == self@.w,
    {
        self.w
    }

    pub fn session(&self) -> (r: [u8; 10])
        ensures
            r == self@.session,
    {
        self.session
    }

    pub fn state(&self) -> (r: State)
        ensures
            r == self@.state,
    {
        self.state
    }

    pub fn gen(&self) -> (r: u64)
        ensures
            r == self@.gen,
    {
        self.gen
    }

    pub fn staged_count(&self) -> (r: u32)
        ensures
            r == self@.staged_count,
    {
        self.staged_count
    }

    pub fn is_gap_active(&self) -> (r: bool)
        ensures
            r == self@.gap_active,
    {
        self.gap_active
    }

    pub fn counters(&self) -> (r: Counters)
        ensures
            r == self@.counters,
    {
        self.counters
    }

    pub fn lens(&self) -> (r: &[u8; WINDOW_SLOTS])
        ensures
            r@ == self@.lens,
    {
        &self.lens
    }
}

impl Default for Sequencer {
    fn default() -> (s: Self)
        ensures
            s.wf(),
            is_fresh(s@, SequencerMutation::NoMutation),
    {
        Self::new_unboxed()
    }
}

} // verus!
