//! The sequencer's state as contracts see it, and what one frame does to it.
//!
//! Each function here is the effect of one stage of ingestion on a
//! [`SequencerView`], together with the items the sink receives during that stage.

use vstd::prelude::*;
use crate::arbitrator::counters::{
    after_packet_error, feed_of, inc, with_feed, Counters, FeedCounters, ViolationCounters,
};
use crate::arbitrator::gap::{gap_close_effect, gap_evidence_effect};
use crate::arbitrator::session::{eos_effect, heartbeat_effect, is_unset};
use crate::arbitrator::state::State;
use crate::arbitrator::types::{Event, FeedId, SequencerMutation, SinkItem};
use crate::arbitrator::window::{clear_effect, drain_effect, empty_window, occupied, stage_effect};
use crate::protocol::itch5::{spec_validate, ItchError};
use crate::protocol::moldudp64::{header_matches, span_of, FrameError, Header, EOS_COUNT, HEADER_LEN, HEARTBEAT_COUNT};
use crate::protocol::packet::{lemma_lenient_len, lenient_blocks, numbered_visits, PacketError};

verus! {

/// Everything a sequencer holds, as plain values.
pub struct SequencerView {
    pub w: u64,
    pub gen: u64,
    pub session: [u8; 10],
    pub state: State,
    pub gap_active: bool,
    pub evidence_hwm: u64,
    pub max_staged: u64,
    pub staged_count: u32,
    pub progress_vt: u64,
    pub hb_seq: u64,
    pub hb_vt: u64,
    pub pending_to: Option<u64>,
    pub last_intent_vt: u64,
    pub counters: Counters,
    pub mutation: SequencerMutation,
    pub lens: Seq<u8>,
    pub arena: Seq<u8>,
}

/// Well-formedness: the window has 1024 slots over a 64 KiB arena, every slot holds at
/// most 64 bytes, and `staged_count` is the number of occupied slots.
pub open spec fn view_wf(s: SequencerView) -> bool {
    &&& s.lens.len() == 1024
    &&& s.arena.len() == 65536
    &&& s.staged_count == occupied(s.lens)
    &&& forall|i: int| 0 <= i < 1024 ==> s.lens[i] <= 65
}

/// The header carried by the first 20 bytes of `frame`.
pub open spec fn frame_header(frame: Seq<u8>) -> Header {
    choose|h: Header| header_matches(h, frame)
}

/// Counters after a frame of `len` bytes arrived on `feed`.
pub open spec fn count_arrival(c: Counters, feed: FeedId, len: nat) -> Counters {
    let f = feed_of(c, feed);
    with_feed(
        c,
        feed,
        FeedCounters { packets: inc(f.packets), bytes: f.bytes.wrapping_add(len as u64), ..f },
    )
}

/// `s` after a protocol violation whose per-kind counters become `v`.
pub open spec fn violated(s: SequencerView, v: ViolationCounters) -> SequencerView {
    SequencerView {
        counters: Counters {
            violations: v,
            total_violations: inc(s.counters.total_violations),
            ..s.counters
        },
        ..s
    }
}

/// Session discovery or boundary on a frame of session `next`.
pub open spec fn dispatch_step(s: SequencerView, next: [u8; 10]) -> (SequencerView, Seq<SinkItem>) {
    let c1 = Counters { sessions: inc(s.counters.sessions), ..s.counters };
    if is_unset(s.session) {
        (SequencerView { session: next, counters: c1, ..s }, Seq::empty())
    } else if s.session@ != next@ {
        let g = s.gen.wrapping_add(1);
        let flushed = s.staged_count != 0;
        (
            SequencerView {
                session: next,
                counters: if flushed {
                    Counters { window_flushed: inc(c1.window_flushed), ..c1 }
                } else {
                    c1
                },
                lens: if flushed { empty_window() } else { s.lens },
                staged_count: 0,
                max_staged: 0,
                gap_active: false,
                evidence_hwm: 0,
                hb_seq: 0,
                hb_vt: 0,
                pending_to: None,
                gen: g,
                state: State::Init,
                ..s
            },
            seq![SinkItem::Ev(Event::SessionBoundary { prev: s.session, next, gen: g })],
        )
    } else {
        (s, Seq::empty())
    }
}

/// A heartbeat announcing `seq` at time `now`.
pub open spec fn heartbeat_step(s: SequencerView, seq: u64, now: u64) -> (SequencerView, Seq<SinkItem>) {
    let (hs, hv, ga, g, h, st, c, out) = heartbeat_effect(
        seq,
        now,
        s.w,
        s.hb_seq,
        s.hb_vt,
        s.gap_active,
        s.gen,
        s.evidence_hwm,
        s.state,
        s.counters,
    );
    (
        SequencerView {
            hb_seq: hs,
            hb_vt: hv,
            gap_active: ga,
            gen: g,
            evidence_hwm: h,
            state: st,
            counters: c,
            ..s
        },
        out,
    )
}

/// An end-of-session frame announcing `next_seq`.
pub open spec fn eos_step(s: SequencerView, next_seq: u64) -> (SequencerView, Seq<SinkItem>) {
    let s1 = if s.mutation == SequencerMutation::DropStagedAtEos {
        SequencerView { lens: empty_window(), staged_count: 0, ..s }
    } else {
        s
    };
    let (st, c, out) = eos_effect(next_seq, s1.w, s1.session, s1.state, s1.counters);
    (SequencerView { state: st, counters: c, ..s1 }, out)
}

/// Whether a data frame spanning `[first, last]` goes on to be applied, and the state
/// after anchoring (first data frame of a session) or after counting it as a duplicate.
pub open spec fn entry_step(s: SequencerView, feed: FeedId, count: u16, first: u64, last: u64, now: u64) -> (
    bool,
    SequencerView,
) {
    if s.state == State::Init {
        (true, SequencerView { w: first, progress_vt: now, state: State::Contig, ..s })
    } else if last < s.w {
        let f = feed_of(s.counters, feed);
        let c1 = with_feed(s.counters, feed, FeedCounters { dups: inc(f.dups), ..f });
        (
            false,
            SequencerView {
                counters: Counters { dup_msgs: c1.dup_msgs.wrapping_add(count as u64), ..c1 },
                ..s
            },
        )
    } else {
        (true, s)
    }
}

/// Messages emitted for `blocks` under generation `gen`, up to the first payload that
/// is not valid ITCH, and that payload's error.
pub open spec fn emit_run(blocks: Seq<(u64, Seq<u8>)>, gen: u64) -> (Seq<SinkItem>, Option<ItchError>)
    decreases blocks.len(),
{
    if blocks.len() == 0 {
        (Seq::empty(), None)
    } else {
        let (seq, data) = blocks[0];
        match spec_validate(data) {
            Err(e) => (Seq::empty(), Some(e)),
            Ok(_) => {
                let (out, err) = emit_run(blocks.drop_first(), gen);
                (seq![SinkItem::Msg { gen, seq, data }] + out, err)
            },
        }
    }
}

/// Window, arena, occupied count and counters after staging `blocks` (those at or past
/// `clamp` are dropped as beyond the window), up to the first invalid payload, and
/// that payload's error.
pub open spec fn stage_run(
    blocks: Seq<(u64, Seq<u8>)>,
    lens: Seq<u8>,
    arena: Seq<u8>,
    staged: u32,
    c: Counters,
    w: u64,
    clamp: u64,
) -> (Seq<u8>, Seq<u8>, u32, Counters, Option<ItchError>)
    decreases blocks.len(),
{
    if blocks.len() == 0 {
        (lens, arena, staged, c, None)
    } else {
        let (seq, data) = blocks[0];
        match spec_validate(data) {
            Err(e) => (lens, arena, staged, c, Some(e)),
            Ok(_) => if seq < clamp {
                let (ok, l2, a2, s2) = stage_effect(lens, arena, staged, w, seq, data);
                let c2 = if ok {
                    Counters { staged_msgs: inc(c.staged_msgs), ..c }
                } else {
                    Counters { beyond_window_dropped: inc(c.beyond_window_dropped), ..c }
                };
                stage_run(blocks.drop_first(), l2, a2, s2, c2, w, clamp)
            } else {
                stage_run(
                    blocks.drop_first(),
                    lens,
                    arena,
                    staged,
                    Counters { beyond_window_dropped: inc(c.beyond_window_dropped), ..c },
                    w,
                    clamp,
                )
            },
        }
    }
}

/// The error a walk ends with: a payload error first, else a framing error.
pub open spec fn walk_error(perr: Option<ItchError>, ferr: Option<FrameError>) -> Option<PacketError> {
    match perr {
        Some(e) => Some(PacketError::Payload(e)),
        None => match ferr {
            Some(e) => Some(PacketError::Framing(e)),
            None => None,
        },
    }
}

/// Emitting staged messages from the watermark under generation `gen`.
pub open spec fn drain_step(s: SequencerView, gen: u64, now: u64) -> (SequencerView, Seq<SinkItem>) {
    let (l, w, sc, m, out) = drain_effect(s.lens, s.arena, s.w, s.staged_count, s.max_staged, gen);
    (
        SequencerView {
            lens: l,
            w,
            staged_count: sc,
            max_staged: m,
            counters: Counters {
                msgs_emitted: s.counters.msgs_emitted.wrapping_add(out.len() as u64),
                ..s.counters
            },
            progress_vt: if out.len() > 0 { now } else { s.progress_vt },
            ..s
        },
        out,
    )
}

/// Closing an open gap once the watermark reaches its evidence.
pub open spec fn close_step(s: SequencerView, gen: u64) -> (SequencerView, Seq<SinkItem>) {
    let (ga, h, st, c, out) = gap_close_effect(s.gap_active, s.evidence_hwm, s.w, gen, s.state, s.counters);
    (SequencerView { gap_active: ga, evidence_hwm: h, state: st, counters: c, ..s }, out)
}

/// Forgetting a pending recovery target the watermark has reached.
pub open spec fn settle_pending(s: SequencerView) -> SequencerView {
    match s.pending_to {
        Some(p) => if s.w >= p {
            SequencerView { pending_to: None, ..s }
        } else {
            s
        },
        None => s,
    }
}

/// After the blocks of a frame reaching the watermark were emitted without error: the
/// watermark moves past `last`, the slots it passed are cleared (unless the mutation
/// disables it), the window drains and an open gap may close.
pub open spec fn contig_finish(s: SequencerView, last: u64, now: u64) -> (SequencerView, Seq<SinkItem>) {
    let w1 = last.wrapping_add(1);
    let (l1, sc1, m1) = if s.mutation != SequencerMutation::DisableClearOnAdvance {
        clear_effect(s.lens, s.staged_count, s.max_staged, s.w, w1)
    } else {
        (s.lens, s.staged_count, s.max_staged)
    };
    let s2 = SequencerView { w: w1, lens: l1, staged_count: sc1, max_staged: m1, progress_vt: now, ..s };
    let (s3, out2) = drain_step(s2, s.gen, now);
    let (s4, out3) = close_step(s3, s.gen);
    (settle_pending(s4), out2 + out3)
}

/// After the blocks of a frame beyond the watermark were staged without error: evidence
/// beyond the window raises the high-water mark, `last` may raise `max_staged`, the
/// window drains and the gap may close.
pub open spec fn gap_finish(s: SequencerView, last: u64, now: u64) -> (SequencerView, Seq<SinkItem>) {
    let h2 = if last >= s.w.wrapping_add(1024) {
        let l1 = last.wrapping_add(1);
        if s.evidence_hwm >= l1 { s.evidence_hwm } else { l1 }
    } else {
        s.evidence_hwm
    };
    let s3 = SequencerView {
        evidence_hwm: h2,
        max_staged: if s.max_staged >= last { s.max_staged } else { last },
        ..s
    };
    let (s4, out2) = drain_step(s3, s3.gen, now);
    let (s5, out3) = close_step(s4, s4.gen);
    (settle_pending(s5), out2 + out3)
}

/// Applying a frame that reaches the watermark: the first `skip` blocks are duplicates,
/// `todo` are the rest; on success the watermark moves past `last`, stale slots are
/// cleared, the window drains and an open gap may close.
pub open spec fn contig_step(
    s: SequencerView,
    todo: Seq<(u64, Seq<u8>)>,
    ferr: Option<FrameError>,
    skip: u64,
    last: u64,
    now: u64,
) -> (SequencerView, Seq<SinkItem>) {
    let gen = s.gen;
    let (out, perr) = emit_run(todo, gen);
    let c1 = Counters {
        dup_msgs: s.counters.dup_msgs.wrapping_add(skip),
        msgs_emitted: s.counters.msgs_emitted.wrapping_add(out.len() as u64),
        ..s.counters
    };
    match walk_error(perr, ferr) {
        Some(e) => (violated(SequencerView { counters: c1, ..s }, after_packet_error(c1.violations, e)), out),
        None => {
            let (s1, out1) = contig_finish(SequencerView { counters: c1, ..s }, last, now);
            (s1, out + out1)
        },
    }
}

/// Applying a frame that starts beyond the watermark: it is gap evidence, its blocks
/// are staged (those at or past the clamp dropped), then the window drains and the gap
/// may close.
pub open spec fn gap_step(
    s: SequencerView,
    todo: Seq<(u64, Seq<u8>)>,
    ferr: Option<FrameError>,
    first: u64,
    last: u64,
    now: u64,
) -> (SequencerView, Seq<SinkItem>) {
    let (ga, g, h, st, c, out1) = gap_evidence_effect(
        s.gap_active,
        s.gen,
        s.evidence_hwm,
        s.w,
        first,
        s.state,
        s.counters,
    );
    let clamp = if s.mutation == SequencerMutation::OffByOneClamp {
        s.w.wrapping_add(512)
    } else {
        s.w.wrapping_add(1024)
    };
    let (l, a, sc, c2, perr) = stage_run(todo, s.lens, s.arena, s.staged_count, c, s.w, clamp);
    let s2 = SequencerView {
        gap_active: ga,
        gen: g,
        evidence_hwm: h,
        state: st,
        lens: l,
        arena: a,
        staged_count: sc,
        counters: c2,
        ..s
    };
    match walk_error(perr, ferr) {
        Some(e) => (violated(s2, after_packet_error(c2.violations, e)), out1),
        None => {
            let (s3, out2) = gap_finish(s2, last, now);
            (s3, out1 + out2)
        },
    }
}

/// Everything one frame does before its kind is known: arrival is counted, short
/// frames and frames after `Dead` stop here, otherwise the session is dispatched.
/// Returns whether ingestion goes on, the state, the items and the header.
pub open spec fn frame_prelude(s: SequencerView, frame: Seq<u8>, feed: FeedId) -> (
    bool,
    SequencerView,
    Seq<SinkItem>,
) {
    let s0 = SequencerView { counters: count_arrival(s.counters, feed, frame.len()), ..s };
    if frame.len() < HEADER_LEN {
        (
            false,
            violated(
                s0,
                ViolationCounters {
                    truncated: inc(s0.counters.violations.truncated),
                    ..s0.counters.violations
                },
            ),
            Seq::empty(),
        )
    } else if s0.state == State::Dead {
        (
            false,
            SequencerView {
                counters: Counters { ignored_after_dead: inc(s0.counters.ignored_after_dead), ..s0.counters },
                ..s0
            },
            Seq::empty(),
        )
    } else {
        let (s1, out) = dispatch_step(s0, frame_header(frame).session);
        (true, s1, out)
    }
}

/// `s` after a data frame arriving once its session has ended.
pub open spec fn after_end(s: SequencerView) -> SequencerView {
    SequencerView {
        counters: Counters {
            data_after_eos: inc(s.counters.data_after_eos),
            total_violations: inc(s.counters.total_violations),
            ..s.counters
        },
        ..s
    }
}

/// Classic application of a data frame spanning `[first, last]` whose blocks are walked
/// from the frame.
pub open spec fn classic_apply(s: SequencerView, frame: Seq<u8>, count: u16, first: u64, last: u64, now: u64) -> (
    SequencerView,
    Seq<SinkItem>,
) {
    let (ms, ferr) = lenient_blocks(frame.skip(HEADER_LEN as int), count as nat);
    if first <= s.w {
        let skip = if s.w - first < count { (s.w - first) as u64 } else { count as u64 };
        contig_step(s, numbered_visits(ms, first, skip as nat), ferr, skip, last, now)
    } else {
        gap_step(s, numbered_visits(ms, first, 0), ferr, first, last, now)
    }
}

/// A data frame with header `hdr` in a live session, its blocks walked from the frame.
pub open spec fn classic_data(s: SequencerView, frame: Seq<u8>, feed: FeedId, now: u64, hdr: Header) -> (
    SequencerView,
    Seq<SinkItem>,
) {
    if s.state == State::Ended {
        (after_end(s), Seq::empty())
    } else {
        match span_of(hdr.seq, hdr.count) {
            None => (
                violated(
                    s,
                    ViolationCounters {
                        seq_overflow: inc(s.counters.violations.seq_overflow),
                        ..s.counters.violations
                    },
                ),
                Seq::empty(),
            ),
            Some((first, last)) => {
                let (apply, s2) = entry_step(s, feed, hdr.count, first, last, now);
                if !apply {
                    (s2, Seq::empty())
                } else {
                    classic_apply(s2, frame, hdr.count, first, last, now)
                }
            },
        }
    }
}

/// The effect of `ingest` on a frame: the new state and the items the sink receives.
pub open spec fn spec_ingest(s: SequencerView, frame: Seq<u8>, feed: FeedId, now: u64) -> (
    SequencerView,
    Seq<SinkItem>,
) {
    let (go, s1, out1) = frame_prelude(s, frame, feed);
    let hdr = frame_header(frame);
    if !go {
        (s1, out1)
    } else if hdr.count == HEARTBEAT_COUNT {
        let (s2, out2) = heartbeat_step(s1, hdr.seq, now);
        (s2, out1 + out2)
    } else if hdr.count == EOS_COUNT {
        let (s2, out2) = eos_step(s1, hdr.seq);
        (s2, out1 + out2)
    } else {
        let (s2, out2) = classic_data(s1, frame, feed, now, hdr);
        (s2, out1 + out2)
    }
}

/// The payload blocks that `(seq, start, end)` triples pick out of `frame`.
pub open spec fn indexed_blocks(frame: Seq<u8>, blocks: Seq<(u64, u32, u32)>) -> Seq<(u64, Seq<u8>)> {
    blocks.map_values(|b: (u64, u32, u32)| (b.0, frame.subrange(b.1 as int, b.2 as int)))
}

/// Triples that `ingest_indexed` can use on `frame`: each picks a range inside the frame,
/// and they are numbered `first ..= first + len - 1`.
pub open spec fn triples_fit(frame: Seq<u8>, blocks: Seq<(u64, u32, u32)>) -> bool {
    &&& forall|i: int| 0 <= i < blocks.len() ==> blocks[i].1 <= blocks[i].2 && blocks[i].2 <= frame.len()
    &&& blocks.len() > 0 ==> blocks[0].0 + blocks.len() - 1 == blocks.last().0
}

/// Indexed application of a data frame whose blocks the triples pick out.
pub open spec fn indexed_apply(s: SequencerView, frame: Seq<u8>, blocks: Seq<(u64, u32, u32)>, now: u64) -> (
    SequencerView,
    Seq<SinkItem>,
) {
    let first = blocks[0].0;
    let last = blocks.last().0;
    let all = indexed_blocks(frame, blocks);
    if first <= s.w {
        let skip = if s.w - first < blocks.len() { (s.w - first) as u64 } else { blocks.len() as u64 };
        contig_step(s, all.skip(skip as int), None, skip, last, now)
    } else {
        gap_step(s, all, None, first, last, now)
    }
}

/// A data frame with header `hdr` in a live session, its blocks taken from the triples.
pub open spec fn indexed_data(
    s: SequencerView,
    frame: Seq<u8>,
    feed: FeedId,
    now: u64,
    hdr: Header,
    blocks: Seq<(u64, u32, u32)>,
) -> (SequencerView, Seq<SinkItem>) {
    if s.state == State::Ended {
        (after_end(s), Seq::empty())
    } else if blocks.len() == 0 {
        (s, Seq::empty())
    } else {
        let (apply, s2) = entry_step(s, feed, hdr.count, blocks[0].0, blocks.last().0, now);
        if !apply {
            (s2, Seq::empty())
        } else {
            indexed_apply(s2, frame, blocks, now)
        }
    }
}

/// The effect of `ingest_indexed`: as `spec_ingest`, with the data blocks taken from the
/// triples instead of walked from the frame.
pub open spec fn spec_ingest_indexed(
    s: SequencerView,
    frame: Seq<u8>,
    feed: FeedId,
    now: u64,
    blocks: Seq<(u64, u32, u32)>,
) -> (SequencerView, Seq<SinkItem>) {
    let (go, s1, out1) = frame_prelude(s, frame, feed);
    let hdr = frame_header(frame);
    if !go {
        (s1, out1)
    } else if hdr.count == HEARTBEAT_COUNT {
        let (s2, out2) = heartbeat_step(s1, hdr.seq, now);
        (s2, out1 + out2)
    } else if hdr.count == EOS_COUNT {
        let (s2, out2) = eos_step(s1, hdr.seq);
        (s2, out1 + out2)
    } else {
        let (s2, out2) = indexed_data(s1, frame, feed, now, hdr, blocks);
        (s2, out1 + out2)
    }
}


/// Skipping `skip` messages while numbering is numbering them all and then dropping the
/// first `skip`; without wrap-around, message `k` is numbered `s + k`.
pub proof fn lemma_numbered_visits(msgs: Seq<Seq<u8>>, s: u64, skip: nat)
    requires
        s + msgs.len() <= u64::MAX + 1,
    ensures
        skip <= msgs.len() ==> numbered_visits(msgs, s, skip) == numbered_visits(msgs, s, 0).skip(skip as int),
        numbered_visits(msgs, s, 0).len() == msgs.len(),
        forall|k: int| 0 <= k < msgs.len() ==> #[trigger] numbered_visits(msgs, s, 0)[k] == ((s + k) as u64, msgs[k]),
    decreases msgs.len(),
{
    if msgs.len() > 0 {
        let s1 = s.wrapping_add(1);
        if s < u64::MAX {
            assert(s1 == s + 1);
        }
        if msgs.len() > 1 {
            assert(s1 == s + 1);
        }
        lemma_numbered_visits(msgs.drop_first(), s1, 0);
        if skip > 0 {
            lemma_numbered_visits(msgs.drop_first(), s1, (skip - 1) as nat);
        }
        let all = numbered_visits(msgs, s, 0);
        let rest = numbered_visits(msgs.drop_first(), s1, 0);
        assert(all == seq![(s, msgs[0])] + rest);
        if skip > 0 && skip <= msgs.len() {
            assert(all.skip(skip as int) =~= rest.skip(skip - 1));
        }
        assert forall|k: int| 0 <= k < msgs.len() implies #[trigger] all[k] == ((s + k) as u64, msgs[k]) by {
            if k > 0 {
                assert(all[k] == rest[k - 1]);
                assert(msgs.drop_first()[k - 1] == msgs[k]);
            }
        }
        if skip == 0 {
            assert(all.skip(0) =~= all);
        }
    } else if skip == 0 {
        assert(numbered_visits(msgs, s, 0).skip(0) =~= numbered_visits(msgs, s, 0));
    }
}

/// `blocks` is the block index of data frame `frame`: the frame's blocks are all whole
/// and exactly as many as its header counts, its range of sequence numbers does not
/// overflow, and the triples pick out its blocks numbered from its header's sequence
/// number.
pub open spec fn indexes_frame(frame: Seq<u8>, blocks: Seq<(u64, u32, u32)>) -> bool {
    let hdr = frame_header(frame);
    let (ms, ferr) = lenient_blocks(frame.skip(HEADER_LEN as int), hdr.count as nat);
    &&& ferr is None
    &&& span_of(hdr.seq, hdr.count) is Some
    &&& indexed_blocks(frame, blocks) == numbered_visits(ms, hdr.seq, 0)
}

/// Ingesting a frame through its block index does what ingesting it by walking its blocks
/// does: the same state and the same items for the sink. For a heartbeat, an end of
/// session or a frame the prelude stops, the index plays no part at all.
pub proof fn law_indexed_agrees(s: SequencerView, frame: Seq<u8>, feed: FeedId, now: u64, blocks: Seq<(u64, u32, u32)>)
    requires
        frame.len() >= HEADER_LEN && frame_header(frame).count != HEARTBEAT_COUNT && frame_header(frame).count
            != EOS_COUNT ==> indexes_frame(frame, blocks),
    ensures
        spec_ingest_indexed(s, frame, feed, now, blocks) == spec_ingest(s, frame, feed, now),
{
    let (go, s1, out1) = frame_prelude(s, frame, feed);
    let hdr = frame_header(frame);
    if go && hdr.count != HEARTBEAT_COUNT && hdr.count != EOS_COUNT && s1.state != State::Ended {
        let (ms, ferr) = lenient_blocks(frame.skip(HEADER_LEN as int), hdr.count as nat);
        lemma_lenient_len(frame.skip(HEADER_LEN as int), hdr.count as nat);
        let (first, last) = span_of(hdr.seq, hdr.count)->Some_0;
        lemma_numbered_visits(ms, first, 0);
        let all = indexed_blocks(frame, blocks);
        assert(blocks.len() == all.len());
        assert(blocks.len() == hdr.count);
        assert(all[0] == numbered_visits(ms, first, 0)[0]);
        assert(blocks[0].0 == all[0].0);
        assert(blocks.last().0 == all[all.len() - 1].0);
        assert(blocks[0].0 == first);
        assert(blocks.last().0 == last);
        let (apply, s2) = entry_step(s1, feed, hdr.count, first, last, now);
        if apply {
            if first <= s2.w {
                let skip = if s2.w - first < hdr.count {
                    (s2.w - first) as u64
                } else {
                    hdr.count as u64
                };
                lemma_numbered_visits(ms, first, skip as nat);
            }
        }
    }
}

} // verus!
