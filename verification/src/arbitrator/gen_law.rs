//! The generation law: every message one ingestion emits carries the generation the
//! sequencer holds once the frame is ingested, and generations never go back.

use vstd::prelude::*;
use crate::arbitrator::types::SinkItem;
use crate::arbitrator::window::drain_run;
use crate::arbitrator::transition::{
    classic_data, close_step, contig_finish, drain_step, emit_run, entry_step, eos_step,
    frame_header, frame_prelude, gap_finish, heartbeat_step, spec_ingest, stage_run, walk_error,
    SequencerView,
};
use crate::arbitrator::state::State;
use crate::arbitrator::counters::Counters;
use crate::protocol::moldudp64::{span_of, Header, HEADER_LEN, EOS_COUNT, HEARTBEAT_COUNT};
use crate::protocol::packet::{lenient_blocks, numbered_visits};

verus! {

/// Every message among `items` carries generation `g`.
pub open spec fn msgs_carry(items: Seq<SinkItem>, g: u64) -> bool {
    forall|k: int| 0 <= k < items.len() ==> (#[trigger] items[k] matches SinkItem::Msg { gen, .. } ==> gen == g)
}

/// Items that are all events carry any generation.
pub open spec fn all_events(items: Seq<SinkItem>) -> bool {
    forall|k: int| 0 <= k < items.len() ==> (#[trigger] items[k]) is Ev
}

/// Joining two runs that carry `g` gives a run that carries `g`.
pub proof fn lemma_carry_append(a: Seq<SinkItem>, b: Seq<SinkItem>, g: u64)
    requires
        msgs_carry(a, g),
        msgs_carry(b, g),
    ensures
        msgs_carry(a + b, g),
{
    assert forall|k: int| 0 <= k < (a + b).len() implies ((#[trigger] (a + b)[k]) matches SinkItem::Msg { gen, .. }
        ==> gen == g) by {
        if k < a.len() {
            assert((a + b)[k] == a[k]);
        } else {
            assert((a + b)[k] == b[k - a.len()]);
        }
    }
}

/// Emitting blocks under `gen` emits messages of generation `gen`.
pub proof fn lemma_emit_carry(blocks: Seq<(u64, Seq<u8>)>, gen: u64)
    ensures
        msgs_carry(emit_run(blocks, gen).0, gen),
    decreases blocks.len(),
{
    if blocks.len() > 0 {
        lemma_emit_carry(blocks.drop_first(), gen);
        let (seq, data) = blocks[0];
        if crate::protocol::itch5::spec_validate(data) is Ok {
            lemma_carry_append(seq![SinkItem::Msg { gen, seq, data }], emit_run(blocks.drop_first(), gen).0, gen);
        }
    }
}

/// Draining under `gen` emits messages of generation `gen`.
pub proof fn lemma_drain_carry(lens: Seq<u8>, arena: Seq<u8>, w: u64, staged: u32, gen: u64)
    ensures
        msgs_carry(drain_run(lens, arena, w, staged, gen).3, gen),
    decreases staged,
{
    let slot = crate::arbitrator::window::slot_of(w);
    if staged != 0 && lens[slot] != 0 {
        let l2 = lens.update(slot, 0);
        lemma_drain_carry(l2, arena, w.wrapping_add(1), (staged - 1) as u32, gen);
        let item = SinkItem::Msg { gen, seq: w, data: arena.subrange(slot * 64, slot * 64 + lens[slot] - 1) };
        lemma_carry_append(seq![item], drain_run(l2, arena, w.wrapping_add(1), (staged - 1) as u32, gen).3, gen);
    }
}

/// A run of events carries every generation.
pub proof fn lemma_events_carry(items: Seq<SinkItem>, g: u64)
    requires
        all_events(items),
    ensures
        msgs_carry(items, g),
{
    assert forall|k: int| 0 <= k < items.len() implies ((#[trigger] items[k]) matches SinkItem::Msg { gen, .. } ==> gen
        == g) by {
        assert(items[k] is Ev);
    }
}

/// Draining, then closing a gap, emits messages of the state's generation and keeps it.
pub proof fn lemma_drain_close_carry(s: SequencerView, now: u64)
    ensures
        ({
            let (s1, out1) = drain_step(s, s.gen, now);
            let (s2, out2) = close_step(s1, s1.gen);
            &&& msgs_carry(out1 + out2, s.gen)
            &&& s2.gen == s.gen
        }),
{
    lemma_drain_carry(s.lens, s.arena, s.w, s.staged_count, s.gen);
    let (s1, out1) = drain_step(s, s.gen, now);
    let (s2, out2) = close_step(s1, s1.gen);
    assert(all_events(out2));
    lemma_events_carry(out2, s.gen);
    lemma_carry_append(out1, out2, s.gen);
}

/// A data frame emits messages of the generation the sequencer holds afterwards, which is
/// at least the one it held before.
pub proof fn lemma_data_carry(s: SequencerView, frame: Seq<u8>, feed: crate::arbitrator::types::FeedId, now: u64, hdr: Header)
    requires
        s.gen < u64::MAX,
    ensures
        ({
            let (s1, out) = classic_data(s, frame, feed, now, hdr);
            msgs_carry(out, s1.gen) && s1.gen >= s.gen
        }),
{
    if s.state != State::Ended {
        if let Some((first, last)) = span_of(hdr.seq, hdr.count) {
            let (apply, s2) = entry_step(s, feed, hdr.count, first, last, now);
            if apply {
                let (ms, ferr) = lenient_blocks(frame.skip(HEADER_LEN as int), hdr.count as nat);
                if first <= s2.w {
                    let skip = if s2.w - first < hdr.count { (s2.w - first) as u64 } else { hdr.count as u64 };
                    let todo = numbered_visits(ms, first, skip as nat);
                    lemma_emit_carry(todo, s2.gen);
                    let (out, perr) = emit_run(todo, s2.gen);
                    let c1 = Counters {
                        dup_msgs: s2.counters.dup_msgs.wrapping_add(skip),
                        msgs_emitted: s2.counters.msgs_emitted.wrapping_add(out.len() as u64),
                        ..s2.counters
                    };
                    let sc = SequencerView { counters: c1, ..s2 };
                    if walk_error(perr, ferr) is None {
                        let w1 = last.wrapping_add(1);
                        let (l1, sc1, m1) = if sc.mutation != crate::arbitrator::types::SequencerMutation::DisableClearOnAdvance {
                            crate::arbitrator::window::clear_effect(sc.lens, sc.staged_count, sc.max_staged, sc.w, w1)
                        } else {
                            (sc.lens, sc.staged_count, sc.max_staged)
                        };
                        let sv = SequencerView { w: w1, lens: l1, staged_count: sc1, max_staged: m1, progress_vt: now, ..sc };
                        lemma_drain_close_carry(sv, now);
                        let (s3, out2) = drain_step(sv, sv.gen, now);
                        let (s4, out3) = close_step(s3, s3.gen);
                        lemma_carry_append(out, out2 + out3, s2.gen);
                        assert(contig_finish(sc, last, now).1 == out2 + out3);
                    }
                } else {
                    let todo = numbered_visits(ms, first, 0);
                    let (ga, g, h, st, c, out1) = crate::arbitrator::gap::gap_evidence_effect(
                        s2.gap_active,
                        s2.gen,
                        s2.evidence_hwm,
                        s2.w,
                        first,
                        s2.state,
                        s2.counters,
                    );
                    assert(all_events(out1));
                    lemma_events_carry(out1, g);
                    let clamp = if s2.mutation == crate::arbitrator::types::SequencerMutation::OffByOneClamp {
                        s2.w.wrapping_add(512)
                    } else {
                        s2.w.wrapping_add(1024)
                    };
                    let (l, a, sc, c2, perr) = stage_run(todo, s2.lens, s2.arena, s2.staged_count, c, s2.w, clamp);
                    let sg = SequencerView {
                        gap_active: ga,
                        gen: g,
                        evidence_hwm: h,
                        state: st,
                        lens: l,
                        arena: a,
                        staged_count: sc,
                        counters: c2,
                        ..s2
                    };
                    if walk_error(perr, ferr) is None {
                        let h2 = if last >= sg.w.wrapping_add(1024) {
                            let l1 = last.wrapping_add(1);
                            if sg.evidence_hwm >= l1 { sg.evidence_hwm } else { l1 }
                        } else {
                            sg.evidence_hwm
                        };
                        let s3 = SequencerView {
                            evidence_hwm: h2,
                            max_staged: if sg.max_staged >= last { sg.max_staged } else { last },
                            ..sg
                        };
                        lemma_drain_close_carry(s3, now);
                        let (s4, out2) = drain_step(s3, s3.gen, now);
                        let (s5, out3) = close_step(s4, s4.gen);
                        lemma_carry_append(out1, out2 + out3, g);
                        assert(gap_finish(sg, last, now).1 == out2 + out3);
                    }
                }
            }
        }
    }
}

/// The generation law: ingesting a frame emits messages only under the generation the
/// sequencer holds after the frame, and that generation is never older than the one it
/// held before. So the generations a consumer sees never go back, and each is at least
/// that of every gap opening and session boundary it saw before.
pub proof fn law_ingest_generation(s: SequencerView, frame: Seq<u8>, feed: crate::arbitrator::types::FeedId, now: u64)
    requires
        s.gen + 2 <= u64::MAX,
    ensures
        ({
            let (s1, out) = spec_ingest(s, frame, feed, now);
            msgs_carry(out, s1.gen) && s1.gen >= s.gen
        }),
{
    let (go, s1, out1) = frame_prelude(s, frame, feed);
    let hdr = frame_header(frame);
    assert(all_events(out1));
    if go {
        if hdr.count == HEARTBEAT_COUNT {
            let (s2, out2) = heartbeat_step(s1, hdr.seq, now);
            assert(all_events(out2));
            lemma_events_carry(out1 + out2, s2.gen);
            assert(all_events(out1 + out2)) by {
                assert forall|k: int| 0 <= k < (out1 + out2).len() implies (#[trigger] (out1 + out2)[k]) is Ev by {
                    if k < out1.len() {
                        assert((out1 + out2)[k] == out1[k]);
                    } else {
                        assert((out1 + out2)[k] == out2[k - out1.len()]);
                    }
                }
            }
        } else if hdr.count == EOS_COUNT {
            let (s2, out2) = eos_step(s1, hdr.seq);
            assert(all_events(out2));
            lemma_events_carry(out1, s2.gen);
            lemma_events_carry(out2, s2.gen);
            lemma_carry_append(out1, out2, s2.gen);
        } else {
            lemma_data_carry(s1, frame, feed, now, hdr);
            let (s2, out2) = classic_data(s1, frame, feed, now, hdr);
            lemma_events_carry(out1, s2.gen);
            lemma_carry_append(out1, out2, s2.gen);
        }
    } else {
        lemma_events_carry(out1, s1.gen);
    }
}

/// Generations never go back across calls: every message of a later ingestion carries a
/// generation at least that of every message of an earlier one.
pub proof fn law_generations_across_calls(
    s: SequencerView,
    f1: Seq<u8>,
    feed1: crate::arbitrator::types::FeedId,
    now1: u64,
    f2: Seq<u8>,
    feed2: crate::arbitrator::types::FeedId,
    now2: u64,
)
    requires
        s.gen + 4 <= u64::MAX,
    ensures
        ({
            let (s1, out1) = spec_ingest(s, f1, feed1, now1);
            let (s2, out2) = spec_ingest(s1, f2, feed2, now2);
            forall|a: int, b: int|
                #![trigger out1[a], out2[b]]
                0 <= a < out1.len() && 0 <= b < out2.len() && out1[a] is Msg && out2[b] is Msg ==> out1[a]->Msg_gen
                    <= out2[b]->Msg_gen
        }),
{
    law_ingest_generation(s, f1, feed1, now1);
    let (s1, out1) = spec_ingest(s, f1, feed1, now1);
    assert(s1.gen <= s.gen + 2) by {
        lemma_gen_step(s, f1, feed1, now1);
    }
    law_ingest_generation(s1, f2, feed2, now2);
    let (s2, out2) = spec_ingest(s1, f2, feed2, now2);
    assert forall|a: int, b: int|
        #![trigger out1[a], out2[b]]
        0 <= a < out1.len() && 0 <= b < out2.len() && out1[a] is Msg && out2[b] is Msg implies out1[a]->Msg_gen
            <= out2[b]->Msg_gen by {
        assert(out1[a] matches SinkItem::Msg { gen, .. } ==> gen == s1.gen);
        assert(out2[b] matches SinkItem::Msg { gen, .. } ==> gen == s2.gen);
    }
}

/// One ingestion raises the generation by at most two (a session boundary and a gap).
pub proof fn lemma_gen_step(s: SequencerView, frame: Seq<u8>, feed: crate::arbitrator::types::FeedId, now: u64)
    requires
        s.gen + 2 <= u64::MAX,
    ensures
        spec_ingest(s, frame, feed, now).0.gen <= s.gen + 2,
{
}

/// No session boundary among `items`.
pub open spec fn boundary_free(items: Seq<SinkItem>) -> bool {
    forall|k: int| 0 <= k < items.len() ==> !((#[trigger] items[k]) matches SinkItem::Ev(
        crate::arbitrator::types::Event::SessionBoundary { .. },
    ))
}

/// Joining two runs free of session boundaries gives one.
pub proof fn lemma_free_append(a: Seq<SinkItem>, b: Seq<SinkItem>)
    requires
        boundary_free(a),
        boundary_free(b),
    ensures
        boundary_free(a + b),
{
    assert forall|k: int| 0 <= k < (a + b).len() implies !((#[trigger] (a + b)[k]) matches SinkItem::Ev(
        crate::arbitrator::types::Event::SessionBoundary { .. },
    )) by {
        if k < a.len() {
            assert((a + b)[k] == a[k]);
        } else {
            assert((a + b)[k] == b[k - a.len()]);
        }
    }
}

/// Messages alone hold no session boundary.
pub proof fn lemma_carry_free(items: Seq<SinkItem>)
    requires
        forall|k: int| 0 <= k < items.len() ==> (#[trigger] items[k]) is Msg,
    ensures
        boundary_free(items),
{
    assert forall|k: int| 0 <= k < items.len() implies !((#[trigger] items[k]) matches SinkItem::Ev(
        crate::arbitrator::types::Event::SessionBoundary { .. },
    )) by {
        assert(items[k] is Msg);
    }
}

/// Emitting blocks emits messages only.
pub proof fn lemma_emit_msgs(blocks: Seq<(u64, Seq<u8>)>, gen: u64)
    ensures
        forall|k: int| 0 <= k < emit_run(blocks, gen).0.len() ==> (#[trigger] emit_run(blocks, gen).0[k]) is Msg,
    decreases blocks.len(),
{
    if blocks.len() > 0 {
        lemma_emit_msgs(blocks.drop_first(), gen);
        let (seq, data) = blocks[0];
        let tail = emit_run(blocks.drop_first(), gen).0;
        if crate::protocol::itch5::spec_validate(data) is Ok {
            let all = emit_run(blocks, gen).0;
            assert(all == seq![SinkItem::Msg { gen, seq, data }] + tail);
            assert forall|k: int| 0 <= k < all.len() implies (#[trigger] all[k]) is Msg by {
                if k > 0 {
                    assert(all[k] == tail[k - 1]);
                }
            }
        }
    }
}

/// Draining emits messages only.
pub proof fn lemma_drain_msgs(lens: Seq<u8>, arena: Seq<u8>, w: u64, staged: u32, gen: u64)
    ensures
        forall|k: int| 0 <= k < drain_run(lens, arena, w, staged, gen).3.len() ==> (#[trigger] drain_run(
            lens,
            arena,
            w,
            staged,
            gen,
        ).3[k]) is Msg,
    decreases staged,
{
    let slot = crate::arbitrator::window::slot_of(w);
    if staged != 0 && lens[slot] != 0 {
        let l2 = lens.update(slot, 0);
        lemma_drain_msgs(l2, arena, w.wrapping_add(1), (staged - 1) as u32, gen);
        let tail = drain_run(l2, arena, w.wrapping_add(1), (staged - 1) as u32, gen).3;
        let all = drain_run(lens, arena, w, staged, gen).3;
        assert forall|k: int| 0 <= k < all.len() implies (#[trigger] all[k]) is Msg by {
            if k > 0 {
                assert(all[k] == tail[k - 1]);
            }
        }
    }
}

/// Draining, then closing a gap, emits no session boundary.
pub proof fn lemma_drain_close_free(s: SequencerView, now: u64)
    ensures
        ({
            let (s1, out1) = drain_step(s, s.gen, now);
            let (s2, out2) = close_step(s1, s1.gen);
            boundary_free(out1 + out2)
        }),
{
    lemma_drain_msgs(s.lens, s.arena, s.w, s.staged_count, s.gen);
    let (s1, out1) = drain_step(s, s.gen, now);
    let (s2, out2) = close_step(s1, s1.gen);
    lemma_carry_free(out1);
    assert(all_events(out2));
    assert(boundary_free(out2));
    lemma_free_append(out1, out2);
}

/// A frame of the session the sequencer follows (or of any, while it follows none)
/// brings no session boundary: only a change of session does.
pub proof fn law_same_session_no_boundary(s: SequencerView, frame: Seq<u8>, feed: crate::arbitrator::types::FeedId, now: u64)
    requires
        frame.len() >= HEADER_LEN ==> (crate::arbitrator::session::is_unset(s.session) || frame_header(frame).session@
            == s.session@),
    ensures
        boundary_free(spec_ingest(s, frame, feed, now).1),
{
    let (go, s1, out1) = frame_prelude(s, frame, feed);
    let hdr = frame_header(frame);
    assert(out1.len() == 0);
    assert(boundary_free(out1));
    if go {
        if hdr.count == HEARTBEAT_COUNT {
            let (s2, out2) = heartbeat_step(s1, hdr.seq, now);
            assert(boundary_free(out2));
            lemma_free_append(out1, out2);
        } else if hdr.count == EOS_COUNT {
            let (s2, out2) = eos_step(s1, hdr.seq);
            assert(boundary_free(out2));
            lemma_free_append(out1, out2);
        } else {
            lemma_data_free(s1, frame, feed, now, hdr);
            lemma_free_append(out1, classic_data(s1, frame, feed, now, hdr).1);
        }
    }
}

/// A data frame emits no session boundary.
pub proof fn lemma_data_free(s: SequencerView, frame: Seq<u8>, feed: crate::arbitrator::types::FeedId, now: u64, hdr: Header)
    ensures
        boundary_free(classic_data(s, frame, feed, now, hdr).1),
{
    if s.state != State::Ended {
        if let Some((first, last)) = span_of(hdr.seq, hdr.count) {
            let (apply, s2) = entry_step(s, feed, hdr.count, first, last, now);
            if apply {
                let (ms, ferr) = lenient_blocks(frame.skip(HEADER_LEN as int), hdr.count as nat);
                if first <= s2.w {
                    let skip = if s2.w - first < hdr.count { (s2.w - first) as u64 } else { hdr.count as u64 };
                    let todo = numbered_visits(ms, first, skip as nat);
                    lemma_emit_msgs(todo, s2.gen);
                    let (out, perr) = emit_run(todo, s2.gen);
                    lemma_carry_free(out);
                    let c1 = Counters {
                        dup_msgs: s2.counters.dup_msgs.wrapping_add(skip),
                        msgs_emitted: s2.counters.msgs_emitted.wrapping_add(out.len() as u64),
                        ..s2.counters
                    };
                    let sc = SequencerView { counters: c1, ..s2 };
                    if walk_error(perr, ferr) is None {
                        let w1 = last.wrapping_add(1);
                        let (l1, sc1, m1) = if sc.mutation != crate::arbitrator::types::SequencerMutation::DisableClearOnAdvance {
                            crate::arbitrator::window::clear_effect(sc.lens, sc.staged_count, sc.max_staged, sc.w, w1)
                        } else {
                            (sc.lens, sc.staged_count, sc.max_staged)
                        };
                        let sv = SequencerView { w: w1, lens: l1, staged_count: sc1, max_staged: m1, progress_vt: now, ..sc };
                        lemma_drain_close_free(sv, now);
                        let (s3, out2) = drain_step(sv, sv.gen, now);
                        let (s4, out3) = close_step(s3, s3.gen);
                        lemma_free_append(out, out2 + out3);
                        assert(contig_finish(sc, last, now).1 == out2 + out3);
                    }
                } else {
                    let todo = numbered_visits(ms, first, 0);
                    let (ga, g, h, st, c, out1) = crate::arbitrator::gap::gap_evidence_effect(
                        s2.gap_active,
                        s2.gen,
                        s2.evidence_hwm,
                        s2.w,
                        first,
                        s2.state,
                        s2.counters,
                    );
                    assert(boundary_free(out1));
                    let clamp = if s2.mutation == crate::arbitrator::types::SequencerMutation::OffByOneClamp {
                        s2.w.wrapping_add(512)
                    } else {
                        s2.w.wrapping_add(1024)
                    };
                    let (l, a, sc, c2, perr) = stage_run(todo, s2.lens, s2.arena, s2.staged_count, c, s2.w, clamp);
                    let sg = SequencerView {
                        gap_active: ga,
                        gen: g,
                        evidence_hwm: h,
                        state: st,
                        lens: l,
                        arena: a,
                        staged_count: sc,
                        counters: c2,
                        ..s2
                    };
                    if walk_error(perr, ferr) is None {
                        let h2 = if last >= sg.w.wrapping_add(1024) {
                            let l1 = last.wrapping_add(1);
                            if sg.evidence_hwm >= l1 { sg.evidence_hwm } else { l1 }
                        } else {
                            sg.evidence_hwm
                        };
                        let s3 = SequencerView {
                            evidence_hwm: h2,
                            max_staged: if sg.max_staged >= last { sg.max_staged } else { last },
                            ..sg
                        };
                        lemma_drain_close_free(s3, now);
                        let (s4, out2) = drain_step(s3, s3.gen, now);
                        let (s5, out3) = close_step(s4, s4.gen);
                        lemma_free_append(out1, out2 + out3);
                        assert(gap_finish(sg, last, now).1 == out2 + out3);
                    }
                }
            }
        }
    }
}

} // verus!
