//! The gap evidence law at the level of a whole frame: while a gap is open, a frame
//! staged beyond the watermark is evidence the gap keeps until the watermark reaches it.

use vstd::prelude::*;
use crate::arbitrator::conformance::beyond_watermark;
use crate::arbitrator::gap::{gap_evidence_effect, law_evidence_covered, law_gap_closes_at_evidence};
use crate::arbitrator::transition::{
    drain_step, entry_step, frame_header, frame_prelude, gap_finish, spec_ingest, stage_run, walk_error,
    SequencerView,
};
use crate::arbitrator::types::{FeedId, SequencerMutation};
use crate::protocol::moldudp64::{span_of, HEADER_LEN};
use crate::protocol::packet::{lenient_blocks, numbered_visits};

verus! {

/// Settling a frame beyond the watermark keeps every piece of evidence the gap held: if
/// the gap is still open its high-water mark is at least what it was, and if it closed,
/// the watermark reached that mark.
pub proof fn lemma_finish_keeps_evidence(s: SequencerView, last: u64, now: u64)
    requires
        s.gap_active,
    ensures
        ({
            let s1 = gap_finish(s, last, now).0;
            &&& s1.gap_active ==> s1.evidence_hwm >= s.evidence_hwm
            &&& !s1.gap_active ==> s1.w >= s.evidence_hwm
        }),
{
    let h2 = if last >= s.w.wrapping_add(1024) {
        let l1 = last.wrapping_add(1);
        if s.evidence_hwm >= l1 { s.evidence_hwm } else { l1 }
    } else {
        s.evidence_hwm
    };
    let s3 = SequencerView {
        evidence_hwm: h2,
        max_staged: if s.max_staged >= last { s.max_staged } else { last },
        ..s
    };
    let (s4, out2) = drain_step(s3, s3.gen, now);
    law_gap_closes_at_evidence(s4.gap_active, s4.evidence_hwm, s4.w, s4.gen, s4.state, s4.counters);
}

/// The gap evidence law for a frame: while a gap is open, a data frame staged beyond the
/// watermark (numbered from `seq`, without running past `u64::MAX`) is evidence the gap
/// keeps. After it, either the gap is
/// still open with an evidence high-water mark at least `seq` and at least the one it
/// had, or the gap has closed and the watermark has reached both.
pub proof fn law_ingest_keeps_evidence(s: SequencerView, frame: Seq<u8>, feed: FeedId, now: u64)
    requires
        s.gap_active,
        beyond_watermark(s, frame),
        span_of(frame_header(frame).seq, frame_header(frame).count) is Some,
    ensures
        ({
            let s1 = spec_ingest(s, frame, feed, now).0;
            let x = frame_header(frame).seq;
            &&& s1.gap_active ==> s1.evidence_hwm >= x && s1.evidence_hwm >= s.evidence_hwm
            &&& !s1.gap_active ==> s1.w >= x && s1.w >= s.evidence_hwm
        }),
{
    let (go, s1, out1) = frame_prelude(s, frame, feed);
    let hdr = frame_header(frame);
    assert(go && s1.gap_active && s1.w == s.w && s1.state == s.state && s1.evidence_hwm == s.evidence_hwm);
    if let Some((first, last)) = span_of(hdr.seq, hdr.count) {
        let (apply, s2) = entry_step(s1, feed, hdr.count, first, last, now);
        assert(apply && s2 == s1);
        let (ms, ferr) = lenient_blocks(frame.skip(HEADER_LEN as int), hdr.count as nat);
        let todo = numbered_visits(ms, first, 0);
        law_evidence_covered(s2.gap_active, s2.gen, s2.evidence_hwm, s2.w, first, s2.state, s2.counters);
        let (ga, g, h, st, c, out) = gap_evidence_effect(
            s2.gap_active,
            s2.gen,
            s2.evidence_hwm,
            s2.w,
            first,
            s2.state,
            s2.counters,
        );
        let clamp = if s2.mutation == SequencerMutation::OffByOneClamp {
            s2.w.wrapping_add(512)
        } else {
            s2.w.wrapping_add(1024)
        };
        let (l, a, sc, c2, perr) = stage_run(todo, s2.lens, s2.arena, s2.staged_count, c, s2.w, clamp);
        let sg = SequencerView {
            gap_active: ga,
            gen: g,
            evidence_hwm: h,
            state: st,
            lens: l,
            arena: a,
            staged_count: sc,
            counters: c2,
            ..s2
        };
        if walk_error(perr, ferr) is None {
            lemma_finish_keeps_evidence(sg, last, now);
        }
    }
}

} // verus!
