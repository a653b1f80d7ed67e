//! Soundness of recovery intents: every intent the sequencer issues asks for a nonempty
//! range that starts at the watermark and spans at most one wire request.
//!
//! The law rests on an invariant of the sequencer: every message its window holds is
//! numbered at most `max_staged`, the window has been drained as far as it goes, and a
//! pending recovery target lies strictly past the watermark, at most one wire request
//! beyond it.

use vstd::prelude::*;
use crate::arbitrator::window::{
    clear_effect, clear_run, drain_run, lemma_occupied_update, lemma_occupied_zero_means_empty, nz,
    occupied, slot_of, stage_effect,
};
use crate::arbitrator::fidelity::{
    fidelity_bound, lemma_clear_run, lemma_lenient_at_most, lemma_slots, lemma_visits_true, lemma_wrap_pos,
};
use crate::arbitrator::counters::{inc, Counters};
use crate::arbitrator::transition::{
    classic_data, close_step, contig_finish, contig_step, dispatch_step, drain_step, emit_run,
    entry_step, eos_step, frame_header, frame_prelude, gap_finish, gap_step, heartbeat_step,
    settle_pending, spec_ingest, stage_run, violated, view_wf, walk_error, SequencerView,
};
use crate::arbitrator::conformance::{beyond_watermark, clean_blocks, ends_below, seq_bound};
use crate::arbitrator::intent::{intent_effect, MAX_WIRE_REQUEST};
use crate::arbitrator::session::is_unset;
use crate::arbitrator::state::State;
use crate::arbitrator::types::{FeedId, SequencerMutation};
use crate::protocol::itch5::spec_validate;
use crate::protocol::moldudp64::{span_of, Header, HEADER_LEN, EOS_COUNT, HEARTBEAT_COUNT};
use crate::protocol::packet::{lenient_blocks, numbered_visits};

verus! {

/// Every message the window holds for a number of `[w, w + 1024)` is numbered at most
/// `m`.
pub open spec fn window_below(lens: Seq<u8>, w: u64, m: u64) -> bool {
    forall|n: u64| w <= n < w + 1024 && #[trigger] lens[slot_of(n)] != 0 ==> n <= m
}

/// The window has 1024 slots of at most 64 bytes each and `staged` of them are occupied.
pub open spec fn window_counted(lens: Seq<u8>, staged: u32) -> bool {
    &&& lens.len() == 1024
    &&& staged == occupied(lens)
    &&& forall|i: int| 0 <= i < 1024 ==> #[trigger] lens[i] <= 65
}

/// Every block carries a valid ITCH message.
pub open spec fn all_valid(blocks: Seq<(u64, Seq<u8>)>) -> bool {
    forall|k: int| 0 <= k < blocks.len() ==> spec_validate((#[trigger] blocks[k]).1) is Ok
}

/// Staging blocks numbered past `w` and at most `m`, below a clamp at most a window past
/// `w`, keeps the window counted and holding nothing numbered past `m`.
pub proof fn lemma_stage_below(
    blocks: Seq<(u64, Seq<u8>)>,
    lens: Seq<u8>,
    arena: Seq<u8>,
    staged: u32,
    c: Counters,
    w: u64,
    clamp: u64,
    m: u64,
)
    requires
        window_counted(lens, staged),
        arena.len() == 65536,
        window_below(lens, w, m),
        clamp <= w + 1024,
        forall|k: int| 0 <= k < blocks.len() ==> w < (#[trigger] blocks[k]).0 <= m,
    ensures
        ({
            let (l, a, s2, c2, err) = stage_run(blocks, lens, arena, staged, c, w, clamp);
            &&& window_counted(l, s2)
            &&& a.len() == 65536
            &&& window_below(l, w, m)
            &&& (all_valid(blocks) ==> err is None)
        }),
    decreases blocks.len(),
{
    if blocks.len() > 0 {
        let (seq, data) = blocks[0];
        assert(w < blocks[0].0 <= m);
        let rest = blocks.drop_first();
        assert forall|k: int| 0 <= k < rest.len() implies w < (#[trigger] rest[k]).0 <= m by {
            assert(rest[k] == blocks[k + 1]);
        }
        if all_valid(blocks) {
            assert forall|k: int| 0 <= k < rest.len() implies spec_validate((#[trigger] rest[k]).1) is Ok by {
                assert(rest[k] == blocks[k + 1]);
            }
            assert(spec_validate(blocks[0].1) is Ok);
        }
        if spec_validate(data) is Ok {
            if seq < clamp {
                let (ok, l2, a2, s2) = stage_effect(lens, arena, staged, w, seq, data);
                let slot = slot_of(seq);
                assert(seq.wrapping_sub(w) == seq - w);
                assert(ok);
                let len: int = if data.len() < 64 { data.len() as int } else { 64 };
                assert(l2 == lens.update(slot, (len + 1) as u8));
                lemma_occupied_update(lens, slot, (len + 1) as u8);
                crate::arbitrator::window::lemma_occupied_bound(lens);
                assert(nz((len + 1) as u8) == 1);
                assert(s2 == occupied(l2));
                assert(0 <= slot < 1024);
                assert(slot * 64 + len <= 65536) by (nonlinear_arith)
                    requires
                        0 <= slot < 1024,
                        0 <= len <= 64,
                ;
                assert forall|i: int| 0 <= i < 1024 implies #[trigger] l2[i] <= 65 by {
                    assert(lens[i] <= 65);
                }
                assert forall|n: u64| w <= n < w + 1024 && #[trigger] l2[slot_of(n)] != 0 implies n <= m by {
                    if n < seq {
                        lemma_slots(n, seq);
                    } else if n > seq {
                        lemma_slots(seq, n);
                    }
                    if n != seq {
                        assert(lens[slot_of(n)] != 0);
                    }
                }
                let c2 = if ok {
                    Counters { staged_msgs: inc(c.staged_msgs), ..c }
                } else {
                    Counters { beyond_window_dropped: inc(c.beyond_window_dropped), ..c }
                };
                lemma_stage_below(rest, l2, a2, s2, c2, w, clamp, m);
            } else {
                let c2 = Counters { beyond_window_dropped: inc(c.beyond_window_dropped), ..c };
                lemma_stage_below(rest, lens, arena, staged, c2, w, clamp, m);
            }
        }
    }
}

/// Draining from `w` keeps the window counted and holding nothing numbered past `m`; the
/// watermark stops at an empty slot or an empty window, at most one past `m`.
pub proof fn lemma_drain_below(lens: Seq<u8>, arena: Seq<u8>, w: u64, staged: u32, gen: u64, m: u64)
    requires
        window_counted(lens, staged),
        window_below(lens, w, m),
        w <= fidelity_bound(),
        m < fidelity_bound(),
    ensures
        ({
            let (l, w2, s2, out) = drain_run(lens, arena, w, staged, gen);
            &&& window_counted(l, s2)
            &&& window_below(l, w2, m)
            &&& w <= w2 <= fidelity_bound()
            &&& (w2 > w ==> w2 <= m + 1)
            &&& (s2 == 0 || l[slot_of(w2)] == 0)
        }),
    decreases staged,
{
    let slot = slot_of(w);
    if staged != 0 && lens[slot] != 0 {
        assert(w <= m);
        let l2 = lens.update(slot, 0);
        let w1 = w.wrapping_add(1);
        assert(w1 == w + 1);
        lemma_occupied_update(lens, slot, 0);
        assert forall|i: int| 0 <= i < 1024 implies #[trigger] l2[i] <= 65 by {
            assert(lens[i] <= 65);
        }
        assert forall|n: u64| w1 <= n < w1 + 1024 && #[trigger] l2[slot_of(n)] != 0 implies n <= m by {
            lemma_slots(w, n);
            assert(lens[slot_of(n)] != 0);
        }
        lemma_drain_below(l2, arena, w1, (staged - 1) as u32, gen, m);
    }
}

/// Clearing positions `start + i, ..., start + n - 1` (modulo 1024) keeps the occupied
/// count, and leaves `max_staged` as it was unless the window empties.
pub proof fn lemma_clear_run_counted(lens: Seq<u8>, staged: u32, max_staged: u64, start: int, i: int, n: int)
    requires
        window_counted(lens, staged),
        0 <= start < 1024,
        0 <= i <= n,
    ensures
        ({
            let (l, s2, m2) = clear_run(lens, staged, max_staged, start, i, n);
            &&& window_counted(l, s2)
            &&& (m2 == max_staged || (s2 == 0 && m2 == 0))
        }),
    decreases n - i,
{
    if i < n {
        let slot = (start + i) % 1024;
        if lens[slot] != 0 {
            let l2 = lens.update(slot, 0);
            lemma_occupied_update(lens, slot, 0);
            assert(nz(lens[slot]) == 1);
            assert forall|k: int| 0 <= k < 1024 implies #[trigger] l2[k] <= 65 by {
                assert(lens[k] <= 65);
            }
            if staged - 1 != 0 {
                lemma_clear_run_counted(l2, (staged - 1) as u32, max_staged, start, i + 1, n);
            }
        } else {
            lemma_clear_run_counted(lens, staged, max_staged, start, i + 1, n);
        }
    }
}

/// Clearing the slots the watermark passes on its way from `old_w` to `new_w` keeps the
/// window counted, and from `new_w` it holds nothing numbered past the new `max_staged`.
pub proof fn lemma_clear_below(lens: Seq<u8>, staged: u32, max_staged: u64, old_w: u64, new_w: u64)
    requires
        window_counted(lens, staged),
        window_below(lens, old_w, max_staged),
        old_w <= new_w <= fidelity_bound(),
    ensures
        ({
            let (l, s2, m2) = clear_effect(lens, staged, max_staged, old_w, new_w);
            &&& window_counted(l, s2)
            &&& window_below(l, new_w, m2)
            &&& (m2 == max_staged || m2 == 0)
        }),
{
    let (l, s2, m2) = clear_effect(lens, staged, max_staged, old_w, new_w);
    if staged == 0 {
        assert forall|n: u64| new_w <= n < new_w + 1024 && #[trigger] l[slot_of(n)] != 0 implies n <= m2 by {
            lemma_occupied_zero_means_empty(lens, slot_of(n));
        }
    } else {
        assert(old_w.saturating_add(1024) == old_w + 1024);
        let limit: int = if new_w < old_w + 1024 { new_w as int } else { old_w + 1024 };
        if limit > old_w {
            lemma_clear_run(lens, staged, max_staged, slot_of(old_w), 0, limit - old_w);
            lemma_clear_run_counted(lens, staged, max_staged, slot_of(old_w), 0, limit - old_w);
            assert forall|n: u64| new_w <= n < new_w + 1024 && #[trigger] l[slot_of(n)] != 0 implies n <= m2 by {
                if s2 == 0 {
                    lemma_occupied_zero_means_empty(l, slot_of(n));
                }
                assert(l[slot_of(n)] == 0 || l[slot_of(n)] == lens[slot_of(n)]);
                if n < old_w + 1024 {
                    assert(lens[slot_of(n)] != 0);
                } else {
                    let j = lemma_wrap_pos(old_w, n);
                    assert(l[(slot_of(old_w) + j) % 1024] == 0);
                }
            }
        }
    }
}

/// A pending recovery target lies strictly past `w`, at most one wire request beyond it.
pub open spec fn pending_sound(w: u64, pending: Option<u64>) -> bool {
    pending matches Some(p) ==> w < p && p <= w + MAX_WIRE_REQUEST
}

/// A pending recovery target lies at most one wire request beyond `w`.
pub open spec fn pending_within(w: u64, pending: Option<u64>) -> bool {
    pending matches Some(p) ==> p <= w + MAX_WIRE_REQUEST
}

/// The window is well formed and holds nothing numbered past `max_staged`; watermark
/// and `max_staged` lie below the fidelity bound.
pub open spec fn staged_sound(s: SequencerView) -> bool {
    &&& view_wf(s)
    &&& s.w <= fidelity_bound()
    &&& s.max_staged < fidelity_bound()
    &&& window_below(s.lens, s.w, s.max_staged)
}

/// The window has been drained as far as it goes: it is empty or the watermark's slot
/// is.
pub open spec fn drained(s: SequencerView) -> bool {
    s.staged_count == 0 || s.lens[slot_of(s.w)] == 0
}

/// The invariant behind sound recovery intents: the window is sound and drained, before
/// the first data frame of a session nothing is staged or pending, and a pending target
/// lies strictly past the watermark, at most one wire request beyond it.
pub open spec fn intents_sound(s: SequencerView) -> bool {
    &&& staged_sound(s)
    &&& drained(s)
    &&& (s.state == State::Init ==> s.staged_count == 0 && s.pending_to is None)
    &&& pending_sound(s.w, s.pending_to)
}

/// A number of `[w, w + 1024)` sits in each slot.
pub proof fn lemma_slot_pos(w: u64, i: int) -> (n: u64)
    requires
        0 <= i < 1024,
        w + 1024 <= u64::MAX,
    ensures
        w <= n < w + 1024,
        slot_of(n) == i,
{
    let r = (w % 1024) as int;
    let q = (w / 1024) as int;
    vstd::arithmetic::div_mod::lemma_fundamental_div_mod(w as int, 1024);
    let d: int = if i >= r { i - r } else { i + 1024 - r };
    let n = (w + d) as u64;
    assert((1024 * q + r + d) % 1024 == i) by (nonlinear_arith)
        requires
            r + d == i || r + d == i + 1024,
            0 <= i < 1024,
            q >= 0,
    {
        if r + d == i + 1024 {
            assert(1024 * q + r + d == 1024 * (q + 1) + i);
        }
    }
    n
}

/// A window holding something holds a slot other than the watermark's once drained, so
/// `max_staged` lies past the watermark.
pub proof fn lemma_staged_past(s: SequencerView)
    requires
        staged_sound(s),
        drained(s),
        s.staged_count > 0,
    ensures
        s.max_staged > s.w,
{
    if forall|i: int| 0 <= i < 1024 ==> #[trigger] s.lens[i] == 0 {
        assert(s.lens =~= Seq::new(1024, |i: int| 0u8));
        crate::arbitrator::window::lemma_occupied_zeros(1024);
    }
    let i = choose|i: int| 0 <= i < 1024 && #[trigger] s.lens[i] != 0;
    let n = lemma_slot_pos(s.w, i);
    assert(s.lens[slot_of(n)] != 0);
}

/// Draining keeps the window sound and leaves it drained; the watermark only moves
/// forward.
pub proof fn lemma_drain_step_sound(s: SequencerView, gen: u64, now: u64)
    requires
        staged_sound(s),
    ensures
        ({
            let (s1, out) = drain_step(s, gen, now);
            &&& staged_sound(s1)
            &&& drained(s1)
            &&& s1.w >= s.w
            &&& s1 == (SequencerView {
                lens: s1.lens,
                w: s1.w,
                staged_count: s1.staged_count,
                max_staged: s1.max_staged,
                counters: s1.counters,
                progress_vt: s1.progress_vt,
                ..s
            })
        }),
{
    let (s1, out) = drain_step(s, gen, now);
    if s.staged_count != 0 {
        lemma_drain_below(s.lens, s.arena, s.w, s.staged_count, gen, s.max_staged);
        let (l, w2, s2, o) = drain_run(s.lens, s.arena, s.w, s.staged_count, gen);
        if s2 == 0 {
            assert forall|n: u64| w2 <= n < w2 + 1024 && #[trigger] l[slot_of(n)] != 0 implies n <= 0 by {
                lemma_occupied_zero_means_empty(l, slot_of(n));
            }
        }
    }
}

/// Settling a target at most one wire request past the watermark leaves a sound one.
pub proof fn lemma_settle_sound(s: SequencerView)
    requires
        pending_within(s.w, s.pending_to),
    ensures
        pending_sound(s.w, settle_pending(s).pending_to),
        settle_pending(s) == (SequencerView { pending_to: settle_pending(s).pending_to, ..s }),
{
}

/// Moving the watermark past `last` after emitting up to it keeps intents sound: the
/// slots passed are cleared, the window drains, a gap may close and a reached target
/// is forgotten.
pub proof fn lemma_contig_finish_sound(s: SequencerView, last: u64, now: u64)
    requires
        staged_sound(s),
        pending_sound(s.w, s.pending_to),
        s.mutation != SequencerMutation::DisableClearOnAdvance,
        s.state != State::Init,
        s.w <= last,
        last < fidelity_bound(),
    ensures
        intents_sound(contig_finish(s, last, now).0),
{
    let w1 = last.wrapping_add(1);
    assert(w1 == last + 1);
    lemma_clear_below(s.lens, s.staged_count, s.max_staged, s.w, w1);
    let (l1, sc1, m1) = clear_effect(s.lens, s.staged_count, s.max_staged, s.w, w1);
    let s2 = SequencerView { w: w1, lens: l1, staged_count: sc1, max_staged: m1, progress_vt: now, ..s };
    assert(staged_sound(s2));
    lemma_drain_step_sound(s2, s.gen, now);
    let (s3, out2) = drain_step(s2, s.gen, now);
    let (s4, out3) = close_step(s3, s.gen);
    assert(pending_within(s4.w, s4.pending_to));
    lemma_settle_sound(s4);
}

/// Settling a frame beyond the watermark, once its blocks are staged, keeps intents
/// sound: `max_staged` covers the frame, the window drains and a gap may close.
pub proof fn lemma_gap_finish_sound(s: SequencerView, last: u64, now: u64)
    requires
        view_wf(s),
        s.w <= fidelity_bound(),
        s.max_staged < fidelity_bound(),
        last < fidelity_bound(),
        window_below(s.lens, s.w, if s.max_staged >= last { s.max_staged } else { last }),
        pending_sound(s.w, s.pending_to),
        s.state != State::Init,
    ensures
        intents_sound(gap_finish(s, last, now).0),
{
    let h2 = if last >= s.w.wrapping_add(1024) {
        let l1 = last.wrapping_add(1);
        if s.evidence_hwm >= l1 { s.evidence_hwm } else { l1 }
    } else {
        s.evidence_hwm
    };
    let s3 = SequencerView {
        evidence_hwm: h2,
        max_staged: if s.max_staged >= last { s.max_staged } else { last },
        ..s
    };
    assert(staged_sound(s3));
    lemma_drain_step_sound(s3, s3.gen, now);
    let (s4, out2) = drain_step(s3, s3.gen, now);
    let (s5, out3) = close_step(s4, s4.gen);
    assert(pending_within(s5.w, s5.pending_to));
    lemma_settle_sound(s5);
}

/// Applying a frame that reaches the watermark keeps intents sound, whether its blocks
/// walk cleanly or not.
pub proof fn lemma_contig_step_sound(
    s: SequencerView,
    todo: Seq<(u64, Seq<u8>)>,
    ferr: Option<crate::protocol::moldudp64::FrameError>,
    skip: u64,
    last: u64,
    now: u64,
)
    requires
        intents_sound(s),
        s.mutation != SequencerMutation::DisableClearOnAdvance,
        s.state != State::Init,
        s.w <= last,
        last < fidelity_bound(),
    ensures
        intents_sound(contig_step(s, todo, ferr, skip, last, now).0),
{
    let (out, perr) = emit_run(todo, s.gen);
    let c1 = Counters {
        dup_msgs: s.counters.dup_msgs.wrapping_add(skip),
        msgs_emitted: s.counters.msgs_emitted.wrapping_add(out.len() as u64),
        ..s.counters
    };
    let sc = SequencerView { counters: c1, ..s };
    if walk_error(perr, ferr) is None {
        lemma_contig_finish_sound(sc, last, now);
    }
}

/// Applying a frame that starts beyond the watermark, whose blocks are numbered past the
/// watermark up to `last` and walk cleanly, keeps intents sound.
pub proof fn lemma_gap_step_sound(
    s: SequencerView,
    todo: Seq<(u64, Seq<u8>)>,
    first: u64,
    last: u64,
    now: u64,
)
    requires
        intents_sound(s),
        s.state != State::Init,
        last < fidelity_bound(),
        forall|k: int| 0 <= k < todo.len() ==> s.w < (#[trigger] todo[k]).0 <= last,
        all_valid(todo),
    ensures
        intents_sound(gap_step(s, todo, None, first, last, now).0),
{
    let (ga, g, h, st, c, out1) = crate::arbitrator::gap::gap_evidence_effect(
        s.gap_active,
        s.gen,
        s.evidence_hwm,
        s.w,
        first,
        s.state,
        s.counters,
    );
    let clamp = if s.mutation == SequencerMutation::OffByOneClamp {
        s.w.wrapping_add(512)
    } else {
        s.w.wrapping_add(1024)
    };
    assert(clamp <= s.w + 1024);
    let m: u64 = if s.max_staged >= last { s.max_staged } else { last };
    assert forall|n: u64| s.w <= n < s.w + 1024 && #[trigger] s.lens[slot_of(n)] != 0 implies n <= m by {
        assert(n <= s.max_staged);
    }
    lemma_stage_below(todo, s.lens, s.arena, s.staged_count, c, s.w, clamp, m);
    let (l, a, sc, c2, perr) = stage_run(todo, s.lens, s.arena, s.staged_count, c, s.w, clamp);
    let s2 = SequencerView {
        gap_active: ga,
        gen: g,
        evidence_hwm: h,
        state: st,
        lens: l,
        arena: a,
        staged_count: sc,
        counters: c2,
        ..s
    };
    assert(st != State::Init);
    lemma_gap_finish_sound(s2, last, now);
}

/// A data frame in a live session keeps intents sound, provided a frame staged beyond
/// the watermark walks cleanly and the frame is numbered below the conformance bound.
pub proof fn lemma_data_sound(s: SequencerView, frame: Seq<u8>, feed: FeedId, now: u64, hdr: Header)
    requires
        intents_sound(s),
        s.mutation != SequencerMutation::DisableClearOnAdvance,
        frame.len() >= HEADER_LEN,
        hdr == frame_header(frame),
        hdr.count != HEARTBEAT_COUNT,
        hdr.count != EOS_COUNT,
        ends_below(hdr.seq, hdr.count),
        s.state != State::Init && s.state != State::Ended && hdr.seq > s.w ==> clean_blocks(frame, hdr.count),
    ensures
        intents_sound(classic_data(s, frame, feed, now, hdr).0),
{
    if s.state != State::Ended {
        if let Some((first, last)) = span_of(hdr.seq, hdr.count) {
            let (apply, s2) = entry_step(s, feed, hdr.count, first, last, now);
            if s.state == State::Init {
                assert forall|n: u64| s2.w <= n < s2.w + 1024 && #[trigger] s2.lens[slot_of(n)] != 0 implies n
                    <= s2.max_staged by {
                    lemma_occupied_zero_means_empty(s.lens, slot_of(n));
                }
            }
            assert(intents_sound(s2));
            if apply {
                assert(s2.state != State::Init);
                assert(s2.w <= last);
                assert(last < fidelity_bound());
                let rest = frame.skip(HEADER_LEN as int);
                let (ms, ferr) = lenient_blocks(rest, hdr.count as nat);
                lemma_lenient_at_most(rest, hdr.count as nat);
                assert(first + ms.len() <= last + 1);
                if first <= s2.w {
                    let skip = if s2.w - first < hdr.count {
                        (s2.w - first) as u64
                    } else {
                        hdr.count as u64
                    };
                    lemma_contig_step_sound(s2, numbered_visits(ms, first, skip as nat), ferr, skip, last, now);
                } else {
                    assert(clean_blocks(frame, hdr.count));
                    let truth = |ss: Seq<u8>, n: u64| ms[n - first];
                    assert forall|k: int| 0 <= k < ms.len() implies #[trigger] ms[k] == truth(
                        s.session@,
                        (first + k) as u64,
                    ) by {}
                    lemma_visits_true(ms, first, 0, s.session@, truth);
                    let todo = numbered_visits(ms, first, 0);
                    assert forall|k: int| 0 <= k < todo.len() implies spec_validate((#[trigger] todo[k]).1) is Ok by {
                        assert(todo[k].1 == ms[todo[k].0 - first]);
                    }
                    assert forall|k: int| 0 <= k < todo.len() implies s2.w < (#[trigger] todo[k]).0 <= last by {}
                    lemma_gap_step_sound(s2, todo, first, last, now);
                }
            }
        }
    }
}

/// Session discovery or a boundary keeps intents sound: a boundary empties the window
/// and forgets the pending target.
pub proof fn lemma_dispatch_sound(s: SequencerView, next: [u8; 10])
    requires
        intents_sound(s),
    ensures
        ({
            let s1 = dispatch_step(s, next).0;
            &&& intents_sound(s1)
            &&& (s1.state != State::Init ==> s1.state == s.state && s1.w == s.w
                && (is_unset(s.session) || s.session@ == next@))
        }),
{
    let (s1, out) = dispatch_step(s, next);
    if !is_unset(s.session) && s.session@ != next@ {
        if s.staged_count != 0 {
            crate::arbitrator::window::lemma_occupied_zeros(1024);
            assert(s1.lens =~= Seq::new(1024, |i: int| 0u8));
        } else {
            assert forall|i: int| 0 <= i < 1024 implies #[trigger] s.lens[i] == 0 by {
                lemma_occupied_zero_means_empty(s.lens, i);
            }
        }
    }
}

/// A heartbeat keeps intents sound: it touches neither the window nor the watermark.
pub proof fn lemma_heartbeat_sound(s: SequencerView, seq: u64, now: u64)
    requires
        intents_sound(s),
    ensures
        intents_sound(heartbeat_step(s, seq, now).0),
{
}

/// An end of session keeps intents sound.
pub proof fn lemma_eos_sound(s: SequencerView, next_seq: u64)
    requires
        intents_sound(s),
    ensures
        intents_sound(eos_step(s, next_seq).0),
{
    if s.mutation == SequencerMutation::DropStagedAtEos {
        crate::arbitrator::window::lemma_occupied_zeros(1024);
        assert(crate::arbitrator::window::empty_window() =~= Seq::new(1024, |i: int| 0u8));
    }
}

/// A data frame that ends below the sequence bound (heartbeats, ends of session and
/// short frames always qualify).
pub open spec fn numbered_below(frame: Seq<u8>) -> bool {
    let hdr = frame_header(frame);
    frame.len() >= HEADER_LEN && hdr.count != HEARTBEAT_COUNT && hdr.count != EOS_COUNT ==> ends_below(
        hdr.seq,
        hdr.count,
    )
}

/// Ingestion keeps intents sound: whatever frame arrives, as long as it is numbered below
/// the conformance bound and, when the sequencer stages it beyond its watermark, its
/// blocks walk cleanly, the window stays drained and holds nothing past `max_staged`, and
/// a pending target stays past the watermark within one wire request. It needs the stale
/// slots the watermark passes to be cleared, so it does not hold under the mutation that
/// disables that clearing.
pub proof fn law_ingest_keeps_intents_sound(s: SequencerView, frame: Seq<u8>, feed: FeedId, now: u64)
    requires
        intents_sound(s),
        s.mutation != SequencerMutation::DisableClearOnAdvance,
        numbered_below(frame),
        beyond_watermark(s, frame) ==> clean_blocks(frame, frame_header(frame).count),
    ensures
        intents_sound(spec_ingest(s, frame, feed, now).0),
{
    let (go, s1, out1) = frame_prelude(s, frame, feed);
    let hdr = frame_header(frame);
    if go {
        let s0 = SequencerView {
            counters: crate::arbitrator::transition::count_arrival(s.counters, feed, frame.len()),
            ..s
        };
        lemma_dispatch_sound(s0, hdr.session);
        if hdr.count == HEARTBEAT_COUNT {
            lemma_heartbeat_sound(s1, hdr.seq, now);
        } else if hdr.count == EOS_COUNT {
            lemma_eos_sound(s1, hdr.seq);
        } else {
            lemma_data_sound(s1, frame, feed, now, hdr);
        }
    }
}

/// Every recovery intent is sound: it starts at the watermark and asks for a nonempty
/// range of at most one wire request (65535 messages). Evaluating intents keeps the
/// invariant once the session's first data frame has anchored the watermark; before
/// that, a heartbeat's target would outlive the anchoring.
pub proof fn law_intent_range(s: SequencerView, now: u64)
    requires
        intents_sound(s),
    ensures
        ({
            let (ri, p, lv, c) = intent_effect(
                s.w,
                s.max_staged,
                s.staged_count,
                s.progress_vt,
                s.hb_seq,
                s.hb_vt,
                s.pending_to,
                s.last_intent_vt,
                now,
                s.counters,
            );
            &&& (ri matches Some(i) ==> i.from == s.w && s.w < i.to_excl && i.to_excl <= s.w + MAX_WIRE_REQUEST)
            &&& (s.state != State::Init ==> intents_sound(
                SequencerView { pending_to: p, last_intent_vt: lv, counters: c, ..s },
            ))
        }),
{
    if s.staged_count > 0 {
        lemma_staged_past(s);
    }
    assert(s.w.wrapping_add(MAX_WIRE_REQUEST) == s.w + MAX_WIRE_REQUEST);
}

/// A freshly made sequencer is sound for intents.
pub proof fn law_fresh_intents_sound(v: SequencerView, m: SequencerMutation)
    requires
        crate::arbitrator::sequencer::is_fresh(v, m),
    ensures
        intents_sound(v),
{
    crate::arbitrator::window::lemma_occupied_zeros(1024);
    assert(v.lens =~= Seq::new(1024, |i: int| 0u8));
}

/// Sealing keeps the sequencer sound for intents: it changes only the state, to `Dead`.
pub proof fn law_seal_keeps_intents_sound(s: SequencerView, reason: crate::arbitrator::types::DeadReason)
    requires
        intents_sound(s),
    ensures
        intents_sound(
            SequencerView { state: crate::arbitrator::session::seal_effect(reason, s.w, s.state).0, ..s },
        ),
{
}

} // verus!
