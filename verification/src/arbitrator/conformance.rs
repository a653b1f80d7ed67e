//! The grammar of the output stream: what a conforming consumer checks of every item,
//! and the law that the sequencer's stream always passes those checks.
//!
//! A consumer tracks the latest generation announced, the open gap (its generation and
//! the watermark it opened at) and the last message sequence number of the session.
//! Messages must carry a generation no older than the latest announced one and follow
//! each other one by one; `GapOpened` and `SessionBoundary` must announce a strictly
//! newer generation; a gap must not open twice; `ReAnchored` must close the open gap
//! under its generation and not before the watermark it opened at.

use vstd::prelude::*;
use crate::arbitrator::state::State;
use crate::arbitrator::gap::{gap_close_effect, gap_evidence_effect};
use crate::arbitrator::counters::Counters;
use crate::arbitrator::session::{eos_effect, heartbeat_effect, is_unset};
use crate::arbitrator::transition::{
    classic_apply, classic_data, close_step, contig_finish, contig_step, dispatch_step, drain_step,
    emit_run, entry_step, eos_step, frame_header, frame_prelude, gap_finish, gap_step,
    heartbeat_step, settle_pending, spec_ingest, stage_run, view_wf, walk_error, SequencerView,
};
use crate::arbitrator::window::{clear_effect, clear_run, stage_effect};

use crate::arbitrator::intent_law::window_counted;
use crate::arbitrator::gen_law::{boundary_free, law_same_session_no_boundary};
use crate::arbitrator::sequencer::{is_fresh, lemma_frame_header};
use crate::arbitrator::session::seal_effect;
use crate::arbitrator::types::{DeadReason, FeedId, SequencerMutation};
use crate::protocol::moldudp64::{header_matches, spec_blocks, spec_parse, FrameShape};
use crate::protocol::packet::{lemma_no_payload_error, lemma_strict_is_lenient, spec_validate_frame, first_payload_error};
use crate::protocol::moldudp64::{span_of, Header, EOS_COUNT, HEADER_LEN, HEARTBEAT_COUNT};
use crate::protocol::packet::{lemma_lenient_len, lenient_blocks};
use crate::arbitrator::window::drain_effect;
use crate::arbitrator::window::{drain_run, slot_of};
use crate::protocol::itch5::spec_validate;
use crate::protocol::packet::numbered_visits;
use crate::arbitrator::types::{Event, SinkItem};

verus! {

/// What a conforming consumer remembers of the stream so far.
pub struct StreamCheck {
    pub last_gen: u64,
    pub gap_gen: Option<u64>,
    pub gap_from: Option<u64>,
    pub last_seq: u64,
}

/// The check of a consumer that has seen nothing yet.
pub open spec fn fresh_check() -> StreamCheck {
    StreamCheck { last_gen: 0, gap_gen: None, gap_from: None, last_seq: 0 }
}

/// Whether `item` keeps the grammar for a consumer in state `c`.
pub open spec fn item_ok(c: StreamCheck, item: SinkItem) -> bool {
    match item {
        SinkItem::Msg { gen, seq, .. } => gen >= c.last_gen && (c.last_seq == 0 || seq == c.last_seq
            + 1),
        SinkItem::Ev(ev) => match ev {
            Event::GapOpened { gen, .. } => gen > c.last_gen && c.gap_gen is None,
            Event::ReAnchored { gen, at } => c.gap_gen == Some(gen) && (c.gap_from matches Some(f)
                ==> at >= f),
            Event::SessionBoundary { gen, .. } => gen > c.last_gen,
            Event::EndOfSession { .. } => true,
            Event::SessionDead { .. } => true,
        },
    }
}

/// What a consumer in state `c` remembers after `item`.
pub open spec fn item_update(c: StreamCheck, item: SinkItem) -> StreamCheck {
    match item {
        SinkItem::Msg { seq, .. } => StreamCheck { last_seq: seq, ..c },
        SinkItem::Ev(ev) => match ev {
            Event::GapOpened { from, gen, .. } => StreamCheck {
                last_gen: gen,
                gap_gen: Some(gen),
                gap_from: Some(from),
                ..c
            },
            Event::ReAnchored { .. } => StreamCheck { gap_gen: None, gap_from: None, ..c },
            Event::SessionBoundary { gen, .. } => StreamCheck {
                last_gen: gen,
                gap_gen: None,
                gap_from: None,
                last_seq: 0,
            },
            Event::EndOfSession { .. } => StreamCheck { gap_gen: None, gap_from: None, ..c },
            Event::SessionDead { .. } => StreamCheck { gap_gen: None, gap_from: None, ..c },
        },
    }
}

/// The consumer's state after `item`, or `None` if `item` breaks the grammar.
pub open spec fn check_item(c: StreamCheck, item: SinkItem) -> Option<StreamCheck> {
    if item_ok(c, item) {
        Some(item_update(c, item))
    } else {
        None
    }
}

/// The consumer's state after all of `items`, or `None` if one of them breaks the grammar.
pub open spec fn check_all(c: StreamCheck, items: Seq<SinkItem>) -> Option<StreamCheck>
    decreases items.len(),
{
    if items.len() == 0 {
        Some(c)
    } else {
        match check_item(c, items[0]) {
            None => None,
            Some(c1) => check_all(c1, items.drop_first()),
        }
    }
}

/// A state in which the session still takes data.
pub open spec fn live(st: State) -> bool {
    st != State::Ended && st != State::Dead
}

/// The consumer `c` agrees with the sequencer state `s`: same generation, the open gap
/// is the sequencer's (opened below the evidence it holds), and the next message it
/// expects is the watermark.
pub open spec fn tracks(s: SequencerView, c: StreamCheck) -> bool {
    &&& c.last_gen == s.gen
    &&& gap_tracks(s, c)
    &&& (c.last_seq == 0 || c.last_seq + 1 == s.w)
    &&& (s.state == State::Init ==> c.last_seq == 0 && !s.gap_active)
}

/// The consumer's open gap is the sequencer's, opened below the evidence it holds.
pub open spec fn gap_tracks(s: SequencerView, c: StreamCheck) -> bool {
    if s.gap_active && live(s.state) {
        &&& c.gap_gen == Some(s.gen)
        &&& c.gap_from matches Some(f) && f < s.evidence_hwm
    } else {
        c.gap_gen is None && c.gap_from is None
    }
}

/// Sequence numbers the sequencer's laws cover: far enough below `u64::MAX` that neither
/// the watermark, the window's reach (`w + 1024`) nor one wire request past the
/// watermark (`w + 65535`) wraps around. A data frame is covered when it ends below this
/// bound.
pub open spec fn seq_bound() -> int {
    0xFFFF_FFFF_FFFF_0000
}

/// A data frame numbered `seq, ..., seq + count - 1` ends below the bound.
pub open spec fn ends_below(seq: u64, count: u16) -> bool {
    seq + count <= seq_bound()
}

/// Checking two runs of items one after the other is checking their concatenation.
pub proof fn lemma_check_append(c: StreamCheck, a: Seq<SinkItem>, b: Seq<SinkItem>)
    ensures
        check_all(c, a + b) == match check_all(c, a) {
            None => None,
            Some(c1) => check_all(c1, b),
        },
    decreases a.len(),
{
    if a.len() == 0 {
        assert(a + b =~= b);
    } else {
        assert((a + b)[0] == a[0]);
        assert((a + b).drop_first() =~= a.drop_first() + b);
        match check_item(c, a[0]) {
            None => {},
            Some(c1) => {
                lemma_check_append(c1, a.drop_first(), b);
            },
        }
    }
}

/// Emitting valid payloads numbered from `f`, past the first `k`, continues the stream
/// one message at a time from `f + k`.
pub proof fn lemma_emit_checks(ms: Seq<Seq<u8>>, f: u64, k: nat, gen: u64, c: StreamCheck)
    requires
        forall|i: int| 0 <= i < ms.len() ==> spec_validate(#[trigger] ms[i]) is Ok,
        f + ms.len() <= u64::MAX,
        c.last_gen <= gen,
        c.last_seq == 0 || c.last_seq + 1 == f + k,
    ensures
        emit_run(numbered_visits(ms, f, k), gen).1 is None,
        check_all(c, emit_run(numbered_visits(ms, f, k), gen).0) == Some(
            if k < ms.len() {
                StreamCheck { last_seq: (f + ms.len() - 1) as u64, ..c }
            } else {
                c
            },
        ),
    decreases ms.len(),
{
    let nv = numbered_visits(ms, f, k);
    if ms.len() == 0 {
    } else if k > 0 {
        assert(forall|i: int| 0 <= i < ms.drop_first().len() ==> ms.drop_first()[i] == ms[i + 1]);
        lemma_emit_checks(ms.drop_first(), (f + 1) as u64, (k - 1) as nat, gen, c);
    } else {
        let rest = numbered_visits(ms.drop_first(), (f + 1) as u64, 0);
        assert(nv == seq![(f, ms[0])] + rest);
        assert(nv[0] == (f, ms[0]));
        assert(nv.drop_first() =~= rest);
        assert(spec_validate(ms[0]) is Ok);
        let c1 = StreamCheck { last_seq: f, ..c };
        assert(forall|i: int| 0 <= i < ms.drop_first().len() ==> ms.drop_first()[i] == ms[i + 1]);
        lemma_emit_checks(ms.drop_first(), (f + 1) as u64, 0, gen, c1);
        let (o, e) = emit_run(rest, gen);
        let m = SinkItem::Msg { gen, seq: f, data: ms[0] };
        assert(emit_run(nv, gen).0 == seq![m] + o);
        assert((seq![m] + o)[0] == m);
        assert((seq![m] + o).drop_first() =~= o);
        assert(check_item(c, m) == Some(c1));
    }
}

/// Draining from `w` continues the stream one message at a time from `w`, and moves
/// the watermark past the last message drained.
pub proof fn lemma_drain_checks(lens: Seq<u8>, arena: Seq<u8>, w: u64, staged: u32, gen: u64, c: StreamCheck)
    requires
        c.last_gen <= gen,
        c.last_seq == 0 || c.last_seq + 1 == w,
        w + staged <= u64::MAX,
    ensures
        ({
            let (l, w2, s2, out) = drain_run(lens, arena, w, staged, gen);
            &&& w2 == w + out.len()
            &&& out.len() <= staged
            &&& check_all(c, out) == Some(
                if out.len() > 0 {
                    StreamCheck { last_seq: (w2 - 1) as u64, ..c }
                } else {
                    c
                },
            )
        }),
    decreases staged,
{
    let slot = slot_of(w);
    if staged == 0 || lens[slot] == 0 {
    } else {
        let len = lens[slot] - 1;
        let msg = arena.subrange(slot * 64, slot * 64 + len);
        let m = SinkItem::Msg { gen, seq: w, data: msg };
        let c1 = StreamCheck { last_seq: w, ..c };
        lemma_drain_checks(lens.update(slot, 0), arena, (w + 1) as u64, (staged - 1) as u32, gen, c1);
        let (l3, w3, s3, o) = drain_run(lens.update(slot, 0), arena, (w + 1) as u64, (staged - 1) as u32, gen);
        assert((seq![m] + o)[0] == m);
        assert((seq![m] + o).drop_first() =~= o);
        assert(check_item(c, m) == Some(c1));
    }
}

/// Checking a single item is checking it alone.
pub proof fn lemma_check_one(c: StreamCheck, item: SinkItem)
    ensures
        check_all(c, seq![item]) == check_item(c, item),
{
    assert(seq![item][0] == item);
    assert(seq![item].drop_first() =~= Seq::<SinkItem>::empty());
    match check_item(c, item) {
        Some(c1) => {
            assert(check_all(c1, Seq::<SinkItem>::empty()) == Some(c1));
        },
        None => {},
    }
}

/// Closing the gap keeps the consumer tracking: `ReAnchored` carries the open gap's
/// generation and a watermark at or past its evidence.
pub proof fn lemma_close_checks(s: SequencerView, c: StreamCheck)
    requires
        tracks(s, c),
        live(s.state),
    ensures
        ({
            let (s1, out) = close_step(s, s.gen);
            &&& check_all(c, out) matches Some(c1) && tracks(s1, c1) && c1.last_seq == c.last_seq
            &&& s1.w == s.w && live(s1.state) && s1.gen == s.gen
        }),
{
    let (ga, h, st, cnt, out) = gap_close_effect(s.gap_active, s.evidence_hwm, s.w, s.gen, s.state, s.counters);
    if s.gap_active && s.w >= s.evidence_hwm {
        lemma_check_one(c, out[0]);
        assert(out =~= seq![out[0]]);
    }
}

/// Draining keeps the consumer tracking: the messages continue the stream from the
/// watermark, which ends one past the last of them.
pub proof fn lemma_drain_step_checks(s: SequencerView, c: StreamCheck, now: u64)
    requires
        tracks(s, c),
        s.state != State::Init,
        s.staged_count <= 1024,
        s.w + 1024 <= u64::MAX,
    ensures
        ({
            let (s1, out) = drain_step(s, s.gen, now);
            &&& check_all(c, out) matches Some(c1) && tracks(s1, c1)
            &&& s1.state == s.state && s1.gen == s.gen && s.w <= s1.w <= s.w + 1024
        }),
{
    if s.staged_count != 0 {
        lemma_drain_checks(s.lens, s.arena, s.w, s.staged_count, s.gen, c);
    }
}

/// Moving past `last` after emitting up to it keeps the consumer tracking.
pub proof fn lemma_contig_finish_checks(s: SequencerView, c: StreamCheck, last: u64, now: u64)
    requires
        c.last_gen == s.gen,
        gap_tracks(s, c),
        live(s.state),
        s.state != State::Init,
        c.last_seq == 0 || c.last_seq == last,
        window_counted(s.lens, s.staged_count),
        last + 1 + 1024 <= u64::MAX,
    ensures
        ({
            let (s1, out) = contig_finish(s, last, now);
            &&& check_all(c, out) matches Some(c1) && tracks(s1, c1)
            &&& s1.w <= last + 1 + 1024
        }),
{
    let w1 = (last + 1) as u64;
    let (l1, sc1, m1) = if s.mutation != crate::arbitrator::types::SequencerMutation::DisableClearOnAdvance {
        crate::arbitrator::window::clear_effect(s.lens, s.staged_count, s.max_staged, s.w, w1)
    } else {
        (s.lens, s.staged_count, s.max_staged)
    };
    let s2 = SequencerView { w: w1, lens: l1, staged_count: sc1, max_staged: m1, progress_vt: now, ..s };
    assert(tracks(s2, c));
    crate::arbitrator::window::lemma_occupied_bound(s.lens);
    if s.mutation != crate::arbitrator::types::SequencerMutation::DisableClearOnAdvance {
        lemma_clear_not_more(s.lens, s.staged_count, s.max_staged, s.w, w1);
    }
    lemma_drain_step_checks(s2, c, now);
    let (s3, out2) = drain_step(s2, s.gen, now);
    let c2 = check_all(c, out2)->0;
    lemma_close_checks(s3, c2);
    let (s4, out3) = close_step(s3, s.gen);
    lemma_check_append(c, out2, out3);
}

/// Gap evidence keeps the consumer tracking: a gap opens under a strictly newer
/// generation, from the watermark, below the evidence.
pub proof fn lemma_evidence_checks(s: SequencerView, c: StreamCheck, x: u64)
    requires
        tracks(s, c),
        live(s.state),
        s.state != State::Init,
        s.gen < u64::MAX,
    ensures
        ({
            let (ga, g, h, st, cnt, out) = gap_evidence_effect(
                s.gap_active,
                s.gen,
                s.evidence_hwm,
                s.w,
                x,
                s.state,
                s.counters,
            );
            let s1 = SequencerView { gap_active: ga, gen: g, evidence_hwm: h, state: st, counters: cnt, ..s };
            &&& check_all(c, out) matches Some(c1) && tracks(s1, c1)
            &&& live(st) && st != State::Init
        }),
{
    let (ga, g, h, st, cnt, out) = gap_evidence_effect(
        s.gap_active,
        s.gen,
        s.evidence_hwm,
        s.w,
        x,
        s.state,
        s.counters,
    );
    if !s.gap_active && x > s.w {
        lemma_check_one(c, out[0]);
        assert(out =~= seq![out[0]]);
    }
}

/// Settling a frame beyond the watermark keeps the consumer tracking.
pub proof fn lemma_gap_finish_checks(s: SequencerView, c: StreamCheck, last: u64, now: u64)
    requires
        tracks(s, c),
        live(s.state),
        s.state != State::Init,
        s.staged_count <= 1024,
        s.w + 1024 <= u64::MAX,
    ensures
        ({
            let (s1, out) = gap_finish(s, last, now);
            &&& check_all(c, out) matches Some(c1) && tracks(s1, c1)
            &&& s1.w <= s.w + 1024
        }),
{
    let h2 = if last >= s.w.wrapping_add(1024) {
        let l1 = last.wrapping_add(1);
        if s.evidence_hwm >= l1 { s.evidence_hwm } else { l1 }
    } else {
        s.evidence_hwm
    };
    let s3 = SequencerView {
        evidence_hwm: h2,
        max_staged: if s.max_staged >= last { s.max_staged } else { last },
        ..s
    };
    assert(tracks(s3, c));
    lemma_drain_step_checks(s3, c, now);
    let (s4, out2) = drain_step(s3, s3.gen, now);
    let c2 = check_all(c, out2)->0;
    lemma_close_checks(s4, c2);
    let (s5, out3) = close_step(s4, s4.gen);
    lemma_check_append(c, out2, out3);
}

/// Clearing a counted window leaves at most a window's worth occupied.
pub proof fn lemma_clear_not_more(lens: Seq<u8>, staged: u32, max_staged: u64, old_w: u64, new_w: u64)
    requires
        window_counted(lens, staged),
    ensures
        clear_effect(lens, staged, max_staged, old_w, new_w).1 <= 1024,
{
    crate::arbitrator::window::lemma_occupied_bound(lens);
    if staged != 0 {
        let limit = if new_w < old_w.saturating_add(1024) { new_w } else { old_w.saturating_add(1024) };
        if limit > old_w {
            crate::arbitrator::intent_law::lemma_clear_run_counted(lens, staged, max_staged, slot_of(old_w), 0, limit - old_w);
            let l = clear_run(lens, staged, max_staged, slot_of(old_w), 0, limit - old_w).0;
            crate::arbitrator::window::lemma_occupied_bound(l);
        }
    }
}

/// Staging keeps the window counted and the arena its size.
pub proof fn lemma_stage_counted(
    blocks: Seq<(u64, Seq<u8>)>,
    lens: Seq<u8>,
    arena: Seq<u8>,
    staged: u32,
    c: Counters,
    w: u64,
    clamp: u64,
)
    requires
        window_counted(lens, staged),
        arena.len() == 65536,
    ensures
        ({
            let (l, a, s2, c2, err) = stage_run(blocks, lens, arena, staged, c, w, clamp);
            window_counted(l, s2) && a.len() == 65536
        }),
    decreases blocks.len(),
{
    if blocks.len() > 0 {
        let (seq, data) = blocks[0];
        let rest = blocks.drop_first();
        if spec_validate(data) is Ok {
            if seq < clamp {
                let (ok, l2, a2, s2) = stage_effect(lens, arena, staged, w, seq, data);
                if ok {
                    let slot = slot_of(seq);
                    let len: int = if data.len() < 64 { data.len() as int } else { 64 };
                    crate::arbitrator::window::lemma_occupied_update(lens, slot, (len + 1) as u8);
                    crate::arbitrator::window::lemma_occupied_bound(lens);
                    assert(crate::arbitrator::window::nz((len + 1) as u8) == 1);
                    assert(slot * 64 + len <= 65536) by (nonlinear_arith)
                        requires
                            0 <= slot < 1024,
                            0 <= len <= 64,
                    ;
                    assert forall|i: int| 0 <= i < 1024 implies #[trigger] l2[i] <= 65 by {
                        assert(lens[i] <= 65);
                    }
                }
                let c2 = if ok {
                    Counters { staged_msgs: crate::arbitrator::counters::inc(c.staged_msgs), ..c }
                } else {
                    Counters { beyond_window_dropped: crate::arbitrator::counters::inc(c.beyond_window_dropped), ..c }
                };
                lemma_stage_counted(rest, l2, a2, s2, c2, w, clamp);
            } else {
                let c2 = Counters { beyond_window_dropped: crate::arbitrator::counters::inc(c.beyond_window_dropped), ..c };
                lemma_stage_counted(rest, lens, arena, staged, c2, w, clamp);
            }
        }
    }
}

/// A data frame whose `count` blocks walk without error and all hold valid ITCH
/// messages.
pub open spec fn clean_blocks(frame: Seq<u8>, count: u16) -> bool {
    let (ms, ferr) = lenient_blocks(frame.skip(HEADER_LEN as int), count as nat);
    &&& ferr is None
    &&& forall|i: int| 0 <= i < ms.len() ==> spec_validate(#[trigger] ms[i]) is Ok
}

/// Applying a clean data frame that is no pure duplicate keeps the consumer tracking.
pub proof fn lemma_apply_checks(
    s: SequencerView,
    c: StreamCheck,
    frame: Seq<u8>,
    count: u16,
    first: u64,
    last: u64,
    now: u64,
)
    requires
        tracks(s, c),
        live(s.state),
        s.state != State::Init,
        s.gen < u64::MAX,
        window_counted(s.lens, s.staged_count),
        s.arena.len() == 65536,
        first <= s.w ==> clean_blocks(frame, count),
        count >= 1,
        last == first + count - 1,
        s.w <= last,
        last < seq_bound(),
        s.w <= seq_bound(),
    ensures
        ({
            let (s1, out) = classic_apply(s, frame, count, first, last, now);
            check_all(c, out) matches Some(c1) && tracks(s1, c1)
        }),
{
    let (ms, ferr) = lenient_blocks(frame.skip(HEADER_LEN as int), count as nat);
    lemma_lenient_len(frame.skip(HEADER_LEN as int), count as nat);
    crate::arbitrator::window::lemma_occupied_bound(s.lens);
    if first <= s.w {
        assert(ms.len() == count);
        let skip = if s.w - first < count { (s.w - first) as u64 } else { count as u64 };
        assert(skip == s.w - first);
        lemma_emit_checks(ms, first, skip as nat, s.gen, c);
        let (out, perr) = emit_run(numbered_visits(ms, first, skip as nat), s.gen);
        let c1 = check_all(c, out)->0;
        assert(c1.last_seq == last);
        let cnt1 = Counters {
            dup_msgs: s.counters.dup_msgs.wrapping_add(skip),
            msgs_emitted: s.counters.msgs_emitted.wrapping_add(out.len() as u64),
            ..s.counters
        };
        let sv = SequencerView { counters: cnt1, ..s };
        lemma_contig_finish_checks(sv, c1, last, now);
        let (s2, out2) = contig_finish(sv, last, now);
        lemma_check_append(c, out, out2);
    } else {
        lemma_evidence_checks(s, c, first);
        let (ga, g, h, st, cnt, out1) = gap_evidence_effect(
            s.gap_active,
            s.gen,
            s.evidence_hwm,
            s.w,
            first,
            s.state,
            s.counters,
        );
        let c1 = check_all(c, out1)->0;
        let clamp = if s.mutation == crate::arbitrator::types::SequencerMutation::OffByOneClamp {
            s.w.wrapping_add(512)
        } else {
            s.w.wrapping_add(1024)
        };
        let (l, a, sc, c2, perr) = stage_run(numbered_visits(ms, first, 0), s.lens, s.arena, s.staged_count, cnt, s.w, clamp);
        lemma_stage_counted(numbered_visits(ms, first, 0), s.lens, s.arena, s.staged_count, cnt, s.w, clamp);
        crate::arbitrator::window::lemma_occupied_bound(l);
        let s2 = SequencerView {
            gap_active: ga,
            gen: g,
            evidence_hwm: h,
            state: st,
            lens: l,
            arena: a,
            staged_count: sc,
            counters: c2,
            ..s
        };
        assert(tracks(s2, c1));
        if walk_error(perr, ferr) is None {
            lemma_gap_finish_checks(s2, c1, last, now);
            let (s3, out2) = gap_finish(s2, last, now);
            lemma_check_append(c, out1, out2);
        }
    }
}

/// A data frame in a live session keeps the consumer tracking.
pub proof fn lemma_data_checks(s: SequencerView, c: StreamCheck, frame: Seq<u8>, feed: FeedId, now: u64, hdr: Header)
    requires
        tracks(s, c),
        s.state != State::Dead,
        s.gen < u64::MAX,
        view_wf(s),
        s.w <= seq_bound(),
        ends_below(hdr.seq, hdr.count),
        hdr.count != HEARTBEAT_COUNT && hdr.count != EOS_COUNT,
        !(s.state != State::Init && s.state != State::Ended && hdr.seq > s.w) ==> clean_blocks(
            frame,
            hdr.count,
        ),
    ensures
        ({
            let (s1, out) = classic_data(s, frame, feed, now, hdr);
            check_all(c, out) matches Some(c1) && tracks(s1, c1)
        }),
{
    if s.state != State::Ended {
        match span_of(hdr.seq, hdr.count) {
            None => {},
            Some((first, last)) => {
                let (apply, s2) = entry_step(s, feed, hdr.count, first, last, now);
                if apply {
                    assert(tracks(s2, c));
                    lemma_apply_checks(s2, c, frame, hdr.count, first, last, now);
                }
            },
        }
    }
}

/// A heartbeat keeps the consumer tracking: beyond the watermark it is gap evidence.
pub proof fn lemma_heartbeat_checks(s: SequencerView, c: StreamCheck, seq: u64, now: u64)
    requires
        tracks(s, c),
        s.gen < u64::MAX,
    ensures
        ({
            let (s1, out) = heartbeat_step(s, seq, now);
            check_all(c, out) matches Some(c1) && tracks(s1, c1)
        }),
{
    let c1cnt = Counters { heartbeats: crate::arbitrator::counters::inc(s.counters.heartbeats), ..s.counters };
    if s.state != State::Init && !(s.state == State::Dead || s.state == State::Ended || seq <= s.w) {
        let sv = SequencerView { counters: c1cnt, ..s };
        lemma_evidence_checks(sv, c, seq);
    }
}

/// End of session keeps the consumer tracking: it forgets the open gap.
pub proof fn lemma_eos_checks(s: SequencerView, c: StreamCheck, next_seq: u64)
    requires
        tracks(s, c),
    ensures
        ({
            let (s1, out) = eos_step(s, next_seq);
            check_all(c, out) matches Some(c1) && tracks(s1, c1)
        }),
{
    let (s1, out) = eos_step(s, next_seq);
    if s.state != State::Dead && s.state != State::Ended {
        lemma_check_one(c, out[0]);
        assert(out =~= seq![out[0]]);
    }
}

/// Session discovery or a boundary keeps the consumer tracking: a boundary announces a
/// strictly newer generation and starts the session over.
pub proof fn lemma_dispatch_checks(s: SequencerView, c: StreamCheck, next: [u8; 10])
    requires
        tracks(s, c),
        s.gen < u64::MAX,
        s.state != State::Dead,
    ensures
        ({
            let (s1, out) = dispatch_step(s, next);
            &&& check_all(c, out) matches Some(c1) && tracks(s1, c1)
            &&& s1.gen <= s.gen + 1
            &&& s1.w == s.w
            &&& s1.state != State::Dead
        }),
{
    let (s1, out) = dispatch_step(s, next);
    if !is_unset(s.session) && s.session@ != next@ {
        lemma_check_one(c, out[0]);
        assert(out =~= seq![out[0]]);
    }
}

/// A data frame the sequencer would stage beyond its watermark: a data frame of the
/// session it follows (or of any, while none is known), in a live session past its first
/// data frame, starting past the watermark.
pub open spec fn beyond_watermark(s: SequencerView, frame: Seq<u8>) -> bool {
    let hdr = frame_header(frame);
    &&& frame.len() >= HEADER_LEN
    &&& hdr.count != HEARTBEAT_COUNT
    &&& hdr.count != EOS_COUNT
    &&& (is_unset(s.session) || s.session@ == hdr.session@)
    &&& s.state != State::Init && s.state != State::Ended && s.state != State::Dead
    &&& hdr.seq > s.w
}

/// A frame the conformance law covers: short, a heartbeat or end of session, or a data
/// frame numbered below the bound whose blocks all walk cleanly.
pub open spec fn covered_frame(frame: Seq<u8>) -> bool {
    let hdr = frame_header(frame);
    ||| frame.len() < HEADER_LEN
    ||| hdr.count == HEARTBEAT_COUNT
    ||| hdr.count == EOS_COUNT
    ||| (ends_below(hdr.seq, hdr.count) && clean_blocks(frame, hdr.count))
}

/// The stream grammar law: whatever frame arrives (the covered ones: data frames ending
/// below the bound whose blocks all walk cleanly, and data frames staged beyond the
/// watermark that end below the bound, framing or payload errors and all), every item
/// the sequencer emits passes a conforming consumer's checks, and the consumer goes on
/// tracking the sequencer. Messages carry the current generation and follow each other
/// one by one; gaps open and session boundaries happen under strictly newer generations;
/// a gap closes once, under its own generation, at or past the watermark it opened at.
pub proof fn law_ingest_conforms(s: SequencerView, c: StreamCheck, frame: Seq<u8>, feed: FeedId, now: u64)
    requires
        tracks(s, c),
        view_wf(s),
        s.gen + 2 <= u64::MAX,
        s.w <= seq_bound(),
        covered_frame(frame) || (beyond_watermark(s, frame) && ends_below(
            frame_header(frame).seq,
            frame_header(frame).count,
        )),
    ensures
        ({
            let (s1, out) = spec_ingest(s, frame, feed, now);
            check_all(c, out) matches Some(c1) && tracks(s1, c1)
        }),
{
    let (go, s1, out1) = frame_prelude(s, frame, feed);
    let hdr = frame_header(frame);
    if go {
        let s0 = SequencerView {
            counters: crate::arbitrator::transition::count_arrival(s.counters, feed, frame.len()),
            ..s
        };
        assert(tracks(s0, c));
        lemma_dispatch_checks(s0, c, hdr.session);
        if !is_unset(s0.session) && s0.session@ != hdr.session@ {
            if s0.staged_count != 0 {
                crate::arbitrator::window::lemma_occupied_zeros(1024);
                assert(crate::arbitrator::window::empty_window() =~= Seq::new(1024, |i: int| 0u8));
            }
        }
        assert(view_wf(s1));
        let c1 = check_all(c, out1)->0;
        if hdr.count == HEARTBEAT_COUNT {
            lemma_heartbeat_checks(s1, c1, hdr.seq, now);
            lemma_check_append(c, out1, heartbeat_step(s1, hdr.seq, now).1);
        } else if hdr.count == EOS_COUNT {
            lemma_eos_checks(s1, c1, hdr.seq);
            lemma_check_append(c, out1, eos_step(s1, hdr.seq).1);
        } else {
            lemma_data_checks(s1, c1, frame, feed, now, hdr);
            lemma_check_append(c, out1, classic_data(s1, frame, feed, now, hdr).1);
        }
    }
}

/// A consumer that has seen nothing tracks a freshly made sequencer.
pub proof fn law_fresh_tracks(v: SequencerView, m: SequencerMutation)
    requires
        is_fresh(v, m),
    ensures
        tracks(v, fresh_check()),
{
}

/// Sealing keeps the consumer tracking: `SessionDead` comes at most once and closes
/// any open gap.
pub proof fn law_seal_conforms(s: SequencerView, c: StreamCheck, reason: DeadReason)
    requires
        tracks(s, c),
    ensures
        ({
            let (st, out) = seal_effect(reason, s.w, s.state);
            check_all(c, out) matches Some(c1) && tracks(SequencerView { state: st, ..s }, c1)
        }),
{
    let (st, out) = seal_effect(reason, s.w, s.state);
    if s.state != State::Dead {
        lemma_check_one(c, out[0]);
        assert(out =~= seq![out[0]]);
    }
}

/// `Dead` is absorbing: a sealed sequencer ignores every frame, emitting nothing and
/// changing nothing but its counters.
pub proof fn law_dead_absorbing(s: SequencerView, frame: Seq<u8>, feed: FeedId, now: u64)
    requires
        s.state == State::Dead,
    ensures
        spec_ingest(s, frame, feed, now).1.len() == 0,
        spec_ingest(s, frame, feed, now).0 == (SequencerView { counters: spec_ingest(s, frame, feed, now).0.counters, ..s }),
{
}

/// A data frame that `validate_frame` accepts, numbered below the bound, is covered by
/// the conformance law; so are all heartbeats and end-of-session frames.
pub proof fn lemma_valid_frame_covered(frame: Seq<u8>, h: Header)
    requires
        header_matches(h, frame),
        spec_validate_frame(frame) is Ok,
        ends_below(h.seq, h.count) || h.count == HEARTBEAT_COUNT || h.count == EOS_COUNT,
    ensures
        covered_frame(frame),
{
    lemma_frame_header(h, frame);
    if h.count != HEARTBEAT_COUNT && h.count != EOS_COUNT {
        let rest = frame.skip(HEADER_LEN as int);
        lemma_strict_is_lenient(rest, h.count as nat);
        let ms = spec_blocks(rest, h.count as nat)->Ok_0;
        lemma_no_payload_error(ms);
    }
}

/// The sequence numbers of the messages among `items`, in order.
pub open spec fn msg_seqs(items: Seq<SinkItem>) -> Seq<u64>
    decreases items.len(),
{
    if items.len() == 0 {
        Seq::empty()
    } else {
        (match items[0] {
            SinkItem::Msg { seq, .. } => seq![seq],
            SinkItem::Ev(_) => Seq::empty(),
        }) + msg_seqs(items.drop_first())
    }
}

/// A run of items a consumer accepts, with no session boundary, carries its messages one
/// by one: each follows the one before (the first follows the consumer's last), and the
/// consumer ends at the last of them.
pub proof fn lemma_msg_run(c: StreamCheck, items: Seq<SinkItem>)
    requires
        check_all(c, items) is Some,
        boundary_free(items),
    ensures
        ({
            let ms = msg_seqs(items);
            let c1 = check_all(c, items)->Some_0;
            &&& forall|j: int| 0 < j < ms.len() && ms[j - 1] != 0 ==> #[trigger] ms[j] == ms[j - 1] + 1
            &&& (c.last_seq != 0 && ms.len() > 0 ==> ms[0] == c.last_seq + 1)
            &&& c1.last_seq == (if ms.len() > 0 { ms.last() } else { c.last_seq })
        }),
    decreases items.len(),
{
    if items.len() > 0 {
        let c0 = check_item(c, items[0])->Some_0;
        let rest = items.drop_first();
        assert forall|k: int| 0 <= k < rest.len() implies !((#[trigger] rest[k]) matches SinkItem::Ev(
            Event::SessionBoundary { .. },
        )) by {
            assert(rest[k] == items[k + 1]);
        }
        assert(!(items[0] matches SinkItem::Ev(Event::SessionBoundary { .. })));
        lemma_msg_run(c0, rest);
        let ms = msg_seqs(items);
        let mr = msg_seqs(rest);
        match items[0] {
            SinkItem::Msg { seq, .. } => {
                assert(ms == seq![seq] + mr);
                assert forall|j: int| 0 < j < ms.len() && ms[j - 1] != 0 implies #[trigger] ms[j] == ms[j - 1] + 1 by {
                    assert(ms[j] == mr[j - 1]);
                    if j > 1 {
                        assert(ms[j - 1] == mr[j - 2]);
                    }
                }
            },
            SinkItem::Ev(_) => {
                assert(ms =~= mr);
            },
        }
    }
}

/// The watermark law: a frame of the session the sequencer follows (or of any, while it
/// follows none), among those the stream grammar law covers, emits messages numbered one after the other, from the watermark once
/// the consumer has seen a message, and the watermark ends one past the last of them; an
/// ingestion that emits nothing leaves the watermark where it was. Together with the
/// fidelity law, the messages sent are exactly the watermark's advance, each with its
/// payload.
pub proof fn law_ingest_advances(s: SequencerView, c: StreamCheck, frame: Seq<u8>, feed: FeedId, now: u64)
    requires
        tracks(s, c),
        view_wf(s),
        s.gen + 2 <= u64::MAX,
        s.w <= seq_bound(),
        covered_frame(frame) || (beyond_watermark(s, frame) && ends_below(
            frame_header(frame).seq,
            frame_header(frame).count,
        )),
        frame.len() >= HEADER_LEN ==> (is_unset(s.session) || frame_header(frame).session@ == s.session@),
    ensures
        ({
            let (s1, out) = spec_ingest(s, frame, feed, now);
            let ms = msg_seqs(out);
            &&& forall|j: int| 0 < j < ms.len() && ms[j - 1] != 0 ==> #[trigger] ms[j] == ms[j - 1] + 1
            &&& (c.last_seq != 0 && ms.len() > 0 ==> ms[0] == s.w)
            &&& (ms.len() > 0 && ms.last() != 0 ==> s1.w == ms.last() + 1)
            &&& (ms.len() == 0 && c.last_seq != 0 ==> s1.w == s.w)
        }),
{
    law_ingest_conforms(s, c, frame, feed, now);
    law_same_session_no_boundary(s, frame, feed, now);
    let (s1, out) = spec_ingest(s, frame, feed, now);
    lemma_msg_run(c, out);
}

} // verus!
