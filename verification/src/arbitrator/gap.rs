//! Gap lifecycle: evidence tracking, the generation law, and the event grammar.

use vstd::prelude::*;
use crate::arbitrator::counters::{inc, Counters};
use crate::arbitrator::state::State;
use crate::arbitrator::types::{Event, Sink, SinkItem};

verus! {

/// Effect of gap evidence `x` against watermark `w`: a gap opens (bumping the
/// generation and announcing it) if none is open and `x > w`; an open gap raises its
/// evidence high-water mark to `x`.
pub open spec fn gap_evidence_effect(
    gap_active: bool,
    gen: u64,
    evidence_hwm: u64,
    w: u64,
    x: u64,
    state: State,
    counters: Counters,
) -> (bool, u64, u64, State, Counters, Seq<SinkItem>) {
    if !gap_active && x > w {
        let g = gen.wrapping_add(1);
        (
            true,
            g,
            x,
            State::Gap,
            Counters { gap_opens: inc(counters.gap_opens), ..counters },
            seq![SinkItem::Ev(Event::GapOpened { from: w, ahead: Some(x), gen: g })],
        )
    } else if gap_active {
        (
            gap_active,
            gen,
            if evidence_hwm >= x { evidence_hwm } else { x },
            state,
            counters,
            Seq::empty(),
        )
    } else {
        (gap_active, gen, evidence_hwm, state, counters, Seq::empty())
    }
}

/// Records gap evidence. A gap opens if not already open and `x > w`.
pub fn gap_evidence<S: Sink>(
    gap_active: &mut bool,
    gen: &mut u64,
    evidence_hwm: &mut u64,
    w: u64,
    x: u64,
    state: &mut State,
    counters: &mut Counters,
    sink: &mut S,
)
    ensures
        ({
            let (ga, g, h, st, c, out) = gap_evidence_effect(
                *old(gap_active),
                *old(gen),
                *old(evidence_hwm),
                w,
                x,
                *old(state),
                *old(counters),
            );
            &&& *final(gap_active) == ga
            &&& *final(gen) == g
            &&& *final(evidence_hwm) == h
            &&& *final(state) == st
            &&& *final(counters) == c
            &&& final(sink).items() == old(sink).items() + out
        }),
{
    if !*gap_active && x > w {
        *gap_active = true;
        *gen = gen.wrapping_add(1);
        counters.gap_opens = counters.gap_opens.wrapping_add(1);
        *state = State::Gap;
        *evidence_hwm = x;
        let ev = Event::GapOpened { from: w, ahead: Some(x), gen: *gen };
        sink.on_event(&ev);
        assert(sink.items() =~= old(sink).items() + seq![SinkItem::Ev(ev)]);
    } else if *gap_active {
        if *evidence_hwm < x {
            *evidence_hwm = x;
        }
        assert(sink.items() =~= old(sink).items() + Seq::<SinkItem>::empty());
    } else {
        assert(sink.items() =~= old(sink).items() + Seq::<SinkItem>::empty());
    }
}

/// Effect of checking gap closure: an open gap closes once `w` reaches its evidence
/// high-water mark, re-anchoring the stream under the same generation.
pub open spec fn gap_close_effect(
    gap_active: bool,
    evidence_hwm: u64,
    w: u64,
    gen: u64,
    state: State,
    counters: Counters,
) -> (bool, u64, State, Counters, Seq<SinkItem>) {
    if gap_active && w >= evidence_hwm {
        (
            false,
            0,
            State::Contig,
            Counters { reanchors: inc(counters.reanchors), ..counters },
            seq![SinkItem::Ev(Event::ReAnchored { gen, at: w })],
        )
    } else {
        (gap_active, evidence_hwm, state, counters, Seq::empty())
    }
}

/// Closes an active gap once `w` has advanced to its evidence high-water mark.
pub fn check_gap_close<S: Sink>(
    gap_active: &mut bool,
    evidence_hwm: &mut u64,
    w: u64,
    gen: u64,
    state: &mut State,
    counters: &mut Counters,
    sink: &mut S,
)
    ensures
        ({
            let (ga, h, st, c, out) = gap_close_effect(
                *old(gap_active),
                *old(evidence_hwm),
                w,
                gen,
                *old(state),
                *old(counters),
            );
            &&& *final(gap_active) == ga
            &&& *final(evidence_hwm) == h
            &&& *final(state) == st
            &&& *final(counters) == c
            &&& final(sink).items() == old(sink).items() + out
        }),
{
    if *gap_active && w >= *evidence_hwm {
        *gap_active = false;
        *state = State::Contig;
        counters.reanchors = counters.reanchors.wrapping_add(1);
        let ev = Event::ReAnchored { gen, at: w };
        sink.on_event(&ev);
        *evidence_hwm = 0;
        assert(sink.items() =~= old(sink).items() + seq![SinkItem::Ev(ev)]);
    } else {
        assert(sink.items() =~= old(sink).items() + Seq::<SinkItem>::empty());
    }
}

/// No gap evidence is lost while a gap is open: evidence `x` that opens a gap, or that
/// arrives while one is open, leaves the gap open with an evidence high-water mark at
/// least `x`; an open gap's high-water mark never goes down and only ever becomes the
/// new evidence; evidence at or below the watermark with no gap open changes nothing.
pub proof fn law_evidence_covered(
    gap_active: bool,
    gen: u64,
    evidence_hwm: u64,
    w: u64,
    x: u64,
    state: State,
    counters: Counters,
)
    ensures
        ({
            let (ga, g, h, st, c, out) = gap_evidence_effect(gap_active, gen, evidence_hwm, w, x, state, counters);
            &&& (gap_active || x > w) ==> ga && h >= x
            &&& gap_active ==> h >= evidence_hwm && (h == evidence_hwm || h == x) && g == gen && out.len() == 0
            &&& !gap_active && x > w ==> st == State::Gap && g != gen && out.len() == 1
            &&& !gap_active && x <= w ==> !ga && h == evidence_hwm && g == gen && out.len() == 0
        }),
{
}

/// A gap closes only once the watermark has reached its evidence high-water mark, and an
/// open gap whose evidence the watermark has reached closes, announcing `ReAnchored`
/// at the watermark under the gap's generation.
pub proof fn law_gap_closes_at_evidence(
    gap_active: bool,
    evidence_hwm: u64,
    w: u64,
    gen: u64,
    state: State,
    counters: Counters,
)
    ensures
        ({
            let (ga, h, st, c, out) = gap_close_effect(gap_active, evidence_hwm, w, gen, state, counters);
            &&& gap_active && !ga ==> w >= evidence_hwm
            &&& gap_active && w >= evidence_hwm ==> !ga && out == seq![SinkItem::Ev(Event::ReAnchored { gen, at: w })]
            &&& gap_active && w < evidence_hwm ==> ga && h == evidence_hwm && out.len() == 0
            &&& !gap_active ==> !ga && out.len() == 0
        }),
{
}

/// Evidence seen while a gap stays open is never passed by a closing: after evidence
/// `x` during an open gap, the gap does not close while the watermark is below `x`.
pub proof fn law_gap_stays_open_below_evidence(
    gen: u64,
    evidence_hwm: u64,
    w: u64,
    x: u64,
    state: State,
    counters: Counters,
    w2: u64,
)
    requires
        w2 < x,
    ensures
        ({
            let (ga, g, h, st, c, out) = gap_evidence_effect(true, gen, evidence_hwm, w, x, state, counters);
            let (ga2, h2, st2, c2, out2) = gap_close_effect(ga, h, w2, g, st, c);
            ga2 && out2.len() == 0
        }),
{
    law_evidence_covered(true, gen, evidence_hwm, w, x, state, counters);
    let (ga, g, h, st, c, out) = gap_evidence_effect(true, gen, evidence_hwm, w, x, state, counters);
    law_gap_closes_at_evidence(ga, h, w2, g, st, c);
}

} // verus!
