//! Session lifecycle: discovery, boundaries, heartbeats, end of session, sealing.

use vstd::prelude::*;
use crate::arbitrator::counters::{inc, Counters};
use crate::arbitrator::gap::{gap_evidence, gap_evidence_effect};
use crate::arbitrator::state::State;
use crate::arbitrator::types::{DeadReason, Event, FeedId, Sink, SinkItem};
use crate::arbitrator::window::{empty_window, occupied, WINDOW_SLOTS};
use crate::protocol::moldudp64::Header;

verus! {

/// No session has been seen yet (the all-zero session id).
pub open spec fn is_unset(s: [u8; 10]) -> bool {
    s@ == seq![0u8, 0u8, 0u8, 0u8, 0u8, 0u8, 0u8, 0u8, 0u8, 0u8]
}

/// Compares two session ids byte by byte.
pub fn same_session(a: &[u8; 10], b: &[u8; 10]) -> (r: bool)
    ensures
        r == (a@ == b@),
{
    let mut i: usize = 0;
    while i < 10
        invariant
            i <= 10,
            a@.len() == 10,
            b@.len() == 10,
            a@.subrange(0, i as int) == b@.subrange(0, i as int),
        decreases 10 - i,
    {
        if a[i] != b[i] {
            assert(a@[i as int] != b@[i as int]);
            return false;
        }
        assert(a@.subrange(0, i + 1) =~= a@.subrange(0, i as int).push(a@[i as int]));
        assert(b@.subrange(0, i + 1) =~= b@.subrange(0, i as int).push(b@[i as int]));
        i = i + 1;
    }
    assert(a@ =~= a@.subrange(0, 10));
    assert(b@ =~= b@.subrange(0, 10));
    true
}

/// Empties every window slot.
pub fn clear_window(lens: &mut [u8; WINDOW_SLOTS])
    ensures
        final(lens)@ == empty_window(),
{
    let mut i: usize = 0;
    while i < WINDOW_SLOTS
        invariant
            i <= WINDOW_SLOTS,
            lens@.len() == WINDOW_SLOTS,
            forall|j: int| 0 <= j < i ==> lens@[j] == 0,
        decreases WINDOW_SLOTS - i,
    {
        lens[i] = 0;
        i = i + 1;
    }
    assert(lens@ =~= empty_window());
}

/// Handles session discovery or a session boundary. A boundary flushes the window,
/// forgets all gap and heartbeat evidence and any pending intent, bumps the generation,
/// announces the boundary, and returns the sequencer to `Init`.
pub fn session_dispatch<S: Sink>(
    session: &mut [u8; 10],
    new_session: [u8; 10],
    lens: &mut [u8; WINDOW_SLOTS],
    staged_count: &mut u32,
    max_staged: &mut u64,
    gap_active: &mut bool,
    evidence_hwm: &mut u64,
    hb_seq: &mut u64,
    hb_vt: &mut u64,
    pending_to: &mut Option<u64>,
    gen: &mut u64,
    state: &mut State,
    counters: &mut Counters,
    sink: &mut S,
)
    requires
        *old(staged_count) == occupied(old(lens)@),
    ensures
        is_unset(*old(session)) ==> {
            &&& *final(session) == new_session
            &&& *final(counters) == Counters { sessions: inc(old(counters).sessions), ..*old(counters) }
            &&& final(lens)@ == old(lens)@ && *final(staged_count) == *old(staged_count)
            &&& *final(max_staged) == *old(max_staged) && *final(gap_active) == *old(gap_active)
            &&& *final(evidence_hwm) == *old(evidence_hwm) && *final(hb_seq) == *old(hb_seq)
            &&& *final(hb_vt) == *old(hb_vt) && *final(pending_to) == *old(pending_to)
            &&& *final(gen) == *old(gen) && *final(state) == *old(state)
            &&& final(sink).items() == old(sink).items()
        },
        !is_unset(*old(session)) && old(session)@ != new_session@ ==> {
            let g = old(gen).wrapping_add(1);
            &&& *final(session) == new_session
            &&& *final(counters) == (if *old(staged_count) != 0 {
                Counters {
                    sessions: inc(old(counters).sessions),
                    window_flushed: inc(old(counters).window_flushed),
                    ..*old(counters)
                }
            } else {
                Counters { sessions: inc(old(counters).sessions), ..*old(counters) }
            })
            &&& final(lens)@ == (if *old(staged_count) != 0 { empty_window() } else { old(lens)@ })
            &&& *final(staged_count) == 0
            &&& *final(max_staged) == 0 && *final(gap_active) == false
            &&& *final(evidence_hwm) == 0 && *final(hb_seq) == 0 && *final(hb_vt) == 0
            &&& *final(pending_to) == None::<u64>
            &&& *final(gen) == g && *final(state) == State::Init
            &&& final(sink).items() == old(sink).items().push(
                SinkItem::Ev(Event::SessionBoundary { prev: *old(session), next: new_session, gen: g }),
            )
        },
        !is_unset(*old(session)) && old(session)@ == new_session@ ==> {
            &&& *final(session) == *old(session) && *final(counters) == *old(counters)
            &&& final(lens)@ == old(lens)@ && *final(staged_count) == *old(staged_count)
            &&& *final(max_staged) == *old(max_staged) && *final(gap_active) == *old(gap_active)
            &&& *final(evidence_hwm) == *old(evidence_hwm) && *final(hb_seq) == *old(hb_seq)
            &&& *final(hb_vt) == *old(hb_vt) && *final(pending_to) == *old(pending_to)
            &&& *final(gen) == *old(gen) && *final(state) == *old(state)
            &&& final(sink).items() == old(sink).items()
        },
        *final(staged_count) == occupied(final(lens)@),
{
    let zero = [0u8; 10];
    assert(zero@ =~= seq![0u8, 0u8, 0u8, 0u8, 0u8, 0u8, 0u8, 0u8, 0u8, 0u8]);
    if same_session(session, &zero) {
        *session = new_session;
        counters.sessions = counters.sessions.wrapping_add(1);
    } else if !same_session(session, &new_session) {
        let prev = *session;
        *session = new_session;
        counters.sessions = counters.sessions.wrapping_add(1);
        if *staged_count != 0 {
            clear_window(lens);
            *staged_count = 0;
            counters.window_flushed = counters.window_flushed.wrapping_add(1);
            proof {
                crate::arbitrator::window::lemma_occupied_zeros(WINDOW_SLOTS as nat);
            }
        }
        *max_staged = 0;
        *gap_active = false;
        *evidence_hwm = 0;
        *hb_seq = 0;
        *hb_vt = 0;
        *pending_to = None;
        *gen = gen.wrapping_add(1);
        sink.on_event(&Event::SessionBoundary { prev, next: new_session, gen: *gen });
        *state = State::Init;
    }
}

/// Effect of a heartbeat announcing `seq` at time `now` with watermark `w`.
pub open spec fn heartbeat_effect(
    seq: u64,
    now_ns: u64,
    w: u64,
    hb_seq: u64,
    hb_vt: u64,
    gap_active: bool,
    gen: u64,
    evidence_hwm: u64,
    state: State,
    counters: Counters,
) -> (u64, u64, bool, u64, u64, State, Counters, Seq<SinkItem>) {
    let c1 = Counters { heartbeats: inc(counters.heartbeats), ..counters };
    if state == State::Init {
        (seq, now_ns, gap_active, gen, evidence_hwm, state, c1, Seq::empty())
    } else if state == State::Dead || state == State::Ended || seq <= w {
        (hb_seq, hb_vt, gap_active, gen, evidence_hwm, state, c1, Seq::empty())
    } else {
        let (ga, g, h, st, c, out) = gap_evidence_effect(
            gap_active,
            gen,
            evidence_hwm,
            w,
            seq,
            state,
            c1,
        );
        (seq, now_ns, ga, g, h, st, c, out)
    }
}

/// Handles a heartbeat (count 0) announcing `seq` as the next sequence number.
/// Before the first data packet it only remembers the announcement; in a live session
/// an announcement beyond `w` is gap evidence.
pub fn handle_heartbeat<S: Sink>(
    seq: u64,
    feed: FeedId,
    now_ns: u64,
    w: u64,
    hb_seq: &mut u64,
    hb_vt: &mut u64,
    gap_active: &mut bool,
    gen: &mut u64,
    evidence_hwm: &mut u64,
    state: &mut State,
    counters: &mut Counters,
    sink: &mut S,
)
    ensures
        ({
            let (hs, hv, ga, g, h, st, c, out) = heartbeat_effect(
                seq,
                now_ns,
                w,
                *old(hb_seq),
                *old(hb_vt),
                *old(gap_active),
                *old(gen),
                *old(evidence_hwm),
                *old(state),
                *old(counters),
            );
            &&& *final(hb_seq) == hs && *final(hb_vt) == hv
            &&& *final(gap_active) == ga && *final(gen) == g && *final(evidence_hwm) == h
            &&& *final(state) == st && *final(counters) == c
            &&& final(sink).items() == old(sink).items() + out
        }),
{
    counters.heartbeats = counters.heartbeats.wrapping_add(1);
    if *state == State::Dead {
        assert(sink.items() =~= old(sink).items() + Seq::<SinkItem>::empty());
        return;
    }
    if *state == State::Init {
        *hb_seq = seq;
        *hb_vt = now_ns;
        assert(sink.items() =~= old(sink).items() + Seq::<SinkItem>::empty());
        return;
    }
    if *state == State::Ended {
        assert(sink.items() =~= old(sink).items() + Seq::<SinkItem>::empty());
        return;
    }
    if seq > w {
        *hb_seq = seq;
        *hb_vt = now_ns;
        gap_evidence(gap_active, gen, evidence_hwm, w, seq, state, counters, sink);
    } else {
        assert(sink.items() =~= old(sink).items() + Seq::<SinkItem>::empty());
    }
}

/// Effect of an end-of-session packet announcing `next_seq` with watermark `w`.
pub open spec fn eos_effect(
    next_seq: u64,
    w: u64,
    session: [u8; 10],
    state: State,
    counters: Counters,
) -> (State, Counters, Seq<SinkItem>) {
    if state == State::Dead {
        (state, counters, Seq::empty())
    } else if state == State::Ended {
        (state, Counters { eos_dup: inc(counters.eos_dup), ..counters }, Seq::empty())
    } else {
        (
            State::Ended,
            Counters { eos_seen: inc(counters.eos_seen), ..counters },
            seq![SinkItem::Ev(Event::EndOfSession { session, final_wm: w, announced_next: next_seq })],
        )
    }
}

/// Handles an end-of-session packet (count 0xFFFF): the first one ends the session and
/// announces the final watermark and the announced next sequence number; repeats are
/// counted as duplicates.
pub fn handle_eos<S: Sink>(
    hdr: &Header,
    w: u64,
    session: [u8; 10],
    state: &mut State,
    counters: &mut Counters,
    sink: &mut S,
)
    ensures
        ({
            let (st, c, out) = eos_effect(hdr.seq, w, session, *old(state), *old(counters));
            &&& *final(state) == st && *final(counters) == c
            &&& final(sink).items() == old(sink).items() + out
        }),
{
    if *state == State::Dead {
        assert(sink.items() =~= old(sink).items() + Seq::<SinkItem>::empty());
        return;
    }
    if *state == State::Ended {
        counters.eos_dup = counters.eos_dup.wrapping_add(1);
        assert(sink.items() =~= old(sink).items() + Seq::<SinkItem>::empty());
        return;
    }
    counters.eos_seen = counters.eos_seen.wrapping_add(1);
    let final_wm = w;
    let announced_next = hdr.seq;
    *state = State::Ended;
    let ev = Event::EndOfSession { session, final_wm, announced_next };
    sink.on_event(&ev);
    assert(sink.items() =~= old(sink).items() + seq![SinkItem::Ev(ev)]);
}

/// Effect of sealing with watermark `w`.
pub open spec fn seal_effect(reason: DeadReason, w: u64, state: State) -> (State, Seq<SinkItem>) {
    if state != State::Dead {
        (State::Dead, seq![SinkItem::Ev(Event::SessionDead { reason, last_wm: w })])
    } else {
        (state, Seq::empty())
    }
}

/// Permanently seals to `Dead`, announcing it once.
pub fn seal<S: Sink>(reason: DeadReason, w: u64, state: &mut State, sink: &mut S)
    ensures
        ({
            let (st, out) = seal_effect(reason, w, *old(state));
            &&& *final(state) == st
            &&& final(sink).items() == old(sink).items() + out
        }),
{
    if *state != State::Dead {
        *state = State::Dead;
        let ev = Event::SessionDead { reason, last_wm: w };
        sink.on_event(&ev);
        assert(sink.items() =~= old(sink).items() + seq![SinkItem::Ev(ev)]);
    } else {
        assert(sink.items() =~= old(sink).items() + Seq::<SinkItem>::empty());
    }
}

} // verus!
