//! Replay transport that renders each frame when it is polled, into a fixed arena of
//! 256 slots of 1500 bytes, under a virtual clock.

use vstd::prelude::*;
use crate::protocol::moldudp64::HEADER_LEN;
use crate::transport::render::{
    cursor_consistent, effective_session, event_header, lemma_render_consistent, lemma_seek_walk_bound,
    lemma_walk_grows, render_outcome, render_with_split, rendered, seek_spec, walk_blocks, Cursor, ARENA_SLOTS, ARENA_SLOT_SIZE,
};
pub use crate::transport::sched_types::{ReplaySchedule, SchedEvent, SchedKind};
use crate::transport::{FrameBatch, FrameView, Transport};

verus! {

/// The slot contents the specification renders into; what a slot held before does not
/// change what is rendered (see [`lemma_outcome_slot`]).
pub open spec fn blank_slot() -> Seq<u8> {
    Seq::new(1500, |i: int| 0u8)
}

/// Whether rendering `ev` through cursor `(off, idx)` stays within machine integers:
/// the cursor's offset can advance and a packet's last message index fits `u64`. A
/// cursor that has walked the stream from its start always passes.
pub open spec fn render_guard(ev: SchedEvent, off: int, idx: int) -> bool {
    match ev.kind {
        SchedKind::Packet { first_msg, count, .. } => (idx > first_msg || off + 2 <= usize::MAX)
            && first_msg + count <= u64::MAX,
        _ => true,
    }
}

/// The abstract state of an on-demand replay transport.
pub struct DemandView {
    pub gt: Seq<u8>,
    pub events: Seq<SchedEvent>,
    pub event_idx: int,
    pub vclock: u64,
    pub arena: Seq<u8>,
    /// Cursors `(byte offset, message index)` of feed A and feed B.
    pub cursor_a: (int, int),
    pub cursor_b: (int, int),
    pub session: [u8; 10],
}

/// The cursor of the feed `ev` arrives on.
pub open spec fn cursor_for(v: DemandView, ev: SchedEvent) -> (int, int) {
    if ev.feed & 1u8 == 0 {
        v.cursor_a
    } else {
        v.cursor_b
    }
}

/// Whether a poll from state `v` with `out` handed out so far stops: no event left, 256
/// frames handed out, or the next event not yet released.
pub open spec fn demand_stops(v: DemandView, out: Seq<FrameView>) -> bool {
    v.event_idx < 0 || v.event_idx >= v.events.len() || out.len() >= 256 || v.events[v.event_idx].release_vt
        > v.vclock
}

/// One step of a poll: the next event is rendered through its feed's cursor into the next
/// free slot, and handed out (with its event index) when it renders.
pub open spec fn demand_next(v: DemandView, out: Seq<FrameView>, handed: Seq<int>) -> (DemandView, Seq<FrameView>, Seq<int>) {
    let i = v.event_idx;
    let ev = v.events[i];
    let cur = cursor_for(v, ev);
    if !render_guard(ev, cur.0, cur.1) {
        (DemandView { event_idx: i + 1, ..v }, out, handed)
    } else {
        let o = render_outcome(v.gt, ev, None, v.session, blank_slot(), cur.0, cur.1);
        let v1 = if ev.feed & 1u8 == 0 {
            DemandView { event_idx: i + 1, cursor_a: (o.2, o.3), ..v }
        } else {
            DemandView { event_idx: i + 1, cursor_b: (o.2, o.3), ..v }
        };
        match o.0 {
            Some(n) => {
                let base: int = (out.len() * 1500) as int;
                (
                    DemandView { arena: v.arena.subrange(0, base) + o.1.take(n) + v.arena.skip(base + n), ..v1 },
                    out.push(FrameView { offset: base as usize, len: n as u16, feed: ev.feed }),
                    handed.push(i),
                )
            },
            None => (v1, out, handed),
        }
    }
}

/// One poll from state `v` with `out` handed out so far: steps until it stops. Returns
/// the state after, the frames handed out, and the event index of each.
pub open spec fn demand_run(v: DemandView, out: Seq<FrameView>, handed: Seq<int>) -> (DemandView, Seq<FrameView>, Seq<int>)
    decreases v.events.len() - v.event_idx,
{
    if demand_stops(v, out) {
        (v, out, handed)
    } else {
        let nx = demand_next(v, out, handed);
        if nx.0.event_idx != v.event_idx + 1 || nx.0.events != v.events {
            (v, out, handed)
        } else {
            demand_run(nx.0, nx.1, nx.2)
        }
    }
}

/// The virtual clock a poll runs at: jumped forward to the next event's release time.
pub open spec fn demand_clock(v: DemandView) -> u64 {
    if v.events[v.event_idx].release_vt > v.vclock {
        v.events[v.event_idx].release_vt
    } else {
        v.vclock
    }
}

/// What a render produces does not depend on what the slot held: the length, the frame
/// bytes and the cursor are the same for any two slots of one size.
pub proof fn lemma_outcome_slot(
    gt: Seq<u8>,
    ev: SchedEvent,
    split: Option<(u64, [u8; 10])>,
    session: [u8; 10],
    s1: Seq<u8>,
    s2: Seq<u8>,
    off: int,
    idx: int,
)
    requires
        s1.len() == s2.len(),
    ensures
        ({
            let o1 = render_outcome(gt, ev, split, session, s1, off, idx);
            let o2 = render_outcome(gt, ev, split, session, s2, off, idx);
            &&& o1.0 == o2.0
            &&& o1.2 == o2.2
            &&& o1.3 == o2.3
            &&& (o1.0 matches Some(n) ==> o1.1.take(n) == o2.1.take(n))
            &&& (o1.0 matches Some(n) ==> HEADER_LEN <= n <= s1.len() && o1.1.len() == s1.len())
        }),
{
    let hdr = event_header(ev, effective_session(ev, split, session)@);
    assert(hdr.len() == HEADER_LEN);
    if s1.len() >= HEADER_LEN {
        match ev.kind {
            SchedKind::Packet { first_msg, count, .. } => {
                let sk = seek_spec(gt, off, idx, first_msg as int);
                lemma_seek_walk_bound(gt, 0, 0, first_msg as int);
                lemma_seek_walk_bound(gt, off, idx, first_msg as int);
                if let Some(start) = sk.0 {
                    lemma_walk_grows(gt, start, count as nat);
                    if let Some(end) = walk_blocks(gt, start, count as nat) {
                        let total = HEADER_LEN + end - start;
                        if total <= s1.len() && end <= gt.len() {
                            assert((hdr + gt.subrange(start, end) + s1.skip(total)).take(total) =~= (hdr
                                + gt.subrange(start, end) + s2.skip(total)).take(total));
                        }
                    }
                }
            },
            _ => {
                assert((hdr + s1.skip(HEADER_LEN as int)).take(HEADER_LEN as int) =~= (hdr + s2.skip(
                    HEADER_LEN as int,
                )).take(HEADER_LEN as int));
            },
        }
    }
}

/// Virtual-clock driven transport that renders each frame of `schedule` from the
/// ground-truth stream `gt` when it is polled.
pub struct ReplayTransport<'a> {
    gt: &'a [u8],
    schedule: ReplaySchedule,
    event_idx: usize,
    virtual_clock: u64,
    arena: Vec<u8>,
    scratch: [u8; 1500],
    cursor_a: Cursor,
    cursor_b: Cursor,
    session: [u8; 10],
}

impl<'a> View for ReplayTransport<'a> {
    type V = DemandView;

    closed spec fn view(&self) -> DemandView {
        DemandView {
            gt: self.gt@,
            events: self.schedule.events@,
            event_idx: self.event_idx as int,
            vclock: self.virtual_clock,
            arena: self.arena@,
            cursor_a: (self.cursor_a.byte_offset as int, self.cursor_a.msg_index as int),
            cursor_b: (self.cursor_b.byte_offset as int, self.cursor_b.msg_index as int),
            session: self.session,
        }
    }
}

/// Copies `src[0..len]` over `dst[at..at + len]`.
fn copy_into(dst: &mut Vec<u8>, at: usize, src: &[u8; 1500], len: usize)
    requires
        len <= 1500,
        at + len <= old(dst)@.len(),
    ensures
        final(dst)@ == old(dst)@.subrange(0, at as int) + src@.take(len as int) + old(dst)@.skip(at + len),
        final(dst)@.len() == old(dst)@.len(),
{
    let ghost d0 = dst@;
    let mut k: usize = 0;
    while k < len
        invariant
            k <= len <= 1500,
            at + len <= d0.len(),
            dst@.len() == d0.len(),
            dst.len() == d0.len(),
            forall|x: int| 0 <= x < at ==> dst@[x] == d0[x],
            forall|x: int| at <= x < at + k ==> dst@[x] == src@[x - at],
            forall|x: int| at + k <= x < d0.len() ==> dst@[x] == d0[x],
        decreases len - k,
    {
        dst.set(at + k, src[k]);
        k = k + 1;
    }
    assert(dst@ =~= d0.subrange(0, at as int) + src@.take(len as int) + d0.skip(at + len));
}

impl<'a> ReplayTransport<'a> {
    /// A transport at the first event of `schedule`, its clock at that event's release
    /// time, both cursors at the start of `gt`.
    pub fn new(gt: &'a [u8], schedule: ReplaySchedule, session: [u8; 10]) -> (t: Self)
        ensures
            t@.gt == gt@,
            t@.events == schedule.events@,
            t@.event_idx == 0,
            t@.vclock == (if schedule.events@.len() > 0 {
                schedule.events@[0].release_vt
            } else {
                0
            }),
            t@.arena.len() == ARENA_SLOTS * ARENA_SLOT_SIZE,
            t@.cursor_a == (0int, 0int),
            t@.cursor_b == (0int, 0int),
            t@.session == session,
    {
        let first_vt = if schedule.events.len() > 0 {
            schedule.events[0].release_vt
        } else {
            0
        };
        let arena = vec![0u8; ARENA_SLOTS * ARENA_SLOT_SIZE];
        ReplayTransport {
            gt,
            schedule,
            event_idx: 0,
            virtual_clock: first_vt,
            arena,
            scratch: [0u8; 1500],
            cursor_a: Cursor { byte_offset: 0, msg_index: 0 },
            cursor_b: Cursor { byte_offset: 0, msg_index: 0 },
            session,
        }
    }

    /// Hands out the frames released at the current virtual clock (jumping the clock to
    /// the next release when nothing is due), at most 256; returns how many.
    pub fn poll_frames(&mut self, batch: &mut FrameBatch) -> (r: usize)
        ensures
            ({
                let v = old(self)@;
                if v.gt.len() + 0x2_0000 > usize::MAX || v.event_idx >= v.events.len()
                    || v.arena.len() != ARENA_SLOTS * ARENA_SLOT_SIZE {
                    &&& r == 0
                    &&& final(batch)@ == Seq::<FrameView>::empty()
                    &&& final(self)@ == v
                } else {
                    let run = demand_run(DemandView { vclock: demand_clock(v), ..v }, Seq::empty(), Seq::empty());
                    &&& final(self)@ == run.0
                    &&& final(batch)@ == run.1
                    &&& r == run.1.len()
                }
            }),
    {
        batch.clear();
        let n = self.schedule.events.len();
        if self.gt.len() > usize::MAX - 0x2_0000 || self.event_idx >= n || self.arena.len() != ARENA_SLOTS
            * ARENA_SLOT_SIZE {
            return 0;
        }
        if self.schedule.events[self.event_idx].release_vt > self.virtual_clock {
            self.virtual_clock = self.schedule.events[self.event_idx].release_vt;
        }
        let ghost target = demand_run(self@, Seq::empty(), Seq::empty());
        let ghost mut handed: Seq<int> = Seq::empty();
        while self.event_idx < n && batch.len() < 256 && self.schedule.events[self.event_idx].release_vt
            <= self.virtual_clock
            invariant
                n == self.schedule.events@.len(),
                self.event_idx <= n,
                self@.gt.len() + 0x2_0000 <= usize::MAX,
                self@.arena.len() == ARENA_SLOTS * ARENA_SLOT_SIZE,
                batch@.len() <= 256,
                demand_run(self@, batch@, handed) == target,
            decreases n - self.event_idx,
        {
            let ev = self.schedule.events[self.event_idx];
            let use_a = ev.feed & 1 == 0;
            let mut cur = if use_a {
                self.cursor_a
            } else {
                self.cursor_b
            };
            let guard = match ev.kind {
                SchedKind::Packet { first_msg, count, .. } => (cur.msg_index > first_msg || cur.byte_offset
                    <= usize::MAX - 2) && first_msg <= u64::MAX - count as u64,
                _ => true,
            };
            let ghost v0 = self@;
            let ghost out0 = batch@;
            if guard {
                let ghost c0 = cur;
                let ghost sc0 = self.scratch@;
                let res = render_with_split(self.gt, &ev, None, self.session, &mut self.scratch, &mut cur);
                proof {
                    lemma_outcome_slot(
                        self.gt@,
                        ev,
                        None,
                        self.session,
                        sc0,
                        blank_slot(),
                        c0.byte_offset as int,
                        c0.msg_index as int,
                    );
                }
                if use_a {
                    self.cursor_a = cur;
                } else {
                    self.cursor_b = cur;
                }
                let ghost o = render_outcome(
                    v0.gt,
                    ev,
                    None,
                    v0.session,
                    blank_slot(),
                    c0.byte_offset as int,
                    c0.msg_index as int,
                );
                assert(sc0.len() == 1500);
                let ghost o1 = render_outcome(
                    self.gt@,
                    ev,
                    None,
                    self.session,
                    sc0,
                    c0.byte_offset as int,
                    c0.msg_index as int,
                );
                assert(res == (match o1.0 {
                    Some(n) => Some(n as usize),
                    None => None::<usize>,
                }));
                assert(o1.0 == o.0);
                assert(cursor_for(v0, ev) == (c0.byte_offset as int, c0.msg_index as int));
                match res {
                    Some(len) => {
                        assert(o1.0 is Some);
                        let ghost nn = o1.0->Some_0;
                        assert(0 <= nn <= 1500);
                        assert(nn as usize == len);
                        assert(nn == len);
                        assert(o.0 == Some(len as int));
                        assert(len <= 1500);
                        let base = batch.len() * ARENA_SLOT_SIZE;
                        copy_into(&mut self.arena, base, &self.scratch, len);
                        batch.push(FrameView { offset: base, len: len as u16, feed: ev.feed });
                        proof {
                            handed = handed.push(v0.event_idx);
                        }
                        self.event_idx = self.event_idx + 1;
                        proof {
                            assert(self.scratch@.take(len as int) == o.1.take(len as int));
                            assert(self@ == (DemandView {
                                arena: v0.arena.subrange(0, (out0.len() * 1500) as int) + o.1.take(len as int)
                                    + v0.arena.skip(out0.len() * 1500 + len),
                                event_idx: v0.event_idx + 1,
                                cursor_a: if ev.feed & 1u8 == 0 { (o.2, o.3) } else { v0.cursor_a },
                                cursor_b: if ev.feed & 1u8 == 0 { v0.cursor_b } else { (o.2, o.3) },
                                ..v0
                            }));
                        }
                    },
                    None => {
                        self.event_idx = self.event_idx + 1;
                    },
                }
            } else {
                self.event_idx = self.event_idx + 1;
            }
        }
        batch.len()
    }
}


impl<'a> ReplayTransport<'a> {
    /// The bytes of a frame handed out by the most recent poll (empty for a view that
    /// lies outside the arena).
    pub fn frame(&self, view: &FrameView) -> (r: &[u8])
        ensures
            view.offset + view.len <= self@.arena.len() ==> r@ == self@.arena.subrange(
                view.offset as int,
                view.offset + view.len,
            ),
            view.offset + view.len > self@.arena.len() ==> r@.len() == 0,
    {
        let all = self.arena.as_slice();
        if view.offset <= all.len() && (view.len as usize) <= all.len() - view.offset {
            vstd::slice::slice_subrange(all, view.offset, view.offset + view.len as usize)
        } else {
            vstd::slice::slice_subrange(all, 0, 0)
        }
    }

    /// The virtual clock.
    pub fn now(&self) -> (r: u64)
        ensures
            r == self@.vclock,
    {
        self.virtual_clock
    }
}

impl<'a> Transport for ReplayTransport<'a> {
    fn poll(&mut self, batch: &mut FrameBatch) -> (r: usize)
        ensures
            ({
                let v = old(self)@;
                if v.gt.len() + 0x2_0000 > usize::MAX || v.event_idx >= v.events.len()
                    || v.arena.len() != ARENA_SLOTS * ARENA_SLOT_SIZE {
                    &&& r == 0
                    &&& final(batch)@ == Seq::<FrameView>::empty()
                    &&& final(self)@ == v
                } else {
                    let run = demand_run(DemandView { vclock: demand_clock(v), ..v }, Seq::empty(), Seq::empty());
                    &&& final(self)@ == run.0
                    &&& final(batch)@ == run.1
                    &&& r == run.1.len()
                }
            }),
    {
        self.poll_frames(batch)
    }

    fn now_ns(&self) -> (r: u64)
        ensures
            r == self@.vclock,
    {
        self.virtual_clock
    }

    fn frame_bytes(&self, frame: &FrameView) -> (r: &[u8])
        ensures
            frame.offset + frame.len <= self@.arena.len() ==> r@ == self@.arena.subrange(
                frame.offset as int,
                frame.offset + frame.len,
            ),
            frame.offset + frame.len > self@.arena.len() ==> r@.len() == 0,
    {
        self.frame(frame)
    }
}

/// What a poll keeps true from event index `i0` on: cursors that have walked the stream,
/// and for the frames handed out so far, frame `k` in slot `k` holding the rendering of
/// the `k`-th handed-out event, those events in order, and every other event passed over
/// having no rendering.
pub open spec fn demand_ok(v: DemandView, out: Seq<FrameView>, handed: Seq<int>, i0: int) -> bool {
    &&& cursor_consistent(v.gt, v.cursor_a.0, v.cursor_a.1)
    &&& cursor_consistent(v.gt, v.cursor_b.0, v.cursor_b.1)
    &&& v.gt.len() + 0x2_0000 <= usize::MAX
    &&& v.arena.len() == ARENA_SLOTS * ARENA_SLOT_SIZE
    &&& 0 <= i0 <= v.event_idx
    &&& out.len() == handed.len() <= 256
    &&& forall|k: int|
        0 <= k < out.len() ==> {
            &&& i0 <= #[trigger] handed[k] < v.event_idx
            &&& (k > 0 ==> handed[k - 1] < handed[k])
            &&& out[k].offset == k * 1500
            &&& out[k].len <= 1500
            &&& out[k].feed == v.events[handed[k]].feed
            &&& rendered(v.gt, v.events[handed[k]], None, v.session) == Some(
                v.arena.subrange(k * 1500, k * 1500 + out[k].len),
            )
        }
    &&& forall|j: int|
        i0 <= j < v.event_idx && !handed.contains(j) ==> #[trigger] rendered(v.gt, v.events[j], None, v.session)
            is None
}

proof fn lemma_slot_math(k: int, m: int)
    requires
        0 <= k < m,
    ensures
        k * 1500 + 1500 <= m * 1500,
{
    assert(k * 1500 + 1500 <= m * 1500) by (nonlinear_arith)
        requires
            0 <= k < m,
    ;
}

/// One poll step keeps [`demand_ok`].
#[verifier::rlimit(40)]
proof fn lemma_demand_step_ok(v: DemandView, out: Seq<FrameView>, handed: Seq<int>, i0: int)
    requires
        demand_ok(v, out, handed, i0),
        !demand_stops(v, out),
    ensures
        ({
            let nx = demand_next(v, out, handed);
            &&& demand_ok(nx.0, nx.1, nx.2, i0)
            &&& nx.0.event_idx == v.event_idx + 1
            &&& nx.0.events == v.events
            &&& nx.0.gt == v.gt
            &&& nx.0.session == v.session
        }),
{
    let i = v.event_idx;
    let ev = v.events[i];
    let cur = cursor_for(v, ev);
    lemma_walk_grows(v.gt, 0, cur.1 as nat);
    assert(!handed.contains(i)) by {
        if handed.contains(i) {
            let k = choose|k: int| 0 <= k < handed.len() && handed[k] == i;
            assert(handed[k] < v.event_idx);
        }
    }
    if !render_guard(ev, cur.0, cur.1) {
        if let SchedKind::Packet { first_msg, count, .. } = ev.kind {
            lemma_walk_grows(v.gt, 0, first_msg as nat);
        }
        assert(rendered(v.gt, ev, None, v.session) is None);
    } else {
        let o = render_outcome(v.gt, ev, None, v.session, blank_slot(), cur.0, cur.1);
        lemma_render_consistent(v.gt, ev, None, v.session, blank_slot(), cur.0, cur.1);
        lemma_outcome_slot(v.gt, ev, None, v.session, blank_slot(), blank_slot(), cur.0, cur.1);
        if let Some(n) = o.0 {
            lemma_demand_hand_out(v, out, handed, i0, o.1.take(n));
        }
    }
}

/// Handing out `frame` as the next frame keeps the frames handed out before in place.
proof fn lemma_demand_hand_out(v: DemandView, out: Seq<FrameView>, handed: Seq<int>, i0: int, frame: Seq<u8>)
    requires
        demand_ok(v, out, handed, i0),
        !demand_stops(v, out),
        !handed.contains(v.event_idx),
        HEADER_LEN <= frame.len() <= 1500,
        rendered(v.gt, v.events[v.event_idx], None, v.session) == Some(frame),
    ensures
        ({
            let base: int = (out.len() * 1500) as int;
            let arena2 = v.arena.subrange(0, base) + frame + v.arena.skip(base + frame.len());
            let out2 = out.push(FrameView { offset: base as usize, len: frame.len() as u16, feed: v.events[v.event_idx].feed });
            let handed2 = handed.push(v.event_idx);
            &&& arena2.len() == v.arena.len()
            &&& forall|k: int|
                0 <= k < out2.len() ==> {
                    &&& i0 <= #[trigger] handed2[k] < v.event_idx + 1
                    &&& (k > 0 ==> handed2[k - 1] < handed2[k])
                    &&& out2[k].offset == k * 1500
                    &&& out2[k].len <= 1500
                    &&& out2[k].feed == v.events[handed2[k]].feed
                    &&& rendered(v.gt, v.events[handed2[k]], None, v.session) == Some(
                        arena2.subrange(k * 1500, k * 1500 + out2[k].len),
                    )
                }
            &&& forall|j: int|
                i0 <= j < v.event_idx + 1 && !handed2.contains(j) ==> #[trigger] rendered(v.gt, v.events[j], None, v.session)
                    is None
        }),
{
    let i = v.event_idx;
    let ev = v.events[i];
    let n = frame.len() as int;
    let base: int = (out.len() * 1500) as int;
    let arena2 = v.arena.subrange(0, base) + frame + v.arena.skip(base + n);
    let out2 = out.push(FrameView { offset: base as usize, len: n as u16, feed: ev.feed });
    let handed2 = handed.push(i);
    assert(base + 1500 <= ARENA_SLOTS * ARENA_SLOT_SIZE);
    assert(arena2.subrange(base, base + n) =~= frame);
    assert forall|k: int| 0 <= k < out2.len() implies {
        &&& i0 <= #[trigger] handed2[k] < v.event_idx + 1
        &&& (k > 0 ==> handed2[k - 1] < handed2[k])
        &&& out2[k].offset == k * 1500
        &&& out2[k].len <= 1500
        &&& out2[k].feed == v.events[handed2[k]].feed
        &&& rendered(v.gt, v.events[handed2[k]], None, v.session) == Some(
            arena2.subrange(k * 1500, k * 1500 + out2[k].len),
        )
    } by {
        if k < out.len() {
            lemma_slot_math(k, out.len() as int);
            assert(arena2.subrange(k * 1500, k * 1500 + out[k].len) =~= v.arena.subrange(
                k * 1500,
                k * 1500 + out[k].len,
            ));
        }
    }
    assert forall|j: int| i0 <= j < v.event_idx + 1 && !handed2.contains(j) implies #[trigger] rendered(
        v.gt,
        v.events[j],
        None,
        v.session,
    ) is None by {
        if j < i {
            assert(!handed.contains(j)) by {
                if handed.contains(j) {
                    let k = choose|k: int| 0 <= k < handed.len() && handed[k] == j;
                    assert(handed2[k] == j);
                }
            }
        } else {
            assert(handed2[handed.len() as int] == i);
        }
    }
}

/// A poll run keeps [`demand_ok`], and changes neither the stream, the events nor the
/// session.
proof fn lemma_demand_run_ok(v: DemandView, out: Seq<FrameView>, handed: Seq<int>, i0: int)
    requires
        demand_ok(v, out, handed, i0),
    ensures
        ({
            let run = demand_run(v, out, handed);
            &&& demand_ok(run.0, run.1, run.2, i0)
            &&& run.0.gt == v.gt
            &&& run.0.events == v.events
            &&& run.0.session == v.session
        }),
    decreases v.events.len() - v.event_idx,
{
    if !demand_stops(v, out) {
        lemma_demand_step_ok(v, out, handed, i0);
        let nx = demand_next(v, out, handed);
        lemma_demand_run_ok(nx.0, nx.1, nx.2, i0);
    }
}

/// A poll hands out, in order and each in a slot of its own, the rendering of every
/// released event that has one, and passes over only events that have none; the cursors
/// stay on the stream. This holds of every state a transport reaches from `new`.
pub proof fn law_demand_renders(v: DemandView)
    requires
        cursor_consistent(v.gt, v.cursor_a.0, v.cursor_a.1),
        cursor_consistent(v.gt, v.cursor_b.0, v.cursor_b.1),
        v.gt.len() + 0x2_0000 <= usize::MAX,
        v.arena.len() == ARENA_SLOTS * ARENA_SLOT_SIZE,
        0 <= v.event_idx,
    ensures
        ({
            let run = demand_run(v, Seq::empty(), Seq::empty());
            let (v2, out, handed) = run;
            &&& cursor_consistent(v2.gt, v2.cursor_a.0, v2.cursor_a.1)
            &&& cursor_consistent(v2.gt, v2.cursor_b.0, v2.cursor_b.1)
            &&& out.len() == handed.len()
            &&& forall|k: int|
                0 <= k < out.len() ==> {
                    &&& v.event_idx <= #[trigger] handed[k] < v2.event_idx
                    &&& (k > 0 ==> handed[k - 1] < handed[k])
                    &&& out[k].offset == k * 1500
                    &&& out[k].feed == v.events[handed[k]].feed
                    &&& rendered(v.gt, v.events[handed[k]], None, v.session) == Some(
                        v2.arena.subrange(k * 1500, k * 1500 + out[k].len),
                    )
                }
            &&& forall|j: int|
                v.event_idx <= j < v2.event_idx && !handed.contains(j) ==> #[trigger] rendered(
                    v.gt,
                    v.events[j],
                    None,
                    v.session,
                ) is None
        }),
{
    lemma_demand_run_ok(v, Seq::empty(), Seq::empty(), v.event_idx);
}

} // verus!
