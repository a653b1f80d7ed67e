//! Schedule event types: what a replay transport renders, on which feed, and when.

use vstd::prelude::*;
use vstd::relations::{sorted_by, total_ordering};
use crate::transport::FeedId;

verus! {

#[derive(Debug, Clone, Copy, PartialEq, Eq, Structural)]
pub enum SchedKind {
    /// A data frame: header `(first_seq, count)` and `count` message blocks starting at
    /// ground-truth message index `first_msg`.
    Packet { first_seq: u64, first_msg: u64, count: u16 },
    /// A heartbeat announcing the next expected sequence number.
    Heartbeat { next_seq: u64 },
    /// An end of session announcing the final next expected sequence number.
    EndOfSession { next_seq: u64 },
}

#[derive(Debug, Clone, Copy, PartialEq, Eq, Structural)]
pub struct SchedEvent {
    /// Release time on the virtual clock, in nanoseconds.
    pub release_vt: u64,
    /// 0 = feed A, 1 = feed B.
    pub feed: FeedId,
    pub kind: SchedKind,
}

/// Rank of an event kind in the schedule order: packets, then heartbeats, then end of
/// session.
pub open spec fn kind_rank_of(k: SchedKind) -> u8 {
    match k {
        SchedKind::Packet { .. } => 0,
        SchedKind::Heartbeat { .. } => 1,
        SchedKind::EndOfSession { .. } => 2,
    }
}

/// The sequence number an event carries.
pub open spec fn tiebreak_of(k: SchedKind) -> u64 {
    match k {
        SchedKind::Packet { first_seq, .. } => first_seq,
        SchedKind::Heartbeat { next_seq } => next_seq,
        SchedKind::EndOfSession { next_seq } => next_seq,
    }
}

/// The schedule order: release time, then feed, then kind rank, then sequence number.
pub open spec fn sched_before(a: SchedEvent, b: SchedEvent) -> bool {
    ||| a.release_vt < b.release_vt
    ||| (a.release_vt == b.release_vt && a.feed < b.feed)
    ||| (a.release_vt == b.release_vt && a.feed == b.feed && kind_rank_of(a.kind) < kind_rank_of(b.kind))
    ||| (a.release_vt == b.release_vt && a.feed == b.feed && kind_rank_of(a.kind) == kind_rank_of(b.kind)
        && tiebreak_of(a.kind) < tiebreak_of(b.kind))
}


/// The ground-truth message index a packet starts at (0 for other kinds).
pub open spec fn packet_msg_of(k: SchedKind) -> u64 {
    match k {
        SchedKind::Packet { first_msg, .. } => first_msg,
        _ => 0,
    }
}

/// The message count of a packet (0 for other kinds).
pub open spec fn packet_count_of(k: SchedKind) -> u16 {
    match k {
        SchedKind::Packet { count, .. } => count,
        _ => 0,
    }
}

/// Events that agree on release time, feed, kind rank and sequence number.
pub open spec fn same_key(a: SchedEvent, b: SchedEvent) -> bool {
    &&& a.release_vt == b.release_vt
    &&& a.feed == b.feed
    &&& kind_rank_of(a.kind) == kind_rank_of(b.kind)
    &&& tiebreak_of(a.kind) == tiebreak_of(b.kind)
}

/// The total order a schedule is sorted by: the schedule order, and among events that it
/// does not tell apart, packets by first message and then by count.
pub open spec fn sched_le(a: SchedEvent, b: SchedEvent) -> bool {
    ||| sched_before(a, b)
    ||| (same_key(a, b) && packet_msg_of(a.kind) < packet_msg_of(b.kind))
    ||| (same_key(a, b) && packet_msg_of(a.kind) == packet_msg_of(b.kind) && packet_count_of(a.kind)
        <= packet_count_of(b.kind))
}

/// [`sched_le`] as a relation.
pub open spec fn sched_order() -> spec_fn(SchedEvent, SchedEvent) -> bool {
    |a: SchedEvent, b: SchedEvent| sched_le(a, b)
}

/// The schedule order on events is a total order.
pub proof fn lemma_sched_order_total()
    ensures
        total_ordering(sched_order()),
{
    let r = sched_order();
    assert forall|x: SchedEvent, y: SchedEvent| #[trigger] r(x, y) && #[trigger] r(y, x) implies x == y by {
        assert(same_key(x, y));
        match x.kind {
            SchedKind::Packet { .. } => {},
            SchedKind::Heartbeat { .. } => {},
            SchedKind::EndOfSession { .. } => {},
        }
    }
    assert forall|x: SchedEvent, y: SchedEvent, z: SchedEvent| #[trigger] r(x, y) && #[trigger] r(y, z) implies r(x, z) by {}
    assert forall|x: SchedEvent, y: SchedEvent| #[trigger] r(x, y) || #[trigger] r(y, x) by {}
    assert forall|x: SchedEvent| #[trigger] r(x, x) by {}
}

/// Whether `a` comes no later than `b` in the order schedules are sorted by.
fn sched_le_exec(a: &SchedEvent, b: &SchedEvent) -> (r: bool)
    ensures
        r == sched_le(*a, *b),
{
    if a.precedes(b) {
        return true;
    }
    if b.precedes(a) {
        return false;
    }
    let (ma, ca) = match a.kind {
        SchedKind::Packet { first_msg, count, .. } => (first_msg, count),
        _ => (0u64, 0u16),
    };
    let (mb, cb) = match b.kind {
        SchedKind::Packet { first_msg, count, .. } => (first_msg, count),
        _ => (0u64, 0u16),
    };
    ma < mb || (ma == mb && ca <= cb)
}

/// Merges two sorted runs into one.
fn merge_runs(a: Vec<SchedEvent>, b: Vec<SchedEvent>) -> (r: Vec<SchedEvent>)
    requires
        sorted_by(a@, sched_order()),
        sorted_by(b@, sched_order()),
    ensures
        sorted_by(r@, sched_order()),
        r@.to_multiset() == a@.to_multiset().add(b@.to_multiset()),
{
    broadcast use vstd::seq_lib::group_to_multiset_ensures;
    broadcast use vstd::multiset::group_multiset_axioms;
    proof {
        lemma_sched_order_total();
    }
    let ghost ord = sched_order();
    let mut out: Vec<SchedEvent> = Vec::new();
    let mut i: usize = 0;
    let mut j: usize = 0;
    while i < a.len() || j < b.len()
        invariant
            ord == sched_order(),
            total_ordering(ord),
            sorted_by(a@, ord),
            sorted_by(b@, ord),
            i <= a.len(),
            j <= b.len(),
            out@.len() == i + j,
            sorted_by(out@, ord),
            out@.to_multiset() == a@.take(i as int).to_multiset().add(b@.take(j as int).to_multiset()),
            out@.len() > 0 && i < a.len() ==> ord(out@.last(), a@[i as int]),
            out@.len() > 0 && j < b.len() ==> ord(out@.last(), b@[j as int]),
        decreases a.len() + b.len() - i - j,
    {
        let take_a = j >= b.len() || (i < a.len() && sched_le_exec(&a[i], &b[j]));
        let e = if take_a {
            a[i]
        } else {
            b[j]
        };
        proof {
            assert(ord(e, e));
            assert forall|p: int, q: int| 0 <= p < q < out@.len() + 1 implies #[trigger] ord(
                out@.push(e)[p],
                out@.push(e)[q],
            ) by {
                if q == out@.len() {
                    if p < out@.len() - 1 {
                        assert(ord(out@[p], out@.last()));
                    }
                }
            }
        }
        let ghost before = out@;
        out.push(e);
        if take_a {
            proof {
                assert(a@.take(i + 1) =~= a@.take(i as int).push(a@[i as int]));
                assert(out@ == before.push(e));
                vstd::seq_lib::to_multiset_build(before, e);
                assert(out@.to_multiset() == before.to_multiset().insert(e));
                vstd::seq_lib::to_multiset_build(a@.take(i as int), e);
                assert(a@.take(i + 1).to_multiset() == a@.take(i as int).to_multiset().insert(e));
                assert(out@.to_multiset() =~= a@.take(i + 1).to_multiset().add(b@.take(j as int).to_multiset()));
                if i + 1 < a.len() {
                    assert(ord(a@[i as int], a@[i + 1]));
                }
                if j < b.len() {
                    assert(ord(a@[i as int], b@[j as int]));
                }
            }
            i = i + 1;
        } else {
            proof {
                assert(b@.take(j + 1) =~= b@.take(j as int).push(b@[j as int]));
                assert(out@ == before.push(e));
                vstd::seq_lib::to_multiset_build(before, e);
                assert(out@.to_multiset() == before.to_multiset().insert(e));
                vstd::seq_lib::to_multiset_build(b@.take(j as int), e);
                assert(b@.take(j + 1).to_multiset() == b@.take(j as int).to_multiset().insert(e));
                assert(out@.to_multiset() =~= a@.take(i as int).to_multiset().add(b@.take(j + 1).to_multiset()));
                if j + 1 < b.len() {
                    assert(ord(b@[j as int], b@[j + 1]));
                }
                if i < a.len() {
                    assert(ord(b@[j as int], a@[i as int]) || ord(a@[i as int], b@[j as int]));
                }
            }
            j = j + 1;
        }
    }
    proof {
        assert(a@.take(a@.len() as int) =~= a@);
        assert(b@.take(b@.len() as int) =~= b@);
    }
    out
}

/// Sorts `v` into the schedule order.
pub fn sort_events(v: Vec<SchedEvent>) -> (r: Vec<SchedEvent>)
    ensures
        r@ == v@.sort_by(sched_order()),
    decreases v@.len(),
{
    proof {
        lemma_sched_order_total();
        v@.lemma_sort_by_ensures(sched_order());
    }
    if v.len() <= 1 {
        proof {
            assert(sorted_by(v@, sched_order()));
            vstd::seq_lib::lemma_sorted_unique(v@, v@.sort_by(sched_order()), sched_order());
        }
        return v;
    }
    let mut left = v;
    let mid = left.len() / 2;
    let right = left.split_off(mid);
    let ghost l0 = left@;
    let ghost r0 = right@;
    let sl = sort_events(left);
    let sr = sort_events(right);
    proof {
        l0.lemma_sort_by_ensures(sched_order());
        r0.lemma_sort_by_ensures(sched_order());
    }
    let out = merge_runs(sl, sr);
    proof {
        assert(v@ =~= l0 + r0);
        vstd::seq_lib::lemma_multiset_commutative(l0, r0);
        vstd::seq_lib::lemma_sorted_unique(out@, v@.sort_by(sched_order()), sched_order());
    }
    out
}

impl SchedEvent {
    pub fn kind_rank(&self) -> (r: u8)
        ensures
            r == kind_rank_of(self.kind),
    {
        match self.kind {
            SchedKind::Packet { .. } => 0,
            SchedKind::Heartbeat { .. } => 1,
            SchedKind::EndOfSession { .. } => 2,
        }
    }

    pub fn tiebreak(&self) -> (r: u64)
        ensures
            r == tiebreak_of(self.kind),
    {
        match self.kind {
            SchedKind::Packet { first_seq, .. } => first_seq,
            SchedKind::Heartbeat { next_seq } => next_seq,
            SchedKind::EndOfSession { next_seq } => next_seq,
        }
    }

    /// Whether this event comes strictly before `other` in the schedule order.
    pub fn precedes(&self, other: &SchedEvent) -> (r: bool)
        ensures
            r == sched_before(*self, *other),
    {
        if self.release_vt != other.release_vt {
            return self.release_vt < other.release_vt;
        }
        if self.feed != other.feed {
            return self.feed < other.feed;
        }
        let ra = self.kind_rank();
        let rb = other.kind_rank();
        if ra != rb {
            return ra < rb;
        }
        self.tiebreak() < other.tiebreak()
    }
}

/// A replay schedule: events in release order, and optionally a session split: from
/// ground-truth message index `m` on (and for every heartbeat and end of session) frames
/// carry the second session id.
#[derive(Debug, Clone)]
pub struct ReplaySchedule {
    pub events: Vec<SchedEvent>,
    pub session_split: Option<(u64, [u8; 10])>,
}

impl Default for ReplaySchedule {
    fn default() -> (s: Self)
        ensures
            s.events@.len() == 0,
            s.session_split is None,
    {
        ReplaySchedule { events: Vec::new(), session_split: None }
    }
}

} // verus!
