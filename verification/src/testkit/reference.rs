//! Reference arbitrator: a deliberately simple oracle that parses MoldUDP64 frames by
//! hand, keeps the first payload received for each sequence number per session, and
//! emits each session's contiguous run from its anchor.

use std::collections::BTreeMap;
use vstd::prelude::*;
use crate::protocol::bytes::{be_u16, be_u64, read_be_u16, read_be_u64};
use crate::testkit::golden::{fnv_bytes, FNV_OFFSET};
use crate::protocol::bytes::u16_to_le;
use crate::testkit::sink::fold_msg_hash;

verus! {

broadcast use vstd::std_specs::btree::group_btree_axioms, vstd::laws_cmp::group_laws_cmp;

pub const HEARTBEAT_COUNT: u16 = 0x0000;
pub const EOS_COUNT: u16 = 0xFFFF;
pub const HEADER_LEN: usize = 20;

/// The payloads of a message map, by sequence number.
pub open spec fn msgs_view(m: Map<u64, Vec<u8>>) -> Map<u64, Seq<u8>> {
    Map::new(|k: u64| m.contains_key(k), |k: u64| m[k]@)
}

/// The abstract state of one session of the reference arbitrator.
pub struct RefSessionView {
    pub session_id: Seq<u8>,
    pub anchor: Option<u64>,
    pub messages: Map<u64, Seq<u8>>,
    pub eos_seen: bool,
}

#[derive(Debug, Clone, PartialEq, Eq)]
pub struct RefSession {
    pub session_id: [u8; 10],
    pub anchor: Option<u64>,
    pub messages: BTreeMap<u64, Vec<u8>>,
    pub eos_seen: bool,
}

impl View for RefSession {
    type V = RefSessionView;

    open spec fn view(&self) -> RefSessionView {
        RefSessionView {
            session_id: self.session_id@,
            anchor: self.anchor,
            messages: msgs_view(self.messages@),
            eos_seen: self.eos_seen,
        }
    }
}

impl RefSession {
    /// An empty session: no anchor, no messages, no end of session seen.
    pub fn new(session_id: [u8; 10]) -> (s: Self)
        ensures
            s@ == (RefSessionView {
                session_id: session_id@,
                anchor: None,
                messages: Map::empty(),
                eos_seen: false,
            }),
    {
        let s = RefSession { session_id, anchor: None, messages: BTreeMap::new(), eos_seen: false };
        assert(msgs_view(s.messages@) =~= Map::empty());
        s
    }
}

/// The `(sequence number, payload)` pairs of the message blocks of a data frame from
/// byte `pos` on, numbered from `seq` (saturating at `u64::MAX`); at most `n` blocks, and
/// the walk stops at the first block that does not fit the frame.
pub open spec fn ref_blocks(frame: Seq<u8>, pos: int, seq: u64, n: nat) -> Seq<(u64, Seq<u8>)>
    decreases n,
{
    if n == 0 || pos < 0 || pos + 2 > frame.len() {
        Seq::empty()
    } else {
        let len = be_u16(frame[pos], frame[pos + 1]);
        if pos + 2 + len > frame.len() {
            Seq::empty()
        } else {
            let next = if seq == u64::MAX {
                seq
            } else {
                (seq + 1) as u64
            };
            seq![(seq, frame.subrange(pos + 2, pos + 2 + len))] + ref_blocks(frame, pos + 2 + len, next, (n - 1) as nat)
        }
    }
}

/// `m` after recording `items` in order, the first payload for a sequence number winning.
pub open spec fn record_first(m: Map<u64, Seq<u8>>, items: Seq<(u64, Seq<u8>)>) -> Map<u64, Seq<u8>>
    decreases items.len(),
{
    if items.len() == 0 {
        m
    } else {
        let m1 = record_first(m, items.drop_last());
        if m1.contains_key(items.last().0) {
            m1
        } else {
            m1.insert(items.last().0, items.last().1)
        }
    }
}

/// Session `s` after a frame with sequence number `seq`, message count `count`: an end of
/// session marks it, a heartbeat leaves it, a data frame anchors it at its first block (if
/// it has none yet) and records its blocks.
pub open spec fn ref_apply(s: RefSessionView, frame: Seq<u8>, seq: u64, count: u16) -> RefSessionView {
    if count == EOS_COUNT {
        RefSessionView { eos_seen: true, ..s }
    } else if count == HEARTBEAT_COUNT {
        s
    } else {
        let items = ref_blocks(frame, HEADER_LEN as int, seq, count as nat);
        RefSessionView {
            anchor: if s.anchor is None && items.len() > 0 {
                Some(items[0].0)
            } else {
                s.anchor
            },
            messages: record_first(s.messages, items),
            ..s
        }
    }
}

/// The sessions and current session after ingesting `frame`: a frame shorter than a
/// header is ignored; one whose session id differs from the current (last) session's
/// opens a new session.
pub open spec fn ref_ingest(sessions: Seq<RefSessionView>, cur: Option<usize>, frame: Seq<u8>) -> (
    Seq<RefSessionView>,
    Option<usize>,
) {
    if frame.len() < HEADER_LEN {
        (sessions, cur)
    } else {
        let sid = frame.subrange(0, 10);
        let seq = be_u64(frame.subrange(10, 18));
        let count = be_u16(frame[18], frame[19]);
        let reuse = cur matches Some(i) && i + 1 == sessions.len() && sessions[i as int].session_id == sid;
        let base = if reuse {
            sessions.drop_last()
        } else {
            sessions
        };
        let s = if reuse {
            sessions.last()
        } else {
            RefSessionView { session_id: sid, anchor: None, messages: Map::empty(), eos_seen: false }
        };
        (base.push(ref_apply(s, frame, seq, count)), Some(base.len() as usize))
    }
}

/// The abstract state of the reference arbitrator.
pub struct RefView {
    pub sessions: Seq<RefSessionView>,
    pub current: Option<usize>,
}

/// Independent reference arbitrator.
#[derive(Debug, Clone)]
pub struct ReferenceArbitrator {
    pub sessions: Vec<RefSession>,
    pub current_session_idx: Option<usize>,
}

impl View for ReferenceArbitrator {
    type V = RefView;

    open spec fn view(&self) -> RefView {
        RefView { sessions: self.sessions@.map_values(|s: RefSession| s@), current: self.current_session_idx }
    }
}

impl Default for ReferenceArbitrator {
    fn default() -> (r: Self)
        ensures
            r@.sessions.len() == 0,
            r@.current is None,
    {
        Self::new()
    }
}

/// A copy of `s`.
fn copy_bytes(s: &[u8]) -> (r: Vec<u8>)
    ensures
        r@ == s@,
{
    let mut v: Vec<u8> = Vec::new();
    let mut i: usize = 0;
    while i < s.len()
        invariant
            i <= s@.len(),
            v@ == s@.take(i as int),
        decreases s.len() - i,
    {
        v.push(s[i]);
        i = i + 1;
        assert(v@ =~= s@.take(i as int));
    }
    assert(s@.take(i as int) =~= s@);
    v
}

/// Whether two session ids are equal.
fn same_id(a: &[u8; 10], b: &[u8; 10]) -> (r: bool)
    ensures
        r == (a@ == b@),
{
    let mut i: usize = 0;
    while i < 10
        invariant
            i <= 10,
            forall|j: int| 0 <= j < i ==> a@[j] == b@[j],
        decreases 10 - i,
    {
        if a[i] != b[i] {
            return false;
        }
        i = i + 1;
    }
    assert(a@ =~= b@);
    true
}

/// Records the message blocks of a data frame into `session` (see [`ref_apply`]).
fn record_blocks(session: &mut RefSession, frame: &[u8], seq: u64, count: u16)
    requires
        frame@.len() >= HEADER_LEN,
        count != EOS_COUNT,
        count != HEARTBEAT_COUNT,
    ensures
        final(session)@ == ref_apply(old(session)@, frame@, seq, count),
{
    let ghost items = ref_blocks(frame@, HEADER_LEN as int, seq, count as nat);
    let ghost s0 = session@;
    let mut pos: usize = HEADER_LEN;
    let mut cur_seq = seq;
    let mut i: u16 = 0;
    let mut stop = false;
    let ghost mut done: Seq<(u64, Seq<u8>)> = Seq::empty();
    while i < count && !stop
        invariant
            i <= count,
            HEADER_LEN <= pos <= frame@.len(),
            items == ref_blocks(frame@, HEADER_LEN as int, seq, count as nat),
            stop ==> items == done,
            !stop ==> items == done + ref_blocks(frame@, pos as int, cur_seq, (count - i) as nat),
            i == count ==> items == done,
            session@.session_id == s0.session_id,
            session@.eos_seen == s0.eos_seen,
            session@.messages == record_first(s0.messages, done),
            session@.anchor == (if s0.anchor is None && done.len() > 0 {
                Some(done[0].0)
            } else {
                s0.anchor
            }),
        decreases count - i,
    {
        let ghost rest = ref_blocks(frame@, pos as int, cur_seq, (count - i) as nat);
        if frame.len() - pos < 2 {
            stop = true;
            assert(rest =~= Seq::<(u64, Seq<u8>)>::empty());
            assert(items =~= done);
        } else {
            let len = read_be_u16(frame, pos) as usize;
            if frame.len() - pos - 2 < len {
                stop = true;
                assert(rest =~= Seq::<(u64, Seq<u8>)>::empty());
                assert(items =~= done);
            } else {
                let start = pos + 2;
                let payload = vstd::slice::slice_subrange(frame, start, start + len);
                pos = start + len;
                let ghost item = (cur_seq, payload@);
                let next = cur_seq.saturating_add(1);
                proof {
                    assert(rest == seq![item] + ref_blocks(frame@, pos as int, next, (count - i - 1) as nat));
                    assert(done.push(item) + ref_blocks(frame@, pos as int, next, (count - i - 1) as nat)
                        =~= done + rest);
                    assert(done.push(item).drop_last() =~= done);
                }
                if session.anchor.is_none() {
                    session.anchor = Some(cur_seq);
                }
                if !session.messages.contains_key(&cur_seq) {
                    let copy = copy_bytes(payload);
                    let ghost before = session.messages@;
                    session.messages.insert(cur_seq, copy);
                    proof {
                        assert(msgs_view(session.messages@) =~= msgs_view(before).insert(cur_seq, payload@));
                    }
                }
                proof {
                    done = done.push(item);
                    if done.len() > 1 {
                        assert(done[0] == done.drop_last()[0]);
                    }
                }
                cur_seq = next;
            }
        }
        i = i + 1;
        proof {
            if !stop && i == count {
                assert(ref_blocks(frame@, pos as int, cur_seq, 0) =~= Seq::<(u64, Seq<u8>)>::empty());
                assert(items =~= done);
            }
        }
    }
    proof {
        if !stop {
            assert(i == count);
        }
    }
}

impl ReferenceArbitrator {
    /// An arbitrator with no session.
    pub fn new() -> (r: Self)
        ensures
            r@.sessions.len() == 0,
            r@.current is None,
    {
        let r = ReferenceArbitrator { sessions: Vec::new(), current_session_idx: None };
        assert(r@.sessions =~= Seq::<RefSessionView>::empty());
        r
    }

    /// Parses a MoldUDP64 frame by hand and records its messages (see [`ref_ingest`]).
    pub fn ingest_packet(&mut self, frame: &[u8])
        ensures
            final(self)@ == (RefView {
                sessions: ref_ingest(old(self)@.sessions, old(self)@.current, frame@).0,
                current: ref_ingest(old(self)@.sessions, old(self)@.current, frame@).1,
            }),
    {
        if frame.len() < HEADER_LEN {
            return;
        }
        let mut session_id = [0u8; 10];
        let mut k: usize = 0;
        while k < 10
            invariant
                k <= 10,
                frame@.len() >= HEADER_LEN,
                forall|j: int| 0 <= j < k ==> session_id@[j] == frame@[j],
            decreases 10 - k,
        {
            session_id[k] = frame[k];
            k = k + 1;
        }
        assert(session_id@ =~= frame@.subrange(0, 10));
        let seq = read_be_u64(frame, 10);
        let count = read_be_u16(frame, 18);
        let n = self.sessions.len();
        let reuse = match self.current_session_idx {
            Some(idx) => idx < n && idx + 1 == n && same_id(&self.sessions[idx].session_id, &session_id),
            None => false,
        };
        let ghost old_sessions = self@.sessions;
        let mut session = if reuse {
            self.sessions.pop().unwrap()
        } else {
            RefSession::new(session_id)
        };
        if count == EOS_COUNT {
            session.eos_seen = true;
        } else if count != HEARTBEAT_COUNT {
            record_blocks(&mut session, frame, seq, count);
        }
        self.sessions.push(session);
        self.current_session_idx = Some(self.sessions.len() - 1);
        proof {
            let base = if reuse {
                old_sessions.drop_last()
            } else {
                old_sessions
            };
            assert(self@.sessions =~= base.push(session@));
        }
    }
}

/// The contiguous run of messages of `m` from sequence number `cur` on.
pub open spec fn run_items(m: Map<u64, Seq<u8>>, cur: int) -> Seq<(u64, Seq<u8>)>
    decreases 0x1_0000_0000_0000_0000 - cur,
{
    if cur < 0 || cur > u64::MAX || !m.contains_key(cur as u64) {
        Seq::empty()
    } else {
        seq![(cur as u64, m[cur as u64])] + run_items(m, cur + 1)
    }
}

/// The hash of `h` with the payloads of `items` folded in, in order.
pub open spec fn hash_items(h: u64, items: Seq<(u64, Seq<u8>)>) -> u64
    decreases items.len(),
{
    if items.len() == 0 {
        h
    } else {
        fold_msg_hash(hash_items(h, items.drop_last()), items.last().1)
    }
}

/// Where a session's run starts: its anchor, or 1 without one.
pub open spec fn anchor_or_one(s: RefSessionView) -> u64 {
    match s.anchor {
        Some(a) => a,
        None => 1,
    }
}

/// The run of a session cannot step past `u64::MAX`.
pub open spec fn run_fits(s: RefSessionView) -> bool {
    anchor_or_one(s) + run_items(s.messages, anchor_or_one(s) as int).len() <= u64::MAX
}

/// Evaluating sessions `0..i`: the last anchor and watermark (1 and 1 for none), the
/// running hash, and the messages emitted.
pub open spec fn eval_upto(sessions: Seq<RefSessionView>, i: int) -> (u64, int, u64, Seq<(u64, Seq<u8>)>)
    decreases i,
{
    if i <= 0 {
        (1, 1, FNV_OFFSET, Seq::empty())
    } else {
        let prev = eval_upto(sessions, i - 1);
        let s = sessions[i - 1];
        let a = anchor_or_one(s);
        let items = run_items(s.messages, a as int);
        (a, a + items.len(), hash_items(prev.2, items), prev.3 + items)
    }
}

/// The emitted messages as plain values.
pub open spec fn emitted_view(v: Seq<(u64, Vec<u8>)>) -> Seq<(u64, Seq<u8>)> {
    v.map_values(|p: (u64, Vec<u8>)| (p.0, p.1@))
}

/// Folds a payload into the running hash.
fn fold_payload(h: u64, data: &[u8]) -> (r: u64)
    ensures
        r == fold_msg_hash(h, data@),
{
    let h1 = fnv_bytes(h, &u16_to_le(data.len() as u16));
    fnv_bytes(h1, data)
}

/// The run of `m` from `cur` on is the message at `cur` followed by the run from the
/// next number.
proof fn lemma_run_step(m: Map<u64, Seq<u8>>, cur: u64)
    requires
        m.contains_key(cur),
    ensures
        run_items(m, cur as int).len() == 1 + run_items(m, cur + 1).len(),
{
    assert(run_items(m, cur as int) == seq![(cur, m[cur])] + run_items(m, cur + 1));
}

/// Whether the run of `session` from its anchor stays below `u64::MAX`.
fn session_run_fits(session: &RefSession) -> (r: bool)
    ensures
        r == run_fits(session@),
{
    let anchor = match session.anchor {
        Some(a) => a,
        None => 1,
    };
    let ghost m = session@.messages;
    let mut cur = anchor;
    loop
        invariant
            m == session@.messages,
            anchor <= cur,
            anchor == anchor_or_one(session@),
            run_items(m, anchor as int).len() == (cur - anchor) + run_items(m, cur as int).len(),
        decreases u64::MAX - cur,
    {
        match session.messages.get(&cur) {
            None => {
                assert(!m.contains_key(cur));
                return true;
            },
            Some(_) => {
                assert(m.contains_key(cur));
                proof {
                    lemma_run_step(m, cur);
                }
                if cur == u64::MAX {
                    assert(run_items(m, cur + 1) =~= Seq::<(u64, Seq<u8>)>::empty());
                    return false;
                }
                cur = cur + 1;
            },
        }
    }
}

/// Emits the contiguous run of `session` from its anchor onto `emitted`, folding each
/// payload into `hash`; returns the anchor and the watermark.
fn emit_run(session: &RefSession, hash: &mut u64, emitted: &mut Vec<(u64, Vec<u8>)>) -> (r: (u64, u64))
    requires
        run_fits(session@),
    ensures
        ({
            let a = anchor_or_one(session@);
            let items = run_items(session@.messages, a as int);
            &&& r.0 == a
            &&& r.1 == a + items.len()
            &&& *final(hash) == hash_items(*old(hash), items)
            &&& emitted_view(final(emitted)@) == emitted_view(old(emitted)@) + items
        }),
{
    let anchor = match session.anchor {
        Some(a) => a,
        None => 1,
    };
    let ghost m = session@.messages;
    let ghost all = run_items(m, anchor as int);
    let ghost e0 = emitted_view(emitted@);
    let ghost h0 = *hash;
    let mut cur = anchor;
    let ghost mut done: Seq<(u64, Seq<u8>)> = Seq::empty();
    let mut next = session.messages.get(&cur);
    while next.is_some()
        invariant
            m == session@.messages,
            all == run_items(m, anchor as int),
            anchor + all.len() <= u64::MAX,
            all == done + run_items(m, cur as int),
            cur == anchor + done.len(),
            *hash == hash_items(h0, done),
            emitted_view(emitted@) == e0 + done,
            match next {
                Some(d) => m.contains_key(cur) && m[cur] == d@,
                None => !m.contains_key(cur),
            },
        decreases u64::MAX - cur,
    {
        let data = next.unwrap();
        let ghost item = (cur, data@);
        proof {
            assert(run_items(m, cur as int) == seq![item] + run_items(m, cur + 1));
            assert(done.push(item) + run_items(m, cur + 1) =~= done + run_items(m, cur as int));
            assert(done.push(item).drop_last() =~= done);
        }
        let copy = copy_bytes(data.as_slice());
        let ghost ev0 = emitted@;
        emitted.push((cur, copy));
        *hash = fold_payload(*hash, data.as_slice());
        proof {
            assert(emitted_view(emitted@) =~= emitted_view(ev0).push(item));
            done = done.push(item);
        }
        cur = cur + 1;
        next = session.messages.get(&cur);
    }
    proof {
        assert(run_items(m, cur as int) =~= Seq::<(u64, Seq<u8>)>::empty());
        assert(all =~= done);
    }
    (anchor, cur)
}

impl ReferenceArbitrator {
    /// Whether every session's run stays below `u64::MAX`, so that the sessions can be
    /// evaluated.
    pub fn runs_fit(&self) -> (r: bool)
        ensures
            r == forall|k: int| 0 <= k < self@.sessions.len() ==> run_fits(#[trigger] self@.sessions[k]),
    {
        let mut i: usize = 0;
        while i < self.sessions.len()
            invariant
                i <= self@.sessions.len(),
                forall|k: int| 0 <= k < i ==> run_fits(#[trigger] self@.sessions[k]),
            decreases self.sessions.len() - i,
        {
            assert(self@.sessions[i as int] == self.sessions@[i as int]@);
            if !session_run_fits(&self.sessions[i]) {
                return false;
            }
            i = i + 1;
        }
        true
    }

    /// Emits each session's contiguous run from its anchor, in session order; returns the
    /// last session's anchor and watermark (1 and 1 without sessions), the hash of every
    /// payload emitted, and the messages emitted.
    pub fn evaluate_all_sessions(&self) -> (r: (u64, u64, u64, Vec<(u64, Vec<u8>)>))
        requires
            forall|k: int| 0 <= k < self@.sessions.len() ==> run_fits(#[trigger] self@.sessions[k]),
        ensures
            ({
                let e = eval_upto(self@.sessions, self@.sessions.len() as int);
                &&& r.0 == e.0
                &&& r.1 == e.1
                &&& r.2 == e.2
                &&& emitted_view(r.3@) == e.3
            }),
    {
        let mut hash = FNV_OFFSET;
        let mut emitted: Vec<(u64, Vec<u8>)> = Vec::new();
        let mut final_anchor: u64 = 1;
        let mut final_wm: u64 = 1;
        let mut i: usize = 0;
        assert(emitted_view(emitted@) =~= Seq::<(u64, Seq<u8>)>::empty());
        while i < self.sessions.len()
            invariant
                i <= self@.sessions.len(),
                forall|k: int| 0 <= k < self@.sessions.len() ==> run_fits(#[trigger] self@.sessions[k]),
                ({
                    let e = eval_upto(self@.sessions, i as int);
                    &&& final_anchor == e.0
                    &&& final_wm == e.1
                    &&& hash == e.2
                    &&& emitted_view(emitted@) == e.3
                }),
            decreases self.sessions.len() - i,
        {
            let session = &self.sessions[i];
            assert(self@.sessions[i as int] == session@);
            let (a, wm) = emit_run(session, &mut hash, &mut emitted);
            final_anchor = a;
            final_wm = wm;
            i = i + 1;
        }
        (final_anchor, final_wm, hash, emitted)
    }

    /// Emits the contiguous run of the latest session from its anchor; returns its anchor,
    /// watermark, hash and messages (1, 1, the FNV offset and none without sessions).
    pub fn evaluate_latest_session(&self) -> (r: (u64, u64, u64, Vec<(u64, Vec<u8>)>))
        requires
            self@.sessions.len() > 0 ==> run_fits(self@.sessions.last()),
        ensures
            self@.sessions.len() == 0 ==> r.0 == 1 && r.1 == 1 && r.2 == FNV_OFFSET && r.3@.len() == 0,
            self@.sessions.len() > 0 ==> ({
                let s = self@.sessions.last();
                let a = anchor_or_one(s);
                let items = run_items(s.messages, a as int);
                &&& r.0 == a
                &&& r.1 == a + items.len()
                &&& r.2 == hash_items(FNV_OFFSET, items)
                &&& emitted_view(r.3@) == items
            }),
    {
        let n = self.sessions.len();
        if n == 0 {
            return (1, 1, FNV_OFFSET, Vec::new());
        }
        let session = &self.sessions[n - 1];
        assert(self@.sessions.last() == session@);
        let mut hash = FNV_OFFSET;
        let mut emitted: Vec<(u64, Vec<u8>)> = Vec::new();
        assert(emitted_view(emitted@) =~= Seq::<(u64, Seq<u8>)>::empty());
        let (a, wm) = emit_run(session, &mut hash, &mut emitted);
        proof {
            let items = run_items(session@.messages, a as int);
            assert(Seq::<(u64, Seq<u8>)>::empty() + items =~= items);
        }
        (a, wm, hash, emitted)
    }
}

} // verus!
