//! Rendering of schedule events into MoldUDP64 frames from a ground-truth message
//! block stream (`[u16 BE len][msg]...`), and the replay transport that renders every
//! frame once at construction and hands them out under a virtual clock.

use vstd::prelude::*;
use crate::protocol::bytes::{be_u16, read_be_u16, write_be_u16, write_be_u64};
use crate::protocol::moldudp64::{header_bytes, EOS_COUNT, HEADER_LEN, HEARTBEAT_COUNT};
use crate::transport::sched_types::{ReplaySchedule, SchedEvent, SchedKind};
use crate::transport::{FeedId, FrameBatch, FrameView, Transport};
use crate::transport::render_law::{frame_holds, frames_apart, lemma_describes_holds, renders_truly};

verus! {

pub const ARENA_SLOT_SIZE: usize = 1500;
pub const ARENA_SLOTS: usize = 256;

/// The offset reached by walking `steps` length-prefixed blocks from `off`, or `None`
/// if a length prefix cannot be read on the way. The offset may end past the stream.
pub open spec fn walk_blocks(gt: Seq<u8>, off: int, steps: nat) -> Option<int>
    decreases steps,
{
    if steps == 0 {
        Some(off)
    } else if off < 0 || off + 2 > gt.len() {
        None
    } else {
        walk_blocks(gt, off + 2 + be_u16(gt[off], gt[off + 1]), (steps - 1) as nat)
    }
}

/// Walking `a` then `b` blocks is walking `a + b` blocks.
pub proof fn lemma_walk_compose(gt: Seq<u8>, off: int, a: nat, b: nat)
    ensures
        walk_blocks(gt, off, a + b) == match walk_blocks(gt, off, a) {
            Some(o) => walk_blocks(gt, o, b),
            None => None,
        },
    decreases a,
{
    if a > 0 && off >= 0 && off + 2 <= gt.len() {
        lemma_walk_compose(gt, off + 2 + be_u16(gt[off], gt[off + 1]), (a - 1) as nat, b);
        assert((a + b - 1) as nat == (a - 1) as nat + b);
    }
}

/// Each block takes at least two bytes, and the walk never goes back.
pub proof fn lemma_walk_grows(gt: Seq<u8>, off: int, steps: nat)
    requires
        off >= 0,
    ensures
        walk_blocks(gt, off, steps) matches Some(o) ==> o >= off + 2 * steps && (steps > 0 ==> o
            <= gt.len() + 65535),
    decreases steps,
{
    if steps > 0 && off + 2 <= gt.len() {
        lemma_walk_grows(gt, off + 2 + be_u16(gt[off], gt[off + 1]), (steps - 1) as nat);
    }
}

/// The cursor state after seeking from `(off, idx)` to message `target` when the cursor
/// is not behind it: the offset found (if it lies within the stream), and where the
/// cursor stops.
pub open spec fn seek_walk(gt: Seq<u8>, off: int, idx: int, target: int) -> (Option<int>, int, int)
    decreases target - idx,
{
    if idx >= target {
        (if 0 <= off <= gt.len() { Some(off) } else { None }, off, idx)
    } else if off < 0 || off + 2 > gt.len() {
        (None, off, idx)
    } else {
        seek_walk(gt, off + 2 + be_u16(gt[off], gt[off + 1]), idx + 1, target)
    }
}

/// A seek finds only offsets within the stream.
pub proof fn lemma_seek_walk_bound(gt: Seq<u8>, off: int, idx: int, target: int)
    ensures
        seek_walk(gt, off, idx, target).0 matches Some(o) ==> 0 <= o <= gt.len(),
    decreases target - idx,
{
    if idx < target && off >= 0 && off + 2 <= gt.len() {
        lemma_seek_walk_bound(gt, off + 2 + be_u16(gt[off], gt[off + 1]), idx + 1, target);
    }
}

/// Seeking message `target` from cursor `(off, idx)`: a cursor past the target starts
/// over from the beginning.
pub open spec fn seek_spec(gt: Seq<u8>, off: int, idx: int, target: int) -> (Option<int>, int, int) {
    if idx > target {
        seek_walk(gt, 0, 0, target)
    } else {
        seek_walk(gt, off, idx, target)
    }
}

/// The cursor points at message `idx` of the stream.
pub open spec fn cursor_consistent(gt: Seq<u8>, off: int, idx: int) -> bool {
    idx >= 0 && walk_blocks(gt, 0, idx as nat) == Some(off)
}

/// Seeking from a consistent cursor finds the message wherever the cursor was, and leaves
/// the cursor consistent.
pub proof fn lemma_seek_consistent(gt: Seq<u8>, off: int, idx: int, target: int)
    requires
        cursor_consistent(gt, off, idx),
        target >= 0,
    ensures
        ({
            let (r, o2, i2) = seek_spec(gt, off, idx, target);
            &&& r == (match walk_blocks(gt, 0, target as nat) {
                Some(o) => if o <= gt.len() { Some(o) } else { None },
                None => None,
            })
            &&& cursor_consistent(gt, o2, i2)
        }),
{
    if idx > target {
        lemma_seek_walk_consistent(gt, 0, 0, target);
    } else {
        lemma_seek_walk_consistent(gt, off, idx, target);
    }
}

proof fn lemma_seek_walk_consistent(gt: Seq<u8>, off: int, idx: int, target: int)
    requires
        cursor_consistent(gt, off, idx),
        idx <= target,
    ensures
        ({
            let (r, o2, i2) = seek_walk(gt, off, idx, target);
            &&& r == (match walk_blocks(gt, 0, target as nat) {
                Some(o) => if o <= gt.len() { Some(o) } else { None },
                None => None,
            })
            &&& cursor_consistent(gt, o2, i2)
        }),
    decreases target - idx,
{
    lemma_walk_grows(gt, 0, idx as nat);
    lemma_walk_compose(gt, 0, idx as nat, (target - idx) as nat);
    if idx < target {
        if off + 2 > gt.len() {
            assert(walk_blocks(gt, off, (target - idx) as nat) is None);
        } else {
            let next = off + 2 + be_u16(gt[off], gt[off + 1]);
            lemma_walk_compose(gt, 0, idx as nat, 1);
            assert(off >= 0);
            assert(walk_blocks(gt, next, 0) == Some(next));
            assert(walk_blocks(gt, off, 1) == Some(next));
            assert(cursor_consistent(gt, next, idx + 1));
            lemma_seek_walk_consistent(gt, next, idx + 1, target);
        }
    }
}

#[derive(Debug, Clone, Copy, Default)]
pub struct Cursor {
    pub byte_offset: usize,
    pub msg_index: u64,
}

impl Cursor {
    /// Moves to ground-truth message `target_msg_index` (starting over from the
    /// beginning when the cursor is past it); returns its byte offset, or `None` when the
    /// stream ends before it.
    pub fn seek_msg(&mut self, gt: &[u8], target_msg_index: u64) -> (r: Option<usize>)
        requires
            gt@.len() + 65537 <= usize::MAX,
            old(self).msg_index > target_msg_index || old(self).byte_offset + 2 <= usize::MAX,
        ensures
            ({
                let (o, off2, idx2) = seek_spec(
                    gt@,
                    old(self).byte_offset as int,
                    old(self).msg_index as int,
                    target_msg_index as int,
                );
                &&& r == (match o {
                    Some(x) => Some(x as usize),
                    None => None::<usize>,
                })
                &&& final(self).byte_offset == off2
                &&& final(self).msg_index == idx2
            }),
    {
        if self.msg_index > target_msg_index {
            self.byte_offset = 0;
            self.msg_index = 0;
        }
        while self.msg_index < target_msg_index
            invariant
                gt@.len() + 65537 <= usize::MAX,
                self.msg_index <= target_msg_index,
                self.byte_offset + 2 <= usize::MAX,
                seek_spec(
                    gt@,
                    old(self).byte_offset as int,
                    old(self).msg_index as int,
                    target_msg_index as int,
                ) == seek_walk(
                    gt@,
                    self.byte_offset as int,
                    self.msg_index as int,
                    target_msg_index as int,
                ),
            decreases target_msg_index - self.msg_index,
        {
            if self.byte_offset + 2 > gt.len() {
                return None;
            }
            let len = read_be_u16(gt, self.byte_offset) as usize;
            self.byte_offset = self.byte_offset + 2 + len;
            self.msg_index = self.msg_index + 1;
        }
        if self.byte_offset <= gt.len() {
            Some(self.byte_offset)
        } else {
            None
        }
    }
}

/// The session id the frame of `ev` carries: under a split, heartbeats, ends of session
/// and packets from the split message on carry the second session.
pub open spec fn effective_session(ev: SchedEvent, split: Option<(u64, [u8; 10])>, session: [u8; 10]) -> [u8; 10] {
    match split {
        Some((m, next)) => match ev.kind {
            SchedKind::Packet { first_msg, .. } => if first_msg >= m {
                next
            } else {
                session
            },
            _ => next,
        },
        None => session,
    }
}

/// The header of the frame of `ev` under session id `s`.
pub open spec fn event_header(ev: SchedEvent, s: Seq<u8>) -> Seq<u8> {
    match ev.kind {
        SchedKind::Heartbeat { next_seq } => header_bytes(s, next_seq, HEARTBEAT_COUNT),
        SchedKind::EndOfSession { next_seq } => header_bytes(s, next_seq, EOS_COUNT),
        SchedKind::Packet { first_seq, count, .. } => header_bytes(s, first_seq, count),
    }
}

/// What rendering `ev` into a slot holding `slot` does with cursor `(off, idx)`: the
/// frame length (if it renders), the slot afterwards, and the cursor afterwards. The
/// header is written whenever the slot can hold it; a packet's blocks are copied only
/// when all of them lie within the stream and fit the slot.
pub open spec fn render_outcome(
    gt: Seq<u8>,
    ev: SchedEvent,
    split: Option<(u64, [u8; 10])>,
    session: [u8; 10],
    slot: Seq<u8>,
    off: int,
    idx: int,
) -> (Option<int>, Seq<u8>, int, int) {
    let hdr = event_header(ev, effective_session(ev, split, session)@);
    if slot.len() < HEADER_LEN {
        (None, slot, off, idx)
    } else {
        let with_hdr = hdr + slot.skip(HEADER_LEN as int);
        match ev.kind {
            SchedKind::Packet { first_msg, count, .. } => {
                let (sk, o1, i1) = seek_spec(gt, off, idx, first_msg as int);
                match sk {
                    None => (None, with_hdr, o1, i1),
                    Some(start) => match walk_blocks(gt, start, count as nat) {
                        Some(end) => if HEADER_LEN + end - start <= slot.len() && end <= gt.len() {
                            let total = HEADER_LEN + end - start;
                            (
                                Some(total),
                                hdr + gt.subrange(start, end) + slot.skip(total),
                                end,
                                first_msg + count,
                            )
                        } else {
                            (None, with_hdr, o1, i1)
                        },
                        None => (None, with_hdr, o1, i1),
                    },
                }
            },
            _ => (Some(HEADER_LEN as int), with_hdr, off, idx),
        }
    }
}

/// Writes the session id over the first ten bytes of `slot`.
fn write_session(slot: &mut [u8], s: &[u8; 10])
    requires
        old(slot)@.len() >= 10,
    ensures
        final(slot)@ == s@ + old(slot)@.skip(10),
{
    let mut i: usize = 0;
    while i < 10
        invariant
            i <= 10,
            slot@.len() == old(slot)@.len(),
            slot@.len() >= 10,
            forall|j: int| 0 <= j < i ==> slot@[j] == s@[j],
            forall|j: int| i <= j < slot@.len() ==> slot@[j] == old(slot)@[j],
        decreases 10 - i,
    {
        slot[i] = s[i];
        i = i + 1;
    }
    assert(slot@ =~= s@ + old(slot)@.skip(10));
}

/// Renders the frame of `ev` under session split `split` into `slot`, reading message
/// blocks from `gt` through `cursor`; returns the frame length, or `None` if it cannot be
/// rendered.
#[verifier::loop_isolation(false)]
pub(crate) fn render_with_split(
    gt: &[u8],
    ev: &SchedEvent,
    split: Option<(u64, [u8; 10])>,
    session: [u8; 10],
    slot: &mut [u8],
    cursor: &mut Cursor,
) -> (r: Option<usize>)
    requires
        gt@.len() + 0x2_0000 <= usize::MAX,
        ev.kind matches SchedKind::Packet { first_msg, count, .. } ==> (old(cursor).msg_index
            > first_msg || old(cursor).byte_offset + 2 <= usize::MAX) && (first_msg + count
            <= u64::MAX || cursor_consistent(
            gt@,
            old(cursor).byte_offset as int,
            old(cursor).msg_index as int,
        )),
    ensures
        ({
            let (len, s2, off2, idx2) = render_outcome(
                gt@,
                *ev,
                split,
                session,
                old(slot)@,
                old(cursor).byte_offset as int,
                old(cursor).msg_index as int,
            );
            &&& r == (match len {
                Some(n) => Some(n as usize),
                None => None::<usize>,
            })
            &&& final(slot)@ == s2
            &&& final(cursor).byte_offset == off2
            &&& final(cursor).msg_index == idx2
        }),
{
    let effective = match split {
        Some((split_m, next_sess)) => match ev.kind {
            SchedKind::Packet { first_msg, .. } => if first_msg >= split_m {
                next_sess
            } else {
                session
            },
            _ => next_sess,
        },
        None => session,
    };
    if slot.len() < HEADER_LEN {
        return None;
    }
    let ghost hdr = event_header(*ev, effective@);
    write_session(slot, &effective);
    match ev.kind {
        SchedKind::Heartbeat { next_seq } => {
            write_be_u64(slot, 10, next_seq);
            write_be_u16(slot, 18, HEARTBEAT_COUNT);
            assert(slot@ =~= hdr + old(slot)@.skip(HEADER_LEN as int));
            Some(HEADER_LEN)
        },
        SchedKind::EndOfSession { next_seq } => {
            write_be_u64(slot, 10, next_seq);
            write_be_u16(slot, 18, EOS_COUNT);
            assert(slot@ =~= hdr + old(slot)@.skip(HEADER_LEN as int));
            Some(HEADER_LEN)
        },
        SchedKind::Packet { first_seq, first_msg, count } => {
            write_be_u64(slot, 10, first_seq);
            write_be_u16(slot, 18, count);
            assert(slot@ =~= hdr + old(slot)@.skip(HEADER_LEN as int));
            proof {
                if old(cursor).msg_index > first_msg {
                    lemma_seek_walk_bound(gt@, 0, 0, first_msg as int);
                } else {
                    lemma_seek_walk_bound(
                        gt@,
                        old(cursor).byte_offset as int,
                        old(cursor).msg_index as int,
                        first_msg as int,
                    );
                }
            }
            let start_pos = match cursor.seek_msg(gt, first_msg) {
                Some(p) => p,
                None => {
                    return None;
                },
            };
            let mut cur_pos = start_pos;
            let mut i: u16 = 0;
            let ghost after_seek = *cursor;
            let ghost with_hdr = slot@;
            while i < count
                invariant
                    gt@.len() + 0x2_0000 <= usize::MAX,
                    i <= count,
                    cur_pos <= gt@.len() + 65535,
                    start_pos <= gt@.len(),
                    *cursor == after_seek,
                    slot@ == with_hdr,
                    walk_blocks(gt@, start_pos as int, count as nat) == walk_blocks(
                        gt@,
                        cur_pos as int,
                        (count - i) as nat,
                    ),
                decreases count - i,
            {
                if cur_pos + 2 > gt.len() {
                    return None;
                }
                let len = read_be_u16(gt, cur_pos) as usize;
                cur_pos = cur_pos + 2 + len;
                i = i + 1;
            }
            proof {
                lemma_walk_grows(gt@, start_pos as int, count as nat);
                if cursor_consistent(gt@, old(cursor).byte_offset as int, old(cursor).msg_index as int) {
                    lemma_seek_consistent(
                        gt@,
                        old(cursor).byte_offset as int,
                        old(cursor).msg_index as int,
                        first_msg as int,
                    );
                    lemma_walk_grows(gt@, 0, first_msg as nat);
                }
            }
            let payload_len = cur_pos - start_pos;
            let total_len = HEADER_LEN + payload_len;
            if total_len > slot.len() || cur_pos > gt.len() {
                return None;
            }
            let mut k: usize = 0;
            while k < payload_len
                invariant
                    k <= payload_len,
                    payload_len == cur_pos - start_pos,
                    cur_pos <= gt@.len(),
                    total_len == HEADER_LEN + payload_len,
                    total_len <= slot@.len(),
                    slot@.len() == old(slot)@.len(),
                    slot@.subrange(0, HEADER_LEN as int) == hdr,
                    forall|j: int| HEADER_LEN <= j < HEADER_LEN + k ==> #[trigger] slot@[j] == gt@[start_pos + j - HEADER_LEN],
                    forall|j: int| HEADER_LEN + k <= j < slot@.len() ==> slot@[j] == old(slot)@[j],
                decreases payload_len - k,
            {
                slot[HEADER_LEN + k] = gt[start_pos + k];
                k = k + 1;
            }
            assert(slot@ =~= hdr + gt@.subrange(start_pos as int, cur_pos as int) + old(slot)@.skip(
                total_len as int,
            ));
            cursor.byte_offset = cur_pos;
            cursor.msg_index = first_msg + count as u64;
            Some(total_len)
        },
    }
}

/// Renders the frame of `ev` into `slot`, reading message blocks from `gt` through
/// `cursor`; returns the frame length, or `None` if it cannot be rendered.
pub fn render_event_standalone(
    gt: &[u8],
    ev: &SchedEvent,
    sched: &ReplaySchedule,
    session: [u8; 10],
    slot: &mut [u8],
    cursor: &mut Cursor,
) -> (r: Option<usize>)
    requires
        gt@.len() + 0x2_0000 <= usize::MAX,
        ev.kind matches SchedKind::Packet { first_msg, count, .. } ==> (old(cursor).msg_index
            > first_msg || old(cursor).byte_offset + 2 <= usize::MAX) && (first_msg + count
            <= u64::MAX || cursor_consistent(
            gt@,
            old(cursor).byte_offset as int,
            old(cursor).msg_index as int,
        )),
    ensures
        ({
            let (len, s2, off2, idx2) = render_outcome(
                gt@,
                *ev,
                sched.session_split,
                session,
                old(slot)@,
                old(cursor).byte_offset as int,
                old(cursor).msg_index as int,
            );
            &&& r == (match len {
                Some(n) => Some(n as usize),
                None => None::<usize>,
            })
            &&& final(slot)@ == s2
            &&& final(cursor).byte_offset == off2
            &&& final(cursor).msg_index == idx2
        }),
{
    render_with_split(gt, ev, sched.session_split, session, slot, cursor)
}

/// The frame of `ev` rendered from the stream: its header, and for a packet the blocks
/// of its messages, provided they lie within the stream and the frame fits 1500 bytes.
pub open spec fn rendered(gt: Seq<u8>, ev: SchedEvent, split: Option<(u64, [u8; 10])>, session: [u8; 10]) -> Option<
    Seq<u8>,
> {
    let hdr = event_header(ev, effective_session(ev, split, session)@);
    match ev.kind {
        SchedKind::Packet { first_msg, count, .. } => match walk_blocks(gt, 0, first_msg as nat) {
            Some(start) => if start <= gt.len() {
                match walk_blocks(gt, start, count as nat) {
                    Some(end) => if HEADER_LEN + end - start <= ARENA_SLOT_SIZE && end <= gt.len() {
                        Some(hdr + gt.subrange(start, end))
                    } else {
                        None
                    },
                    None => None,
                }
            } else {
                None
            },
            None => None,
        },
        _ => Some(hdr),
    }
}

/// Rendering into a 1500-byte slot through a consistent cursor gives the rendered frame,
/// and leaves the cursor consistent.
pub proof fn lemma_render_consistent(
    gt: Seq<u8>,
    ev: SchedEvent,
    split: Option<(u64, [u8; 10])>,
    session: [u8; 10],
    slot: Seq<u8>,
    off: int,
    idx: int,
)
    requires
        cursor_consistent(gt, off, idx),
        slot.len() == ARENA_SLOT_SIZE,
    ensures
        ({
            let (r, s2, o2, i2) = render_outcome(gt, ev, split, session, slot, off, idx);
            &&& r == (match rendered(gt, ev, split, session) {
                Some(b) => Some(b.len() as int),
                None => None::<int>,
            })
            &&& (r matches Some(n) ==> s2.take(n) == rendered(gt, ev, split, session)->Some_0)
            &&& s2.len() == slot.len()
            &&& cursor_consistent(gt, o2, i2)
        }),
{
    let hdr = event_header(ev, effective_session(ev, split, session)@);
    let with_hdr = hdr + slot.skip(HEADER_LEN as int);
    assert(with_hdr.take(HEADER_LEN as int) =~= hdr);
    match ev.kind {
        SchedKind::Packet { first_msg, count, .. } => {
            lemma_seek_consistent(gt, off, idx, first_msg as int);
            lemma_walk_grows(gt, 0, first_msg as nat);
            match walk_blocks(gt, 0, first_msg as nat) {
                Some(start) => {
                    if start <= gt.len() {
                        lemma_walk_compose(gt, 0, first_msg as nat, count as nat);
                        lemma_walk_grows(gt, start, count as nat);
                        match walk_blocks(gt, start, count as nat) {
                            Some(end) => {
                                let total = HEADER_LEN + end - start;
                                if total <= ARENA_SLOT_SIZE && end <= gt.len() {
                                    let out = hdr + gt.subrange(start, end) + slot.skip(total);
                                    assert(out.take(total) =~= hdr + gt.subrange(start, end));
                                }
                            },
                            None => {},
                        }
                    }
                },
                None => {},
            }
        },
        _ => {},
    }
}

/// How many bytes of storage the frame of `ev` takes: its rendered length, or none when
/// it cannot be rendered.
pub open spec fn rendered_len(gt: Seq<u8>, ev: SchedEvent, split: Option<(u64, [u8; 10])>, session: [u8; 10]) -> int {
    match rendered(gt, ev, split, session) {
        Some(b) => b.len() as int,
        None => 0,
    }
}

/// How many bytes of storage the frames of `events` take together.
pub open spec fn rendered_total(
    gt: Seq<u8>,
    events: Seq<SchedEvent>,
    split: Option<(u64, [u8; 10])>,
    session: [u8; 10],
) -> int
    decreases events.len(),
{
    if events.len() == 0 {
        0
    } else {
        rendered_total(gt, events.drop_last(), split, session) + rendered_len(gt, events.last(), split, session)
    }
}

/// Every stored frame starts at an offset a `u32` can hold: the frames rendered before it
/// take at most `u32::MAX` bytes.
pub open spec fn offsets_fit(
    gt: Seq<u8>,
    events: Seq<SchedEvent>,
    split: Option<(u64, [u8; 10])>,
    session: [u8; 10],
) -> bool {
    forall|k: int|
        #![trigger events[k]]
        0 <= k < events.len() && rendered(gt, events[k], split, session) is Some ==> rendered_total(
            gt,
            events.take(k),
            split,
            session,
        ) <= u32::MAX
}

/// The frames of a prefix take the frames of the shorter prefix plus the next one, and
/// never more than all of them.
pub proof fn lemma_total_prefix(
    gt: Seq<u8>,
    events: Seq<SchedEvent>,
    split: Option<(u64, [u8; 10])>,
    session: [u8; 10],
    i: int,
)
    requires
        0 <= i < events.len(),
    ensures
        rendered_total(gt, events.take(i + 1), split, session) == rendered_total(gt, events.take(i), split, session)
            + rendered_len(gt, events[i], split, session),
        rendered_total(gt, events.take(i + 1), split, session) <= rendered_total(gt, events, split, session),
    decreases events.len() - i,
{
    assert(events.take(i + 1).drop_last() =~= events.take(i));
    assert(events.take(i + 1).last() == events[i]);
    if i + 1 == events.len() {
        assert(events.take(i + 1) =~= events);
    } else {
        lemma_total_prefix(gt, events, split, session, i + 1);
    }
}

/// Whether a rendered frame of `ev` has its session prefix patched with the live session
/// at poll time: every frame without a split, and packets before the split under one.
pub open spec fn patch_flag(ev: SchedEvent, split: Option<(u64, [u8; 10])>) -> bool {
    match split {
        Some((m, _)) => match ev.kind {
            SchedKind::Packet { first_msg, .. } => first_msg < m,
            _ => false,
        },
        None => true,
    }
}

/// A frame as stored: a patched frame has its session prefix zeroed until poll time.
pub open spec fn stored(frame: Seq<u8>, patch: bool) -> Seq<u8> {
    if patch {
        Seq::new(10, |i: int| 0u8) + frame.skip(10)
    } else {
        frame
    }
}

/// The `(seq, start, end)` triples of the `n` blocks of `frame` from `pos`, numbered from
/// `seq`, or `None` if a block overruns the frame or bytes follow the last block.
pub open spec fn triple_walk(frame: Seq<u8>, pos: int, seq: u64, n: nat) -> Option<Seq<(u64, u32, u32)>>
    decreases n,
{
    if n == 0 {
        if pos == frame.len() {
            Some(Seq::empty())
        } else {
            None
        }
    } else if pos < 0 || pos + 2 > frame.len() {
        None
    } else {
        let end = pos + 2 + be_u16(frame[pos], frame[pos + 1]);
        if end > frame.len() {
            None
        } else {
            match triple_walk(frame, end, seq.wrapping_add(1), (n - 1) as nat) {
                Some(rest) => Some(seq![(seq, (pos + 2) as u32, end as u32)] + rest),
                None => None,
            }
        }
    }
}

/// The block index of a data frame whose header says `(first_seq, count)`.
pub open spec fn frame_triples(frame: Seq<u8>, first_seq: u64, count: u16) -> Option<Seq<(u64, u32, u32)>> {
    triple_walk(frame, HEADER_LEN as int, first_seq, count as nat)
}

/// A walk that finds triples finds one per block, each block taking two bytes or more.
pub proof fn lemma_triple_walk_len(frame: Seq<u8>, pos: int, seq: u64, n: nat)
    ensures
        triple_walk(frame, pos, seq, n) matches Some(ts) ==> ts.len() == n && pos + 2 * n
            <= frame.len(),
    decreases n,
{
    if n > 0 && pos >= 0 && pos + 2 <= frame.len() {
        let end = pos + 2 + be_u16(frame[pos], frame[pos + 1]);
        lemma_triple_walk_len(frame, end, seq.wrapping_add(1), (n - 1) as nat);
    }
}

/// Where a rendered frame and its block index live in a replay transport.
#[derive(Debug, Clone, Copy)]
pub struct FrameMeta {
    pub release_vt: u64,
    pub offset: u32,
    pub len: u16,
    pub feed: FeedId,
    pub patch: bool,
    pub blk_base: u32,
    pub blk_count: u16,
}

/// An event that is never handed out.
pub open spec fn is_tombstone(m: FrameMeta) -> bool {
    m.offset == 0 && m.len == 0 && !m.patch && m.blk_base == 0 && m.blk_count == 0
}

/// `m` describes event `ev`: an event whose frame cannot be rendered, or whose packet
/// blocks cannot be indexed, is a tombstone; otherwise `m` locates the stored frame
/// and its triples.
pub open spec fn meta_describes(
    gt: Seq<u8>,
    ev: SchedEvent,
    split: Option<(u64, [u8; 10])>,
    session: [u8; 10],
    m: FrameMeta,
    frames: Seq<u8>,
    triples: Seq<(u64, u32, u32)>,
) -> bool {
    &&& m.release_vt == ev.release_vt
    &&& m.feed == ev.feed
    &&& match rendered(gt, ev, split, session) {
        None => is_tombstone(m),
        Some(bytes) => {
            let located = m.len == bytes.len() && m.offset + m.len <= frames.len() && frames.subrange(
                m.offset as int,
                m.offset + m.len,
            ) == stored(bytes, patch_flag(ev, split)) && m.patch == patch_flag(ev, split);
            match ev.kind {
                SchedKind::Packet { first_seq, count, .. } => match frame_triples(bytes, first_seq, count) {
                    None => is_tombstone(m),
                    Some(ts) => located && m.blk_count == count && m.blk_base + ts.len() <= triples.len()
                        && triples.subrange(m.blk_base as int, m.blk_base + ts.len()) == ts,
                },
                _ => located && m.blk_base == 0 && m.blk_count == 0,
            }
        },
    }
}

/// Indexes the blocks of the `len`-byte frame in `scratch`, appending their triples;
/// returns where they start and how many there are, or `(0, 0)` (appending nothing) if
/// the frame cannot be indexed.
fn index_frame(
    scratch: &[u8; 1500],
    len: usize,
    first_seq: u64,
    count: u16,
    triples: &mut Vec<(u64, u32, u32)>,
) -> (r: (u32, u16))
    requires
        HEADER_LEN <= len <= 1500,
        old(triples)@.len() <= u32::MAX,
    ensures
        match frame_triples(scratch@.take(len as int), first_seq, count) {
            Some(ts) => r == (old(triples)@.len() as u32, count) && final(triples)@ == old(triples)@ + ts,
            None => r == (0u32, 0u16) && final(triples)@ == old(triples)@,
        },
{
    let ghost frame = scratch@.take(len as int);
    let base = triples.len();
    let mut pos: usize = HEADER_LEN;
    let mut seq = first_seq;
    let mut n: u16 = 0;
    let ghost mut acc: Seq<(u64, u32, u32)> = Seq::empty();
    while n < count
        invariant
            HEADER_LEN <= pos <= len,
            len <= 1500,
            n <= count,
            frame == scratch@.take(len as int),
            triples@ == old(triples)@ + acc,
            base == old(triples)@.len(),
            frame_triples(frame, first_seq, count) == match triple_walk(frame, pos as int, seq, (count - n) as nat) {
                Some(rest) => Some(acc + rest),
                None => None::<Seq<(u64, u32, u32)>>,
            },
        decreases count - n,
    {
        if 1500 < pos + 2 {
            triples.truncate(base);
            assert(triples@ =~= old(triples)@);
            return (0, 0);
        }
        let blen = read_be_u16(scratch, pos) as usize;
        let start = pos + 2;
        let end = start + blen;
        if end > len {
            triples.truncate(base);
            assert(triples@ =~= old(triples)@);
            return (0, 0);
        }
        assert(frame[pos as int] == scratch@[pos as int] && frame[pos + 1] == scratch@[pos + 1]);
        triples.push((seq, start as u32, end as u32));
        proof {
            let t = (seq, start as u32, end as u32);
            let rest = triple_walk(frame, end as int, seq.wrapping_add(1), (count - n - 1) as nat);
            match rest {
                Some(r) => {
                    assert(acc + (seq![t] + r) =~= acc.push(t) + r);
                },
                None => {},
            }
            acc = acc.push(t);
        }
        pos = end;
        seq = seq.wrapping_add(1);
        n = n + 1;
    }
    if pos != len {
        triples.truncate(base);
        assert(triples@ =~= old(triples)@);
        return (0, 0);
    }
    assert(triple_walk(frame, pos as int, seq, 0) == Some(Seq::<(u64, u32, u32)>::empty()));
    assert(acc + Seq::<(u64, u32, u32)>::empty() =~= acc);
    (base as u32, n)
}

/// The release time of the first event, 0 for an empty schedule.
pub open spec fn first_release(events: Seq<SchedEvent>) -> u64 {
    if events.len() > 0 {
        events[0].release_vt
    } else {
        0
    }
}

/// A replay transport as plain values.
pub struct ReplayView {
    pub events: Seq<SchedEvent>,
    pub split: Option<(u64, [u8; 10])>,
    pub event_idx: int,
    pub vclock: u64,
    pub frames: Seq<u8>,
    pub meta: Seq<FrameMeta>,
    pub triples: Seq<(u64, u32, u32)>,
    pub batch_event: Seq<u32>,
    pub batch_len: int,
    pub session: [u8; 10],
    pub clamp: Option<u64>,
}

/// Virtual-clock driven transport over frames rendered once at construction; a poll
/// only hands out stored frames (patching the live session into those that carry it).
pub struct ReplayTransport {
    schedule: ReplaySchedule,
    event_idx: usize,
    virtual_clock: u64,
    frames: Vec<u8>,
    meta: Vec<FrameMeta>,
    triples: Vec<(u64, u32, u32)>,
    /// Event index of each frame of the most recent poll, by batch position.
    batch_event: [u32; 256],
    batch_event_len: usize,
    session: [u8; 10],
    clock_clamp: Option<u64>,
}

impl View for ReplayTransport {
    type V = ReplayView;

    closed spec fn view(&self) -> ReplayView {
        ReplayView {
            events: self.schedule.events@,
            split: self.schedule.session_split,
            event_idx: self.event_idx as int,
            vclock: self.virtual_clock,
            frames: self.frames@,
            meta: self.meta@,
            triples: self.triples@,
            batch_event: self.batch_event@,
            batch_len: self.batch_event_len as int,
            session: self.session,
            clamp: self.clock_clamp,
        }
    }
}

/// Every stored frame and triple range lies within storage, and every live frame holds
/// at least a header.
pub open spec fn storage_ok(meta: Seq<FrameMeta>, frames_len: int, triples_len: int) -> bool {
    forall|k: int|
        0 <= k < meta.len() ==> {
            &&& #[trigger] meta[k].offset + meta[k].len <= frames_len
            &&& (meta[k].len == 0 || meta[k].len >= HEADER_LEN)
            &&& meta[k].blk_base + meta[k].blk_count <= triples_len
        }
}

impl ReplayTransport {
    /// Whether the frames of `schedule` fit the transport's storage: every frame starts at
    /// an offset a `u32` can hold, and all of them together fit in memory. Renders each
    /// event once, keeping only the lengths.
    pub fn storage_fits(gt: &[u8], schedule: &ReplaySchedule, session: [u8; 10]) -> (r: bool)
        requires
            gt@.len() + 0x2_0000 <= usize::MAX,
        ensures
            r == (offsets_fit(gt@, schedule.events@, schedule.session_split, session) && rendered_total(
                gt@,
                schedule.events@,
                schedule.session_split,
                session,
            ) <= usize::MAX),
    {
        let n = schedule.events.len();
        let mut cursor_a = Cursor { byte_offset: 0, msg_index: 0 };
        let mut cursor_b = Cursor { byte_offset: 0, msg_index: 0 };
        let mut scratch = [0u8; 1500];
        let ghost split = schedule.session_split;
        let ghost events = schedule.events@;
        let mut total: u64 = 0;
        let mut i: usize = 0;
        proof {
            assert(events.take(0).len() == 0);
        }
        while i < n
            invariant
                i <= n,
                n == events.len(),
                events == schedule.events@,
                split == schedule.session_split,
                gt@.len() + 0x2_0000 <= usize::MAX,
                cursor_consistent(gt@, cursor_a.byte_offset as int, cursor_a.msg_index as int),
                cursor_consistent(gt@, cursor_b.byte_offset as int, cursor_b.msg_index as int),
                total == rendered_total(gt@, events.take(i as int), split, session),
                total <= u32::MAX + 1500,
                forall|k: int|
                    #![trigger events[k]]
                    0 <= k < i && rendered(gt@, events[k], split, session) is Some ==> rendered_total(
                        gt@,
                        events.take(k),
                        split,
                        session,
                    ) <= u32::MAX,
            decreases n - i,
        {
            let ev = schedule.events[i];
            proof {
                lemma_total_prefix(gt@, events, split, session, i as int);
            }
            let r = if (ev.feed & 1) == 0 {
                proof {
                    lemma_render_consistent(gt@, ev, split, session, scratch@, cursor_a.byte_offset as int, cursor_a.msg_index as int);
                    lemma_walk_grows(gt@, 0, cursor_a.msg_index as nat);
                }
                render_event_standalone(gt, &ev, schedule, session, &mut scratch, &mut cursor_a)
            } else {
                proof {
                    lemma_render_consistent(gt@, ev, split, session, scratch@, cursor_b.byte_offset as int, cursor_b.msg_index as int);
                    lemma_walk_grows(gt@, 0, cursor_b.msg_index as nat);
                }
                render_event_standalone(gt, &ev, schedule, session, &mut scratch, &mut cursor_b)
            };
            if let Some(len) = r {
                if total > 0xFFFF_FFFFu64 {
                    assert(rendered(gt@, events[i as int], split, session) is Some);
                    return false;
                }
                assert(len <= 1500);
                total = total + len as u64;
            }
            i = i + 1;
        }
        proof {
            assert(events.take(n as int) =~= events);
        }
        total <= usize::MAX as u64
    }

    /// Renders every event of `schedule` from the ground-truth stream `gt`.
    pub fn new(gt: &[u8], schedule: ReplaySchedule, session: [u8; 10]) -> (t: Self)
        requires
            gt@.len() + 0x2_0000 <= usize::MAX,
            offsets_fit(gt@, schedule.events@, schedule.session_split, session),
            rendered_total(gt@, schedule.events@, schedule.session_split, session) <= usize::MAX,
        ensures
            t@.events == schedule.events@,
            t@.split == schedule.session_split,
            t@.event_idx == 0,
            t@.vclock == first_release(schedule.events@),
            t@.session == session,
            t@.clamp is None,
            t@.batch_len == 0,
            t@.meta.len() == schedule.events@.len(),
            storage_ok(t@.meta, t@.frames.len() as int, t@.triples.len() as int),
            renders_truly(gt@, t@),
            forall|k: int|
                0 <= k < t@.meta.len() ==> meta_describes(
                    gt@,
                    #[trigger] t@.events[k],
                    t@.split,
                    session,
                    t@.meta[k],
                    t@.frames,
                    t@.triples,
                ),
    {
        let n = schedule.events.len();
        let first_vt = if n > 0 { schedule.events[0].release_vt } else { 0 };
        let mut blob: Vec<u8> = Vec::new();
        let mut meta: Vec<FrameMeta> = Vec::new();
        let mut triples: Vec<(u64, u32, u32)> = Vec::new();
        let mut cursor_a = Cursor { byte_offset: 0, msg_index: 0 };
        let mut cursor_b = Cursor { byte_offset: 0, msg_index: 0 };
        let mut scratch = [0u8; 1500];
        let ghost split = schedule.session_split;
        let ghost events = schedule.events@;
        let mut i: usize = 0;
        while i < n
            invariant
                i <= n,
                n == events.len(),
                events == schedule.events@,
                split == schedule.session_split,
                gt@.len() + 0x2_0000 <= usize::MAX,
                offsets_fit(gt@, events, split, session),
                rendered_total(gt@, events, split, session) <= usize::MAX,
                meta@.len() == i,
                blob@.len() == rendered_total(gt@, events.take(i as int), split, session),
                triples@.len() <= blob@.len(),
                cursor_consistent(gt@, cursor_a.byte_offset as int, cursor_a.msg_index as int),
                cursor_consistent(gt@, cursor_b.byte_offset as int, cursor_b.msg_index as int),
                storage_ok(meta@, blob@.len() as int, triples@.len() as int),
                frames_apart(meta@),
                forall|k: int|
                    0 <= k < i ==> meta_describes(
                        gt@,
                        #[trigger] events[k],
                        split,
                        session,
                        meta@[k],
                        blob@,
                        triples@,
                    ),
            decreases n - i,
        {
            let ev = schedule.events[i];
            proof {
                lemma_total_prefix(gt@, events, split, session, i as int);
            }
            let ghost old_blob = blob@;
            let ghost old_triples = triples@;
            let ghost old_meta = meta@;
            if (ev.feed & 1) == 0 {
                append_event(gt, &ev, &schedule, session, &mut scratch, &mut cursor_a, &mut blob, &mut meta, &mut triples);
            } else {
                append_event(gt, &ev, &schedule, session, &mut scratch, &mut cursor_b, &mut blob, &mut meta, &mut triples);
            }
            proof {
                assert forall|k: int| 0 <= k < i + 1 implies meta_describes(
                    gt@,
                    #[trigger] events[k],
                    split,
                    session,
                    meta@[k],
                    blob@,
                    triples@,
                ) by {
                    if k < i {
                        assert(meta@[k] == old_meta[k]);
                        lemma_describes_extend(gt@, events[k], split, session, old_meta[k], old_blob, blob@, old_triples, triples@);
                    }
                }
                assert forall|k: int| 0 <= k < meta@.len() implies {
                    &&& #[trigger] meta@[k].offset + meta@[k].len <= blob@.len()
                    &&& (meta@[k].len == 0 || meta@[k].len >= HEADER_LEN)
                    &&& meta@[k].blk_base + meta@[k].blk_count <= triples@.len()
                } by {
                    if k < i {
                        assert(meta@[k] == old_meta[k]);
                    }
                }
                assert forall|a: int, b: int|
                    #![trigger meta@[a], meta@[b]]
                    0 <= a < meta@.len() && 0 <= b < meta@.len() && a != b && meta@[a].len > 0 && meta@[b].len
                        > 0 implies meta@[a].offset + meta@[a].len <= meta@[b].offset || meta@[b].offset
                    + meta@[b].len <= meta@[a].offset by {
                    if a < i && b < i {
                        assert(meta@[a] == old_meta[a] && meta@[b] == old_meta[b]);
                    } else if a < i {
                        assert(meta@[a] == old_meta[a]);
                        assert(old_meta[a].offset + old_meta[a].len <= old_blob.len());
                    } else {
                        assert(meta@[b] == old_meta[b]);
                        assert(old_meta[b].offset + old_meta[b].len <= old_blob.len());
                    }
                }
            }
            i = i + 1;
        }
        proof {
            assert forall|k: int| 0 <= k < meta@.len() implies (#[trigger] meta@[k]).feed == events[k].feed
                && frame_holds(gt@, events[k], split, session, meta@[k], blob@) by {
                lemma_describes_holds(gt@, events[k], split, session, meta@[k], blob@, triples@);
            }
        }
        ReplayTransport {
            schedule,
            event_idx: 0,
            virtual_clock: first_vt,
            frames: blob,
            meta,
            triples,
            batch_event: [0u32; 256],
            batch_event_len: 0,
            session,
            clock_clamp: None,
        }
    }
}

/// A stored frame a poll can hand out: nonempty, within a storage of `frames_len`
/// bytes, and long enough to patch when it carries the live session.
pub open spec fn live_frame(m: FrameMeta, frames_len: int) -> bool {
    m.len > 0 && m.offset + m.len <= frames_len && (!m.patch || m.len >= 10)
}

/// One poll from event `i` under clock `vclock`: the event index reached and the events
/// handed out (live frames only, at most 256), in order.
pub open spec fn release_run(meta: Seq<FrameMeta>, frames_len: int, i: int, vclock: u64, pushed: Seq<int>) -> (
    int,
    Seq<int>,
)
    decreases meta.len() - i,
{
    if i < 0 || i >= meta.len() || pushed.len() >= 256 || meta[i].release_vt > vclock {
        (i, pushed)
    } else if live_frame(meta[i], frames_len) {
        release_run(meta, frames_len, i + 1, vclock, pushed.push(i))
    } else {
        release_run(meta, frames_len, i + 1, vclock, pushed)
    }
}

/// Frame storage after the live session is patched into each handed-out frame that
/// carries it.
pub open spec fn patch_frames(frames: Seq<u8>, meta: Seq<FrameMeta>, pushed: Seq<int>, session: Seq<u8>) -> Seq<u8>
    decreases pushed.len(),
{
    if pushed.len() == 0 {
        frames
    } else {
        let f1 = patch_frames(frames, meta, pushed.drop_last(), session);
        let m = meta[pushed.last()];
        if m.patch {
            f1.subrange(0, m.offset as int) + session + f1.skip(m.offset + 10)
        } else {
            f1
        }
    }
}

/// The batch a poll fills, from the events it hands out.
pub open spec fn batch_of(meta: Seq<FrameMeta>, pushed: Seq<int>) -> Seq<FrameView> {
    pushed.map_values(|k: int| view_of(meta[k]))
}

/// The batch entry of a stored frame.
pub open spec fn view_of(m: FrameMeta) -> FrameView {
    FrameView { offset: m.offset as usize, len: m.len, feed: m.feed }
}

/// The virtual clock a poll runs at: the clock jumps forward to the next event's release
/// time, or only to the clamp when one is given (per poll, else the transport's own).
pub open spec fn poll_clock(s: ReplayView, max_vt: Option<u64>) -> u64 {
    let next_vt = s.meta[s.event_idx].release_vt;
    let cl = match max_vt {
        Some(c) => Some(c),
        None => s.clamp,
    };
    let jump = match cl {
        Some(c) => if next_vt < c { next_vt } else { c },
        None => next_vt,
    };
    if jump > s.vclock { jump } else { s.vclock }
}

/// Writes `session` over the ten bytes of `frames` that start at `base`.
fn patch_session(frames: &mut Vec<u8>, base: usize, session: &[u8; 10])
    requires
        base + 10 <= old(frames)@.len(),
    ensures
        final(frames)@ == old(frames)@.subrange(0, base as int) + session@ + old(frames)@.skip(base + 10),
{
    let ghost before = frames@;
    let mut j: usize = 0;
    while j < 10
        invariant
            j <= 10,
            base + 10 <= before.len(),
            frames@.len() == before.len(),
            frames.len() == before.len(),
            forall|x: int| 0 <= x < base ==> frames@[x] == before[x],
            forall|x: int| base <= x < base + j ==> frames@[x] == session@[x - base],
            forall|x: int| base + j <= x < before.len() ==> frames@[x] == before[x],
        decreases 10 - j,
    {
        frames.set(base + j, session[j]);
        j = j + 1;
    }
    assert(frames@ =~= before.subrange(0, base as int) + session@ + before.skip(base + 10));
}

impl ReplayTransport {
    /// Rewinds to the first event under a new session id, clearing the clamp.
    pub fn reset(&mut self, session: [u8; 10])
        ensures
            final(self)@ == (ReplayView {
                event_idx: 0,
                vclock: first_release(old(self)@.events),
                session,
                clamp: None,
                ..old(self)@
            }),
    {
        let first_vt = if self.schedule.events.len() > 0 {
            self.schedule.events[0].release_vt
        } else {
            0
        };
        self.event_idx = 0;
        self.virtual_clock = first_vt;
        self.session = session;
        self.clock_clamp = None;
    }

    /// Sets or clears the transport's clock clamp.
    pub fn set_clock_clamp(&mut self, clamp: Option<u64>)
        ensures
            final(self)@ == (ReplayView { clamp, ..old(self)@ }),
    {
        self.clock_clamp = clamp;
    }

    /// Hands out into `batch` every event released by the virtual clock, up to 256 live
    /// frames (tombstones are passed over); returns the frame count.
    pub fn poll_clamped(&mut self, batch: &mut FrameBatch, max_vt: Option<u64>) -> (r: usize)
        ensures
            ({
                let s = old(self)@;
                if s.event_idx >= s.meta.len() {
                    &&& r == 0
                    &&& final(batch)@ == Seq::<FrameView>::empty()
                    &&& final(self)@ == s
                } else {
                    let vclock = poll_clock(s, max_vt);
                    let (i2, pushed) = release_run(s.meta, s.frames.len() as int, s.event_idx, vclock, Seq::empty());
                    &&& r == pushed.len()
                    &&& final(batch)@ == batch_of(s.meta, pushed)
                    &&& final(self)@.event_idx == i2
                    &&& final(self)@.vclock == vclock
                    &&& final(self)@.frames == patch_frames(s.frames, s.meta, pushed, s.session@)
                    &&& final(self)@.batch_len == pushed.len()
                    &&& forall|j: int| 0 <= j < pushed.len() ==> final(self)@.batch_event[j] == pushed[j] as u32
                    &&& final(self)@ == (ReplayView {
                        event_idx: i2,
                        vclock,
                        frames: final(self)@.frames,
                        batch_event: final(self)@.batch_event,
                        batch_len: pushed.len() as int,
                        ..s
                    })
                }
            }),
    {
        batch.clear();
        let events_len = self.meta.len();
        if self.event_idx >= events_len {
            return 0;
        }
        let next_vt = self.meta[self.event_idx].release_vt;
        let cl = match max_vt {
            Some(c) => Some(c),
            None => self.clock_clamp,
        };
        let jump_to = match cl {
            Some(clamp) => if next_vt < clamp {
                next_vt
            } else {
                clamp
            },
            None => next_vt,
        };
        if jump_to > self.virtual_clock {
            self.virtual_clock = jump_to;
        }
        let vclock = self.virtual_clock;
        let session = self.session;
        let ghost s0 = old(self)@;
        let ghost target = release_run(s0.meta, s0.frames.len() as int, s0.event_idx, vclock, Seq::empty());
        let ghost mut pushed: Seq<int> = Seq::empty();
        assert(self.frames@ == patch_frames(s0.frames, s0.meta, pushed, session@));
        loop
            invariant
                s0.event_idx <= self.event_idx <= events_len,
                events_len == s0.meta.len(),
                self.meta@ == s0.meta,
                self.triples@ == s0.triples,
                self.schedule.events@ == s0.events,
                self.schedule.session_split == s0.split,
                self.session == session,
                session == s0.session,
                self.virtual_clock == vclock,
                self.clock_clamp == s0.clamp,
                self.frames@.len() == s0.frames.len(),
                target == release_run(s0.meta, s0.frames.len() as int, self.event_idx as int, vclock, pushed),
                batch@ == batch_of(s0.meta, pushed),
                pushed.len() <= 256,
                self.frames@ == patch_frames(s0.frames, s0.meta, pushed, session@),
                forall|j: int| 0 <= j < pushed.len() ==> self.batch_event@[j] == pushed[j] as u32,
            ensures
                target == (self.event_idx as int, pushed),
            decreases events_len - self.event_idx,
        {
            if !(self.event_idx < events_len && batch.len() < 256) {
                break;
            }
            let m = self.meta[self.event_idx];
            if m.release_vt > vclock {
                break;
            }
            let base = m.offset as usize;
            if m.len > 0 && base <= self.frames.len() && (m.len as usize) <= self.frames.len() - base
                && (!m.patch || m.len >= 10) {
                if m.patch {
                    patch_session(&mut self.frames, base, &session);
                }
                let slot_idx = batch.len();
                batch.push(FrameView { offset: base, len: m.len, feed: m.feed });
                self.batch_event[slot_idx] = self.event_idx as u32;
                proof {
                    let p2 = pushed.push(self.event_idx as int);
                    assert(p2.drop_last() =~= pushed);
                    assert(batch_of(s0.meta, p2) =~= batch_of(s0.meta, pushed).push(view_of(m)));
                    pushed = p2;
                }
            }
            self.event_idx = self.event_idx + 1;
        }
        self.batch_event_len = batch.len();
        batch.len()
    }

    /// The block triples of the frame at position `batch_pos` of the most recent poll;
    /// empty for heartbeats, ends of session and positions outside that poll.
    pub fn batch_blocks(&self, batch_pos: usize) -> (r: &[(u64, u32, u32)])
        ensures
            ({
                let s = self@;
                if batch_pos < s.batch_len && batch_pos < 256 && (s.batch_event[batch_pos as int] as int)
                    < s.meta.len() && s.meta[s.batch_event[batch_pos as int] as int].blk_base
                    + s.meta[s.batch_event[batch_pos as int] as int].blk_count <= s.triples.len() {
                    let m = s.meta[s.batch_event[batch_pos as int] as int];
                    r@ == s.triples.subrange(m.blk_base as int, m.blk_base + m.blk_count)
                } else {
                    r@ == Seq::<(u64, u32, u32)>::empty()
                }
            }),
    {
        let all = self.triples.as_slice();
        if batch_pos >= self.batch_event_len || batch_pos >= 256 {
            return vstd::slice::slice_subrange(all, 0, 0);
        }
        let ev = self.batch_event[batch_pos] as usize;
        if ev >= self.meta.len() {
            return vstd::slice::slice_subrange(all, 0, 0);
        }
        let m = self.meta[ev];
        let base = m.blk_base as usize;
        let count = m.blk_count as usize;
        if base > all.len() || count > all.len() - base {
            return vstd::slice::slice_subrange(all, 0, 0);
        }
        vstd::slice::slice_subrange(all, base, base + count)
    }

    /// The bytes of a frame handed out by this transport; empty for a view that does not
    /// lie within its frame storage.
    pub fn frame(&self, view: &FrameView) -> (r: &[u8])
        ensures
            view.offset + view.len <= self@.frames.len() ==> r@ == self@.frames.subrange(
                view.offset as int,
                view.offset + view.len,
            ),
            view.offset + view.len > self@.frames.len() ==> r@.len() == 0,
    {
        let all = self.frames.as_slice();
        if view.offset <= all.len() && (view.len as usize) <= all.len() - view.offset {
            vstd::slice::slice_subrange(all, view.offset, view.offset + view.len as usize)
        } else {
            vstd::slice::slice_subrange(all, 0, 0)
        }
    }
}

impl Transport for ReplayTransport {
    fn poll(&mut self, batch: &mut FrameBatch) -> (r: usize)
        ensures
            ({
                let s = old(self)@;
                if s.event_idx >= s.meta.len() {
                    &&& r == 0
                    &&& final(batch)@ == Seq::<FrameView>::empty()
                    &&& final(self)@ == s
                } else {
                    let vclock = poll_clock(s, None);
                    let (i2, pushed) = release_run(s.meta, s.frames.len() as int, s.event_idx, vclock, Seq::empty());
                    &&& r == pushed.len()
                    &&& final(batch)@ == batch_of(s.meta, pushed)
                    &&& final(self)@.frames == patch_frames(s.frames, s.meta, pushed, s.session@)
                    &&& forall|j: int| 0 <= j < pushed.len() ==> final(self)@.batch_event[j] == pushed[j] as u32
                    &&& final(self)@ == (ReplayView {
                        event_idx: i2,
                        vclock,
                        frames: final(self)@.frames,
                        batch_event: final(self)@.batch_event,
                        batch_len: pushed.len() as int,
                        ..s
                    })
                }
            }),
    {
        self.poll_clamped(batch, None)
    }

    fn now_ns(&self) -> (r: u64)
        ensures
            r == self@.vclock,
    {
        self.virtual_clock
    }

    fn frame_bytes(&self, frame: &FrameView) -> (r: &[u8])
        ensures
            frame.offset + frame.len <= self@.frames.len() ==> r@ == self@.frames.subrange(
                frame.offset as int,
                frame.offset + frame.len,
            ),
            frame.offset + frame.len > self@.frames.len() ==> r@.len() == 0,
    {
        self.frame(frame)
    }

    fn batch_blocks(&self, batch_pos: usize) -> (r: &[(u64, u32, u32)])
        ensures
            ({
                let s = self@;
                if batch_pos < s.batch_len && batch_pos < 256 && (s.batch_event[batch_pos as int] as int)
                    < s.meta.len() && s.meta[s.batch_event[batch_pos as int] as int].blk_base
                    + s.meta[s.batch_event[batch_pos as int] as int].blk_count <= s.triples.len() {
                    let m = s.meta[s.batch_event[batch_pos as int] as int];
                    r@ == s.triples.subrange(m.blk_base as int, m.blk_base + m.blk_count)
                } else {
                    r@ == Seq::<(u64, u32, u32)>::empty()
                }
            }),
    {
        ReplayTransport::batch_blocks(self, batch_pos)
    }
}

/// A description stays true when frame and triple storage only grow.
pub proof fn lemma_describes_extend(
    gt: Seq<u8>,
    ev: SchedEvent,
    split: Option<(u64, [u8; 10])>,
    session: [u8; 10],
    m: FrameMeta,
    frames: Seq<u8>,
    frames2: Seq<u8>,
    triples: Seq<(u64, u32, u32)>,
    triples2: Seq<(u64, u32, u32)>,
)
    requires
        meta_describes(gt, ev, split, session, m, frames, triples),
        frames2.len() >= frames.len(),
        frames2.take(frames.len() as int) == frames,
        triples2.len() >= triples.len(),
        triples2.take(triples.len() as int) == triples,
    ensures
        meta_describes(gt, ev, split, session, m, frames2, triples2),
{
    match rendered(gt, ev, split, session) {
        Some(bytes) => match ev.kind {
            SchedKind::Packet { first_seq, count, .. } => {
                lemma_triple_walk_len(bytes, HEADER_LEN as int, first_seq, count as nat);
            },
            _ => {},
        },
        None => {},
    }
    if m.offset + m.len <= frames.len() {
        assert(frames2.subrange(m.offset as int, m.offset + m.len) =~= frames.subrange(
            m.offset as int,
            m.offset + m.len,
        ));
    }
    if m.blk_base + m.blk_count <= triples.len() {
        assert(triples2.subrange(m.blk_base as int, m.blk_base + m.blk_count) =~= triples.subrange(
            m.blk_base as int,
            m.blk_base + m.blk_count,
        ));
    }
}

/// Renders `ev` through `cursor` and appends its frame, triples and description.
fn append_event(
    gt: &[u8],
    ev: &SchedEvent,
    schedule: &ReplaySchedule,
    session: [u8; 10],
    scratch: &mut [u8; 1500],
    cursor: &mut Cursor,
    blob: &mut Vec<u8>,
    meta: &mut Vec<FrameMeta>,
    triples: &mut Vec<(u64, u32, u32)>,
)
    requires
        gt@.len() + 0x2_0000 <= usize::MAX,
        cursor_consistent(gt@, old(cursor).byte_offset as int, old(cursor).msg_index as int),
        old(triples)@.len() <= old(blob)@.len(),
        rendered(gt@, *ev, schedule.session_split, session) is Some ==> old(blob)@.len() <= u32::MAX,
        old(blob)@.len() + rendered_len(gt@, *ev, schedule.session_split, session) <= usize::MAX,
    ensures
        cursor_consistent(gt@, final(cursor).byte_offset as int, final(cursor).msg_index as int),
        final(blob)@.len() == old(blob)@.len() + rendered_len(gt@, *ev, schedule.session_split, session),
        final(blob)@.len() >= old(blob)@.len(),
        final(blob)@.take(old(blob)@.len() as int) == old(blob)@,
        final(triples)@.len() <= final(blob)@.len(),
        final(triples)@.len() >= old(triples)@.len(),
        final(triples)@.take(old(triples)@.len() as int) == old(triples)@,
        final(meta)@.len() == old(meta)@.len() + 1,
        final(meta)@.take(old(meta)@.len() as int) == old(meta)@,
        ({
            let m = final(meta)@.last();
            &&& meta_describes(gt@, *ev, schedule.session_split, session, m, final(blob)@, final(triples)@)
            &&& m.offset + m.len <= final(blob)@.len()
            &&& (m.len == 0 || m.len >= HEADER_LEN)
            &&& m.blk_base + m.blk_count <= final(triples)@.len()
            &&& (m.len == 0 || m.offset == old(blob)@.len())
        }),
{
    let ghost split = schedule.session_split;
    let tomb = FrameMeta { release_vt: ev.release_vt, offset: 0, len: 0, feed: ev.feed, patch: false, blk_base: 0, blk_count: 0 };
    proof {
        lemma_render_consistent(
            gt@,
            *ev,
            split,
            session,
            scratch@,
            cursor.byte_offset as int,
            cursor.msg_index as int,
        );
        lemma_walk_grows(gt@, 0, cursor.msg_index as nat);
    }
    let rendered_len = render_event_standalone(gt, ev, schedule, session, scratch, cursor);
    let len = match rendered_len {
        Some(len) => len,
        None => {
            meta.push(tomb);
            assert(blob@.take(blob@.len() as int) =~= blob@);
            assert(triples@.take(triples@.len() as int) =~= triples@);
            assert(meta@.take(old(meta)@.len() as int) =~= old(meta)@);
            return;
        },
    };
    let ghost bytes = rendered(gt@, *ev, split, session)->Some_0;
    let ghost old_blob = blob@;
    assert(scratch@.take(len as int) == bytes);
    let off = blob.len();
    blob.extend_from_slice(vstd::slice::slice_subrange(vstd::array::array_as_slice(scratch), 0, len));
    let patch = match schedule.session_split {
        Some((split_m, _)) => match ev.kind {
            SchedKind::Packet { first_msg, .. } => first_msg < split_m,
            _ => false,
        },
        None => true,
    };
    if patch {
        let mut j: usize = 0;
        while j < 10
            invariant
                j <= 10,
                len >= HEADER_LEN,
                off + len == blob@.len(),
                off <= u32::MAX,
                off + len <= usize::MAX,
                old_blob.len() == off,
                forall|x: int| 0 <= x < off ==> blob@[x] == old_blob[x],
                forall|x: int| off <= x < off + j ==> blob@[x] == 0u8,
                forall|x: int| off + j <= x < off + len ==> blob@[x] == bytes[x - off],
            decreases 10 - j,
        {
            blob.set(off + j, 0u8);
            j = j + 1;
        }
    }
    assert(blob@.take(off as int) =~= old_blob);
    assert(blob@.subrange(off as int, off + len) =~= stored(bytes, patch));
    let idx = match ev.kind {
        SchedKind::Packet { first_seq, count, .. } => {
            proof {
                lemma_triple_walk_len(bytes, HEADER_LEN as int, first_seq, count as nat);
            }
            index_frame(scratch, len, first_seq, count, triples)
        },
        _ => (0, 0),
    };
    let (blk_base, blk_count) = idx;
    let ev_count: u16 = match ev.kind {
        SchedKind::Packet { count, .. } => count,
        _ => 0,
    };
    if ev_count > 0 && blk_count == 0 {
        meta.push(tomb);
    } else {
        meta.push(
            FrameMeta {
                release_vt: ev.release_vt,
                offset: off as u32,
                len: len as u16,
                feed: ev.feed,
                patch,
                blk_base,
                blk_count,
            },
        );
    }
    assert(triples@.take(old(triples)@.len() as int) =~= old(triples)@);
    assert(meta@.take(old(meta)@.len() as int) =~= old(meta)@);
    proof {
        let m = meta@.last();
        assert(patch == patch_flag(*ev, split));
        match ev.kind {
            SchedKind::Packet { first_seq, count, .. } => {
                match frame_triples(bytes, first_seq, count) {
                    Some(ts) => {
                        assert(triples@ == old(triples)@ + ts);
                        assert(triples@.subrange(old(triples)@.len() as int, (old(triples)@.len() + ts.len()) as int) =~= ts);
                        if count == 0 {
                            assert(ts.len() == 0);
                        }
                    },
                    None => {
                        if count == 0 {
                            assert(bytes.len() == HEADER_LEN);
                        }
                    },
                }
            },
            _ => {},
        }
        assert(meta_describes(gt@, *ev, split, session, m, blob@, triples@));
    }
}

} // verus!