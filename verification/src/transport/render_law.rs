//! What a poll of the pre-rendered replay transport hands out: every frame is the frame
//! of its event rendered from the ground-truth stream, carrying the live session id
//! wherever the event's frame carries the replay's own session.

use vstd::prelude::*;
use crate::protocol::moldudp64::{header_bytes, HEADER_LEN};
use crate::transport::render::{
    batch_of, effective_session, event_header, lemma_walk_compose, lemma_walk_grows, live_frame,
    meta_describes, patch_flag, patch_frames, release_run, rendered, stored, walk_blocks, FrameMeta,
    ReplayView,
};
use crate::protocol::bytes::be_u16;
use crate::protocol::packet::lenient_blocks;
use crate::transport::sched_types::{SchedEvent, SchedKind};

verus! {

/// Storage `frames` holds event `ev` at `m` as rendered under `session`: a live frame
/// has the rendered length, lies within storage, and matches the rendered frame past its
/// session prefix, and everywhere when it is not patched at poll time.
pub open spec fn frame_holds(
    gt: Seq<u8>,
    ev: SchedEvent,
    split: Option<(u64, [u8; 10])>,
    session: [u8; 10],
    m: FrameMeta,
    frames: Seq<u8>,
) -> bool {
    m.len > 0 ==> match rendered(gt, ev, split, session) {
        None => false,
        Some(bytes) => {
            &&& m.len == bytes.len()
            &&& m.offset + m.len <= frames.len()
            &&& m.patch == patch_flag(ev, split)
            &&& frames.subrange(m.offset + 10, m.offset + m.len) == bytes.skip(10)
            &&& !m.patch ==> frames.subrange(m.offset as int, m.offset + 10) == bytes.take(10)
        },
    }
}

/// No two live frames of the storage overlap.
pub open spec fn frames_apart(meta: Seq<FrameMeta>) -> bool {
    forall|a: int, b: int|
        #![trigger meta[a], meta[b]]
        0 <= a < meta.len() && 0 <= b < meta.len() && a != b && meta[a].len > 0 && meta[b].len > 0 ==> meta[a].offset
            + meta[a].len <= meta[b].offset || meta[b].offset + meta[b].len <= meta[a].offset
}

/// The transport renders truly: one frame description per event, no two frames overlap,
/// and each live frame holds its event rendered under the live session.
pub open spec fn renders_truly(gt: Seq<u8>, t: ReplayView) -> bool {
    &&& t.meta.len() == t.events.len()
    &&& frames_apart(t.meta)
    &&& forall|k: int| 0 <= k < t.meta.len() ==> (#[trigger] t.meta[k]).feed == t.events[k].feed
    &&& forall|k: int|
        0 <= k < t.meta.len() ==> frame_holds(gt, #[trigger] t.events[k], t.split, t.session, t.meta[k], t.frames)
}

/// Rendering under another session changes at most the session prefix, and only of a
/// frame patched at poll time, which carries the session it was rendered under.
pub proof fn lemma_rendered_session(
    gt: Seq<u8>,
    ev: SchedEvent,
    split: Option<(u64, [u8; 10])>,
    a: [u8; 10],
    b: [u8; 10],
)
    ensures
        rendered(gt, ev, split, a) is Some <==> rendered(gt, ev, split, b) is Some,
        rendered(gt, ev, split, a) matches Some(x) ==> {
            let y = rendered(gt, ev, split, b)->Some_0;
            &&& x.len() == y.len()
            &&& x.len() >= HEADER_LEN
            &&& x.skip(10) == y.skip(10)
            &&& !patch_flag(ev, split) ==> x == y
            &&& patch_flag(ev, split) ==> x.take(10) == a@
        },
{
    let sa = effective_session(ev, split, a)@;
    let sb = effective_session(ev, split, b)@;
    let ha = event_header(ev, sa);
    let hb = event_header(ev, sb);
    assert(ha.len() == HEADER_LEN);
    assert(hb.len() == HEADER_LEN);
    assert(ha.skip(10) =~= hb.skip(10));
    assert(ha.take(10) =~= sa);
    if let Some(x) = rendered(gt, ev, split, a) {
        let y = rendered(gt, ev, split, b)->Some_0;
        let tail = x.skip(HEADER_LEN as int);
        assert(x =~= ha + tail);
        assert(y =~= hb + tail);
        assert(x.skip(10) =~= ha.skip(10) + tail);
        assert(y.skip(10) =~= hb.skip(10) + tail);
        assert(x.take(10) =~= ha.take(10));
    }
}

/// Events handed out by a poll are listed once each, in increasing order.
pub open spec fn increasing(pushed: Seq<int>) -> bool {
    forall|a: int, b: int| 0 <= a < b < pushed.len() ==> #[trigger] pushed[a] < #[trigger] pushed[b]
}

/// A poll from event `i` hands out, after those already listed (all before `i`), only
/// live frames of events from `i` on, in increasing order.
pub proof fn lemma_release_run(meta: Seq<FrameMeta>, frames_len: int, i: int, vclock: u64, pushed: Seq<int>)
    requires
        0 <= i,
        increasing(pushed),
        forall|j: int|
            0 <= j < pushed.len() ==> 0 <= #[trigger] pushed[j] < i && pushed[j] < meta.len() && live_frame(
                meta[pushed[j]],
                frames_len,
            ),
    ensures
        ({
            let p2 = release_run(meta, frames_len, i, vclock, pushed).1;
            &&& increasing(p2)
            &&& forall|j: int|
                0 <= j < p2.len() ==> 0 <= #[trigger] p2[j] < meta.len() && live_frame(meta[p2[j]], frames_len)
        }),
    decreases meta.len() - i,
{
    if i < 0 || i >= meta.len() || pushed.len() >= 256 || meta[i].release_vt > vclock {
        assert forall|j: int| 0 <= j < pushed.len() implies 0 <= #[trigger] pushed[j] < meta.len() && live_frame(
            meta[pushed[j]],
            frames_len,
        ) by {}
    } else if live_frame(meta[i], frames_len) {
        let p1 = pushed.push(i);
        assert forall|a: int, b: int| 0 <= a < b < p1.len() implies #[trigger] p1[a] < #[trigger] p1[b] by {
            if b < pushed.len() {
                assert(p1[a] == pushed[a] && p1[b] == pushed[b]);
            } else {
                assert(p1[a] == pushed[a]);
            }
        }
        assert forall|j: int| 0 <= j < p1.len() implies 0 <= #[trigger] p1[j] < i + 1 && p1[j] < meta.len()
            && live_frame(meta[p1[j]], frames_len) by {
            if j < pushed.len() {
                assert(p1[j] == pushed[j]);
            }
        }
        lemma_release_run(meta, frames_len, i + 1, vclock, p1);
    } else {
        lemma_release_run(meta, frames_len, i + 1, vclock, pushed);
    }
}

/// Byte `x` lies in the session prefix of a handed-out frame that is patched at poll time.
pub open spec fn patched_at(meta: Seq<FrameMeta>, pushed: Seq<int>, x: int) -> bool {
    exists|j: int|
        0 <= j < pushed.len() && (#[trigger] meta[pushed[j]]).patch && meta[pushed[j]].offset <= x < meta[pushed[j]].offset + 10
}

/// Patching the handed-out frames writes the session over the prefix of each patched one
/// and leaves every other byte as it was.
pub proof fn lemma_patch_frames(frames: Seq<u8>, meta: Seq<FrameMeta>, pushed: Seq<int>, session: Seq<u8>)
    requires
        session.len() == 10,
        frames_apart(meta),
        increasing(pushed),
        forall|j: int| 0 <= j < pushed.len() ==> 0 <= #[trigger] pushed[j] < meta.len() && live_frame(meta[pushed[j]], frames.len() as int),
    ensures
        ({
            let f2 = patch_frames(frames, meta, pushed, session);
            &&& f2.len() == frames.len()
            &&& forall|x: int| 0 <= x < frames.len() && !patched_at(meta, pushed, x) ==> #[trigger] f2[x] == frames[x]
            &&& forall|j: int|
                0 <= j < pushed.len() && (#[trigger] meta[pushed[j]]).patch ==> f2.subrange(
                    meta[pushed[j]].offset as int,
                    meta[pushed[j]].offset + 10,
                ) == session
        }),
    decreases pushed.len(),
{
    if pushed.len() > 0 {
        let p1 = pushed.drop_last();
        assert forall|j: int| 0 <= j < p1.len() implies 0 <= #[trigger] p1[j] < meta.len() && live_frame(meta[p1[j]], frames.len() as int) by {
            assert(p1[j] == pushed[j]);
        }
        lemma_patch_frames(frames, meta, p1, session);
        let f1 = patch_frames(frames, meta, p1, session);
        let k = pushed.last();
        let m = meta[k];
        let f2 = patch_frames(frames, meta, pushed, session);
        assert(live_frame(meta[pushed[pushed.len() - 1]], frames.len() as int));
        assert forall|x: int| 0 <= x < frames.len() && !patched_at(meta, pushed, x) implies #[trigger] f2[x] == frames[x] by {
            assert(!patched_at(meta, p1, x)) by {
                if patched_at(meta, p1, x) {
                    let j = choose|j: int| 0 <= j < p1.len() && (#[trigger] meta[p1[j]]).patch && meta[p1[j]].offset <= x < meta[p1[j]].offset + 10;
                    assert(p1[j] == pushed[j]);
                }
            }
            if m.patch {
                assert(!(m.offset <= x < m.offset + 10)) by {
                    if m.offset <= x < m.offset + 10 {
                        assert(meta[pushed[pushed.len() - 1]].patch);
                    }
                }
            }
        }
        assert forall|j: int| 0 <= j < pushed.len() && (#[trigger] meta[pushed[j]]).patch implies f2.subrange(
            meta[pushed[j]].offset as int,
            meta[pushed[j]].offset + 10,
        ) == session by {
            if j == pushed.len() - 1 {
                assert(f2.subrange(m.offset as int, m.offset + 10) =~= session);
            } else {
                assert(p1[j] == pushed[j]);
                let mj = meta[pushed[j]];
                assert(pushed[j] < k);
                assert(live_frame(mj, frames.len() as int));
                if m.patch {
                    assert(mj.offset + mj.len <= m.offset || m.offset + m.len <= mj.offset);
                    assert(f2.subrange(mj.offset as int, mj.offset + 10) =~= f1.subrange(mj.offset as int, mj.offset + 10));
                }
            }
        }
    }
}

/// Bytes of live frame `k` past its session prefix, and its prefix too unless it is
/// patched, are not in the prefix of any patched handed-out frame.
pub proof fn lemma_frame_untouched(meta: Seq<FrameMeta>, pushed: Seq<int>, frames_len: int, k: int, x: int)
    requires
        frames_apart(meta),
        0 <= k < meta.len(),
        meta[k].len > 0,
        meta[k].offset <= x < meta[k].offset + meta[k].len,
        meta[k].patch ==> x >= meta[k].offset + 10,
        forall|j: int| 0 <= j < pushed.len() ==> 0 <= #[trigger] pushed[j] < meta.len() && live_frame(meta[pushed[j]], frames_len),
    ensures
        !patched_at(meta, pushed, x),
{
    if patched_at(meta, pushed, x) {
        let j = choose|j: int|
            0 <= j < pushed.len() && (#[trigger] meta[pushed[j]]).patch && meta[pushed[j]].offset <= x < meta[pushed[j]].offset + 10;
        let mj = meta[pushed[j]];
        assert(live_frame(mj, frames_len));
        if pushed[j] != k {
            assert(meta[k].offset + meta[k].len <= mj.offset || mj.offset + mj.len <= meta[k].offset);
        }
    }
}

/// The render law: a poll hands out, in order, the live frames of the events its clock
/// releases, and each is the frame of its event rendered from the stream `gt`, carrying
/// the live session id wherever the event's frame carries the replay's own session, and
/// received on the event's feed. The transport goes on rendering truly.
pub proof fn law_poll_renders(gt: Seq<u8>, s: ReplayView, vclock: u64)
    requires
        renders_truly(gt, s),
        0 <= s.event_idx,
    ensures
        ({
            let pushed = release_run(s.meta, s.frames.len() as int, s.event_idx, vclock, Seq::empty()).1;
            let f2 = patch_frames(s.frames, s.meta, pushed, s.session@);
            let batch = batch_of(s.meta, pushed);
            &&& renders_truly(gt, ReplayView { frames: f2, ..s })
            &&& forall|j: int|
                0 <= j < batch.len() ==> {
                    let ev = s.events[pushed[j]];
                    &&& rendered(gt, ev, s.split, s.session) is Some
                    &&& f2.subrange((#[trigger] batch[j]).offset as int, batch[j].offset + batch[j].len) == rendered(
                        gt,
                        ev,
                        s.split,
                        s.session,
                    )->Some_0
                    &&& batch[j].feed == ev.feed
                }
        }),
{
    let flen = s.frames.len() as int;
    let pushed = release_run(s.meta, flen, s.event_idx, vclock, Seq::empty()).1;
    lemma_release_run(s.meta, flen, s.event_idx, vclock, Seq::empty());
    lemma_patch_frames(s.frames, s.meta, pushed, s.session@);
    let f2 = patch_frames(s.frames, s.meta, pushed, s.session@);
    let batch = batch_of(s.meta, pushed);
    assert forall|k: int| 0 <= k < s.meta.len() implies frame_holds(
        gt,
        #[trigger] s.events[k],
        s.split,
        s.session,
        s.meta[k],
        f2,
    ) by {
        let m = s.meta[k];
        if m.len > 0 {
            assert(frame_holds(gt, s.events[k], s.split, s.session, m, s.frames));
            assert forall|x: int| m.offset + 10 <= x < m.offset + m.len implies #[trigger] f2[x] == s.frames[x] by {
                lemma_frame_untouched(s.meta, pushed, flen, k, x);
            }
            assert(f2.subrange(m.offset + 10, m.offset + m.len) =~= s.frames.subrange(m.offset + 10, m.offset + m.len));
            if !m.patch {
                assert forall|x: int| m.offset <= x < m.offset + 10 implies #[trigger] f2[x] == s.frames[x] by {
                    lemma_frame_untouched(s.meta, pushed, flen, k, x);
                }
                assert(f2.subrange(m.offset as int, m.offset + 10) =~= s.frames.subrange(m.offset as int, m.offset + 10));
            }
        }
    }
    assert forall|j: int| 0 <= j < batch.len() implies {
        let ev = s.events[pushed[j]];
        &&& rendered(gt, ev, s.split, s.session) is Some
        &&& f2.subrange((#[trigger] batch[j]).offset as int, batch[j].offset + batch[j].len) == rendered(
            gt,
            ev,
            s.split,
            s.session,
        )->Some_0
        &&& batch[j].feed == ev.feed
    } by {
        let k = pushed[j];
        let m = s.meta[k];
        let ev = s.events[k];
        assert(live_frame(m, flen));
        assert(frame_holds(gt, ev, s.split, s.session, m, f2));
        let bytes = rendered(gt, ev, s.split, s.session)->Some_0;
        lemma_rendered_session(gt, ev, s.split, s.session, s.session);
        assert(batch[j] == crate::transport::render::view_of(m));
        let whole = f2.subrange(m.offset as int, m.offset + m.len);
        if m.patch {
            assert(f2.subrange(m.offset as int, m.offset + 10) == s.session@);
        }
        assert(whole =~= f2.subrange(m.offset as int, m.offset + 10) + f2.subrange(m.offset + 10, m.offset + m.len));
        assert(bytes =~= bytes.take(10) + bytes.skip(10));
    }
}

/// A frame description made at construction holds its event as rendered.
pub proof fn lemma_describes_holds(
    gt: Seq<u8>,
    ev: SchedEvent,
    split: Option<(u64, [u8; 10])>,
    session: [u8; 10],
    m: FrameMeta,
    frames: Seq<u8>,
    triples: Seq<(u64, u32, u32)>,
)
    requires
        meta_describes(gt, ev, split, session, m, frames, triples),
    ensures
        frame_holds(gt, ev, split, session, m, frames),
        m.feed == ev.feed,
{
    if m.len > 0 {
        lemma_rendered_session(gt, ev, split, session, session);
        let bytes = rendered(gt, ev, split, session)->Some_0;
        let st = stored(bytes, patch_flag(ev, split));
        let part = frames.subrange(m.offset as int, m.offset + m.len);
        assert(part == st);
        assert(frames.subrange(m.offset + 10, m.offset + m.len) =~= part.skip(10));
        assert(st.skip(10) =~= bytes.skip(10));
        if !m.patch {
            assert(frames.subrange(m.offset as int, m.offset + 10) =~= part.take(10));
        }
    }
}

/// Rewinding under a new session keeps the transport rendering truly.
pub proof fn law_reset_renders(gt: Seq<u8>, s: ReplayView, session: [u8; 10], vclock: u64)
    requires
        renders_truly(gt, s),
    ensures
        renders_truly(gt, ReplayView { event_idx: 0, vclock, session, clamp: None, ..s }),
{
    assert forall|k: int| 0 <= k < s.meta.len() implies frame_holds(
        gt,
        #[trigger] s.events[k],
        s.split,
        session,
        s.meta[k],
        s.frames,
    ) by {
        assert(frame_holds(gt, s.events[k], s.split, s.session, s.meta[k], s.frames));
        lemma_rendered_session(gt, s.events[k], s.split, s.session, session);
    }
}

/// The payload of the length-prefixed block at offset `o` of `gt`.
pub open spec fn payload_at(gt: Seq<u8>, o: int) -> Seq<u8> {
    gt.subrange(o + 2, o + 2 + be_u16(gt[o], gt[o + 1]))
}

/// Message `j` of the ground-truth stream: the payload of the block reached after `j`
/// blocks (empty when the walk cannot get there).
pub open spec fn gt_msg(gt: Seq<u8>, j: nat) -> Seq<u8> {
    match walk_blocks(gt, 0, j) {
        Some(o) => payload_at(gt, o),
        None => Seq::empty(),
    }
}

/// Walking the `n` nonempty blocks of `gt` from `start` to where they end, as a frame's
/// body, gives back their payloads without error.
pub proof fn lemma_walk_back(gt: Seq<u8>, start: int, n: nat)
    requires
        0 <= start,
        walk_blocks(gt, start, n) matches Some(end) && end <= gt.len(),
        forall|k: nat| k < n ==> (#[trigger] walk_blocks(gt, start, k) matches Some(o) && be_u16(gt[o], gt[o + 1]) != 0),
    ensures
        ({
            let end = walk_blocks(gt, start, n)->0;
            lenient_blocks(gt.subrange(start, end), n) == (
                Seq::new(n, |k: int| payload_at(gt, walk_blocks(gt, start, k as nat)->0)),
                None::<crate::protocol::moldudp64::FrameError>,
            )
        }),
    decreases n,
{
    let end = walk_blocks(gt, start, n)->0;
    let r = gt.subrange(start, end);
    if n == 0 {
        assert(r.len() == 0);
        assert(Seq::new(0, |k: int| payload_at(gt, walk_blocks(gt, start, k as nat)->0)) =~= Seq::<Seq<u8>>::empty());
    } else {
        assert(start + 2 <= gt.len());
        let len0 = be_u16(gt[start], gt[start + 1]) as int;
        let start1 = start + 2 + len0;
        assert(walk_blocks(gt, start, 0nat) == Some(start));
        assert(len0 != 0);
        lemma_walk_grows(gt, start1, (n - 1) as nat);
        assert(end >= start1);
        assert forall|k: nat| k < (n - 1) as nat implies (#[trigger] walk_blocks(gt, start1, k) matches Some(o)
            && be_u16(gt[o], gt[o + 1]) != 0) by {
            assert(walk_blocks(gt, start, k + 1) == walk_blocks(gt, start1, k));
        }
        lemma_walk_back(gt, start1, (n - 1) as nat);
        assert(r[0] == gt[start] && r[1] == gt[start + 1]);
        assert(r.skip(2 + len0) =~= gt.subrange(start1, end));
        assert(r.subrange(2, 2 + len0) =~= payload_at(gt, start));
        let tail = Seq::new((n - 1) as nat, |k: int| payload_at(gt, walk_blocks(gt, start1, k as nat)->0));
        let all = Seq::new(n, |k: int| payload_at(gt, walk_blocks(gt, start, k as nat)->0));
        assert forall|k: int| 0 <= k < all.len() implies all[k] == (seq![payload_at(gt, start)] + tail)[k] by {
            if k > 0 {
                assert(walk_blocks(gt, start, k as nat) == walk_blocks(gt, start1, (k - 1) as nat));
            }
        }
        assert(all =~= seq![payload_at(gt, start)] + tail);
    }
}

/// The replay law: a packet the transport renders from a ground-truth stream carries its
/// messages unchanged. Walked by the sequencer's block walk, its body gives back
/// messages `first_msg, ..., first_msg + count - 1` of the stream, in order and without
/// error, provided none of them is empty (an empty message is a framing error on the
/// wire).
pub proof fn law_rendered_walks_back(
    gt: Seq<u8>,
    ev: SchedEvent,
    split: Option<(u64, [u8; 10])>,
    session: [u8; 10],
)
    requires
        ev.kind is Packet,
        rendered(gt, ev, split, session) is Some,
        forall|k: nat| k < ev.kind->count ==> (#[trigger] gt_msg(gt, (ev.kind->first_msg + k) as nat)).len() > 0,
    ensures
        ({
            let f = rendered(gt, ev, split, session)->0;
            let count = ev.kind->count;
            let first = ev.kind->first_msg;
            &&& f.take(HEADER_LEN as int) == event_header(ev, effective_session(ev, split, session)@)
            &&& lenient_blocks(f.skip(HEADER_LEN as int), count as nat) == (
                Seq::new(count as nat, |k: int| gt_msg(gt, (first + k) as nat)),
                None::<crate::protocol::moldudp64::FrameError>,
            )
        }),
{
    let f = rendered(gt, ev, split, session)->0;
    let count = ev.kind->count;
    let first = ev.kind->first_msg;
    let hdr = event_header(ev, effective_session(ev, split, session)@);
    let start = walk_blocks(gt, 0, first as nat)->0;
    let end = walk_blocks(gt, start, count as nat)->0;
    assert(hdr.len() == HEADER_LEN);
    assert(f == hdr + gt.subrange(start, end));
    assert(f.take(HEADER_LEN as int) =~= hdr);
    assert(f.skip(HEADER_LEN as int) =~= gt.subrange(start, end));
    lemma_walk_grows(gt, 0, first as nat);
    assert forall|k: nat| k < count ==> (#[trigger] walk_blocks(gt, start, k) matches Some(o) && be_u16(gt[o], gt[o + 1])
        != 0) by {
        if k < count {
            lemma_walk_compose(gt, 0, first as nat, k);
            lemma_walk_compose(gt, start, k, (count - k) as nat);
            assert(k + (count - k) as nat == count as nat);
            assert(gt_msg(gt, (first + k) as nat).len() > 0);
            let o = walk_blocks(gt, start, k)->0;
            lemma_walk_grows(gt, o, (count - k) as nat);
        }
    }
    lemma_walk_back(gt, start, count as nat);
    let a = Seq::new(count as nat, |k: int| payload_at(gt, walk_blocks(gt, start, k as nat)->0));
    let b = Seq::new(count as nat, |k: int| gt_msg(gt, (first + k) as nat));
    assert forall|k: int| 0 <= k < count implies a[k] == b[k] by {
        lemma_walk_compose(gt, 0, first as nat, k as nat);
        assert((first + k) as nat == first as nat + k as nat);
    }
    assert(a =~= b);
}

} // verus!
