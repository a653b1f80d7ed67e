//! Fidelity of the output stream: when every frame tells the truth about the messages
//! it carries, every message the sequencer emits is the true payload of its number.
//!
//! The truth is a function from a session and a sequence number to the payload the
//! venue published under that number. Frames may be lost, duplicated, reordered or cut
//! short; the law only asks that what a data frame does carry is true.

use vstd::prelude::*;
use crate::arbitrator::types::SinkItem;
use crate::arbitrator::window::{
    clear_effect, clear_run, drain_run, lemma_occupied_update, lemma_occupied_zero_means_empty, nz,
    occupied, slot_of, stage_effect,
};
use vstd::arithmetic::div_mod::{lemma_add_mod_noop, lemma_fundamental_div_mod, lemma_mod_bound};
use crate::arbitrator::transition::{
    after_end, classic_apply, classic_data, close_step, contig_finish, contig_step, dispatch_step,
    drain_step, emit_run, entry_step, eos_step, frame_header, frame_prelude, gap_finish, gap_step,
    heartbeat_step, settle_pending, spec_ingest, stage_run, violated, view_wf, SequencerView,
};
use crate::arbitrator::counters::{inc, Counters};
use crate::arbitrator::conformance::{ends_below, seq_bound};
use crate::arbitrator::session::is_unset;
use crate::arbitrator::state::State;
use crate::arbitrator::types::{FeedId, SequencerMutation};
use crate::protocol::moldudp64::{span_of, Header, EOS_COUNT, HEADER_LEN, HEARTBEAT_COUNT};
use crate::protocol::packet::{lenient_blocks, numbered_visits};
use crate::protocol::itch5::{spec_msg_len, spec_validate};

verus! {

/// Highest sequence number the fidelity law follows, plus one: the bound a covered data
/// frame ends below.
pub open spec fn fidelity_bound() -> int {
    seq_bound()
}

/// The bytes window slot `i` holds: its stored length, from the slot's start.
pub open spec fn slot_bytes(lens: Seq<u8>, arena: Seq<u8>, i: int) -> Seq<u8> {
    arena.subrange(i * 64, i * 64 + lens[i] - 1)
}

/// The window has 1024 slots over a 64 KiB arena and every slot holds at most 64 bytes.
pub open spec fn window_shape(lens: Seq<u8>, arena: Seq<u8>) -> bool {
    &&& lens.len() == 1024
    &&& arena.len() == 65536
    &&& forall|i: int| 0 <= i < 1024 ==> #[trigger] lens[i] <= 65
}

/// Every message the window holds for a number of `[w, w + 1024)` is the true payload of
/// that number in `session`, and lies below the fidelity bound.
pub open spec fn window_holds(
    lens: Seq<u8>,
    arena: Seq<u8>,
    w: u64,
    session: Seq<u8>,
    truth: spec_fn(Seq<u8>, u64) -> Seq<u8>,
) -> bool {
    forall|n: u64|
        w <= n < w + 1024 && #[trigger] lens[slot_of(n)] != 0 ==> n < fidelity_bound() && slot_bytes(
            lens,
            arena,
            slot_of(n),
        ) == truth(session, n)
}

/// The item is no message, or a message carrying the true payload of its number.
pub open spec fn item_true(item: SinkItem, session: Seq<u8>, truth: spec_fn(Seq<u8>, u64) -> Seq<u8>) -> bool {
    match item {
        SinkItem::Msg { seq, data, .. } => data == truth(session, seq),
        SinkItem::Ev(_) => true,
    }
}

/// Every message among `items` carries the true payload of its number in `session`.
pub open spec fn items_true(items: Seq<SinkItem>, session: Seq<u8>, truth: spec_fn(Seq<u8>, u64) -> Seq<u8>) -> bool {
    forall|k: int| 0 <= k < items.len() ==> item_true(#[trigger] items[k], session, truth)
}

/// Numbers less than a window apart sit in different slots; numbers a window apart share
/// one.
pub proof fn lemma_slots(a: u64, b: u64)
    ensures
        a < b < a + 1024 ==> slot_of(a) != slot_of(b),
        b == a + 1024 ==> slot_of(a) == slot_of(b),
{
    assert(a < b < a + 1024 ==> a % 1024 != b % 1024) by (nonlinear_arith);
    assert(b == a + 1024 ==> a % 1024 == b % 1024) by (nonlinear_arith);
}

/// Draining from `w` emits only true messages and leaves the window true from wherever
/// the watermark stops, which is at most the fidelity bound.
pub proof fn lemma_drain_true(
    lens: Seq<u8>,
    arena: Seq<u8>,
    w: u64,
    staged: u32,
    gen: u64,
    session: Seq<u8>,
    truth: spec_fn(Seq<u8>, u64) -> Seq<u8>,
)
    requires
        window_shape(lens, arena),
        window_holds(lens, arena, w, session, truth),
        w <= fidelity_bound(),
    ensures
        ({
            let (l, w2, s2, out) = drain_run(lens, arena, w, staged, gen);
            &&& window_shape(l, arena)
            &&& window_holds(l, arena, w2, session, truth)
            &&& w <= w2 <= fidelity_bound()
            &&& items_true(out, session, truth)
        }),
    decreases staged,
{
    let slot = slot_of(w);
    if staged != 0 && lens[slot] != 0 {
        let l2 = lens.update(slot, 0);
        let w1 = w.wrapping_add(1);
        assert(w < fidelity_bound());
        assert(w1 == w + 1);
        assert forall|n: u64| w1 <= n < w1 + 1024 && #[trigger] l2[slot_of(n)] != 0 implies n
            < fidelity_bound() && slot_bytes(l2, arena, slot_of(n)) == truth(session, n) by {
            lemma_slots(w, n);
            assert(lens[slot_of(n)] != 0);
            assert(slot_bytes(l2, arena, slot_of(n)) == slot_bytes(lens, arena, slot_of(n)));
        }
        assert forall|i: int| 0 <= i < 1024 implies #[trigger] l2[i] <= 65 by {
            assert(lens[i] <= 65);
        }
        lemma_drain_true(l2, arena, w1, (staged - 1) as u32, gen, session, truth);
        let item = SinkItem::Msg { gen, seq: w, data: slot_bytes(lens, arena, slot) };
        let rest = drain_run(l2, arena, w1, (staged - 1) as u32, gen).3;
        let out = drain_run(lens, arena, w, staged, gen).3;
        assert(out == seq![item] + rest);
        assert forall|k: int| 0 <= k < out.len() implies item_true(#[trigger] out[k], session, truth) by {
            if k > 0 {
                assert(out[k] == rest[k - 1]);
            }
        }
    }
}

/// Staging the true payload of a number inside the window keeps the window true.
pub proof fn lemma_stage_true(
    lens: Seq<u8>,
    arena: Seq<u8>,
    staged: u32,
    w: u64,
    seq: u64,
    data: Seq<u8>,
    session: Seq<u8>,
    truth: spec_fn(Seq<u8>, u64) -> Seq<u8>,
)
    requires
        window_shape(lens, arena),
        window_holds(lens, arena, w, session, truth),
        w < seq < w + 1024,
        seq < fidelity_bound(),
        data.len() <= 64,
        data == truth(session, seq),
    ensures
        ({
            let (ok, l2, a2, s2) = stage_effect(lens, arena, staged, w, seq, data);
            &&& ok
            &&& window_shape(l2, a2)
            &&& window_holds(l2, a2, w, session, truth)
        }),
{
    let (ok, l2, a2, s2) = stage_effect(lens, arena, staged, w, seq, data);
    let slot = slot_of(seq);
    let len = data.len() as int;
    let start = slot * 64;
    assert(seq.wrapping_sub(w) == seq - w);
    assert(ok);
    assert(l2 == lens.update(slot, (len + 1) as u8));
    assert(a2 == arena.subrange(0, start) + data.subrange(0, len) + arena.subrange(start + len, 65536));
    assert forall|i: int| 0 <= i < 1024 implies #[trigger] l2[i] <= 65 by {
        assert(lens[i] <= 65);
    }
    assert forall|n: u64| w <= n < w + 1024 && #[trigger] l2[slot_of(n)] != 0 implies n < fidelity_bound()
        && slot_bytes(l2, a2, slot_of(n)) == truth(session, n) by {
        if n < seq {
            lemma_slots(n, seq);
        } else if n > seq {
            lemma_slots(seq, n);
        }
        if n == seq {
            assert(slot_bytes(l2, a2, slot) =~= data);
        } else {
            let j = slot_of(n);
            assert(lens[j] != 0);
            assert(lens[j] <= 65);
            assert(slot_bytes(l2, a2, j) =~= slot_bytes(lens, arena, j));
        }
    }
}

/// A valid ITCH message is at most 50 bytes long.
pub proof fn lemma_valid_len(data: Seq<u8>)
    requires
        spec_validate(data) is Ok,
    ensures
        data.len() <= 50,
{
    assert(spec_msg_len(data[0]) matches Some(n) && n <= 50);
}

/// Every block is numbered inside `(w, fidelity_bound())` and carries the true payload of
/// its number.
pub open spec fn blocks_true(
    blocks: Seq<(u64, Seq<u8>)>,
    w: u64,
    session: Seq<u8>,
    truth: spec_fn(Seq<u8>, u64) -> Seq<u8>,
) -> bool {
    forall|k: int|
        0 <= k < blocks.len() ==> w < (#[trigger] blocks[k]).0 < fidelity_bound() && blocks[k].1 == truth(
            session,
            blocks[k].0,
        )
}

/// Staging true blocks below a clamp at most a window past `w` keeps the window true.
pub proof fn lemma_stage_run_true(
    blocks: Seq<(u64, Seq<u8>)>,
    lens: Seq<u8>,
    arena: Seq<u8>,
    staged: u32,
    c: Counters,
    w: u64,
    clamp: u64,
    session: Seq<u8>,
    truth: spec_fn(Seq<u8>, u64) -> Seq<u8>,
)
    requires
        window_shape(lens, arena),
        window_holds(lens, arena, w, session, truth),
        clamp <= w + 1024,
        blocks_true(blocks, w, session, truth),
    ensures
        ({
            let (l, a, s2, c2, err) = stage_run(blocks, lens, arena, staged, c, w, clamp);
            window_shape(l, a) && window_holds(l, a, w, session, truth)
        }),
    decreases blocks.len(),
{
    if blocks.len() > 0 {
        let (seq, data) = blocks[0];
        assert(w < blocks[0].0 < fidelity_bound());
        let rest = blocks.drop_first();
        assert forall|k: int| 0 <= k < rest.len() implies w < (#[trigger] rest[k]).0 < fidelity_bound()
            && rest[k].1 == truth(session, rest[k].0) by {
            assert(rest[k] == blocks[k + 1]);
        }
        if spec_validate(data) is Ok {
            if seq < clamp {
                lemma_valid_len(data);
                lemma_stage_true(lens, arena, staged, w, seq, data, session, truth);
                let (ok, l2, a2, s2) = stage_effect(lens, arena, staged, w, seq, data);
                let c2 = if ok {
                    Counters { staged_msgs: inc(c.staged_msgs), ..c }
                } else {
                    Counters { beyond_window_dropped: inc(c.beyond_window_dropped), ..c }
                };
                lemma_stage_run_true(rest, l2, a2, s2, c2, w, clamp, session, truth);
            } else {
                let c2 = Counters { beyond_window_dropped: inc(c.beyond_window_dropped), ..c };
                lemma_stage_run_true(rest, lens, arena, staged, c2, w, clamp, session, truth);
            }
        }
    }
}

/// A number `n` at least a window past `a` shares its slot with `a + j` for a `j` below
/// 1024, and `a + j` lies at least a window below `n`.
pub proof fn lemma_wrap_pos(a: u64, n: u64) -> (j: int)
    requires
        a + 1024 <= n,
    ensures
        0 <= j < 1024,
        (slot_of(a) + j) % 1024 == slot_of(n),
        a + j + 1024 <= n,
{
    let d = n - a;
    let j = d % 1024;
    lemma_mod_bound(d, 1024);
    lemma_add_mod_noop(a as int, d, 1024);
    lemma_fundamental_div_mod(d, 1024);
    j
}

/// Clearing positions `start + i, ..., start + n - 1` (modulo 1024) leaves each slot
/// cleared or as it was, and clears every one of those positions.
pub proof fn lemma_clear_run(lens: Seq<u8>, staged: u32, max_staged: u64, start: int, i: int, n: int)
    requires
        lens.len() == 1024,
        staged == occupied(lens),
        0 <= start < 1024,
        0 <= i <= n,
    ensures
        ({
            let l = clear_run(lens, staged, max_staged, start, i, n).0;
            &&& l.len() == 1024
            &&& forall|k: int| 0 <= k < 1024 ==> #[trigger] l[k] == 0 || l[k] == lens[k]
            &&& forall|j: int| i <= j < n ==> #[trigger] l[(start + j) % 1024] == 0
        }),
    decreases n - i,
{
    if i < n {
        let slot = (start + i) % 1024;
        if lens[slot] != 0 {
            let l2 = lens.update(slot, 0);
            lemma_occupied_update(lens, slot, 0);
            let s2 = (staged - 1) as u32;
            assert(occupied(l2) == s2);
            if s2 == 0 {
                assert forall|k: int| 0 <= k < 1024 implies #[trigger] l2[k] == 0 by {
                    lemma_occupied_zero_means_empty(l2, k);
                }
            } else {
                lemma_clear_run(l2, s2, max_staged, start, i + 1, n);
            }
        } else {
            lemma_clear_run(lens, staged, max_staged, start, i + 1, n);
        }
    }
}

/// Clearing the slots the watermark passes on its way from `old_w` to `new_w` leaves the
/// window true from `new_w`: a slot that survives holds a number of the new window.
pub proof fn lemma_clear_true(
    lens: Seq<u8>,
    arena: Seq<u8>,
    staged: u32,
    max_staged: u64,
    old_w: u64,
    new_w: u64,
    session: Seq<u8>,
    truth: spec_fn(Seq<u8>, u64) -> Seq<u8>,
)
    requires
        window_shape(lens, arena),
        staged == occupied(lens),
        window_holds(lens, arena, old_w, session, truth),
        old_w <= new_w <= fidelity_bound(),
    ensures
        ({
            let l = clear_effect(lens, staged, max_staged, old_w, new_w).0;
            window_shape(l, arena) && window_holds(l, arena, new_w, session, truth)
        }),
{
    let l = clear_effect(lens, staged, max_staged, old_w, new_w).0;
    if staged == 0 {
        assert forall|k: int| 0 <= k < 1024 implies #[trigger] lens[k] == 0 by {
            lemma_occupied_zero_means_empty(lens, k);
        }
    } else {
        assert(old_w.saturating_add(1024) == old_w + 1024);
        let limit: int = if new_w < old_w + 1024 { new_w as int } else { old_w + 1024 };
        if limit > old_w {
            lemma_clear_run(lens, staged, max_staged, slot_of(old_w), 0, limit - old_w);
            assert forall|i: int| 0 <= i < 1024 implies #[trigger] l[i] <= 65 by {
                assert(l[i] == 0 || l[i] == lens[i]);
                assert(lens[i] <= 65);
            }
            assert forall|n: u64| new_w <= n < new_w + 1024 && #[trigger] l[slot_of(n)] != 0 implies n
                < fidelity_bound() && slot_bytes(l, arena, slot_of(n)) == truth(session, n) by {
                assert(l[slot_of(n)] == 0 || l[slot_of(n)] == lens[slot_of(n)]);
                if n < old_w + 1024 {
                    assert(lens[slot_of(n)] != 0);
                    assert(slot_bytes(l, arena, slot_of(n)) == slot_bytes(lens, arena, slot_of(n)));
                } else {
                    let j = lemma_wrap_pos(old_w, n);
                    assert(l[(slot_of(old_w) + j) % 1024] == 0);
                }
            }
        }
    }
}

/// Emitting blocks that carry the true payloads of their numbers emits only true
/// messages.
pub proof fn lemma_emit_true(
    blocks: Seq<(u64, Seq<u8>)>,
    gen: u64,
    session: Seq<u8>,
    truth: spec_fn(Seq<u8>, u64) -> Seq<u8>,
)
    requires
        forall|k: int| 0 <= k < blocks.len() ==> (#[trigger] blocks[k]).1 == truth(session, blocks[k].0),
    ensures
        items_true(emit_run(blocks, gen).0, session, truth),
    decreases blocks.len(),
{
    if blocks.len() > 0 {
        let rest = blocks.drop_first();
        assert forall|k: int| 0 <= k < rest.len() implies (#[trigger] rest[k]).1 == truth(session, rest[k].0) by {
            assert(rest[k] == blocks[k + 1]);
        }
        lemma_emit_true(rest, gen, session, truth);
        let (seq, data) = blocks[0];
        assert(blocks[0].1 == truth(session, blocks[0].0));
        if spec_validate(data) is Ok {
            let out = emit_run(blocks, gen).0;
            let tail = emit_run(rest, gen).0;
            assert(out == seq![SinkItem::Msg { gen, seq, data }] + tail);
            assert forall|k: int| 0 <= k < out.len() implies item_true(#[trigger] out[k], session, truth) by {
                if k > 0 {
                    assert(out[k] == tail[k - 1]);
                }
            }
        }
    }
}

/// Joining two runs of true items gives a run of true items.
pub proof fn lemma_items_true_append(a: Seq<SinkItem>, b: Seq<SinkItem>, session: Seq<u8>, truth: spec_fn(Seq<u8>, u64) -> Seq<u8>)
    requires
        items_true(a, session, truth),
        items_true(b, session, truth),
    ensures
        items_true(a + b, session, truth),
{
    assert forall|k: int| 0 <= k < (a + b).len() implies item_true(#[trigger] (a + b)[k], session, truth) by {
        if k < a.len() {
            assert((a + b)[k] == a[k]);
        } else {
            assert((a + b)[k] == b[k - a.len()]);
        }
    }
}

/// The lenient walk finds at most as many blocks as it was asked for.
pub proof fn lemma_lenient_at_most(rest: Seq<u8>, n: nat)
    ensures
        lenient_blocks(rest, n).0.len() <= n,
    decreases n,
{
    if n > 0 && rest.len() >= 2 {
        let len = crate::protocol::bytes::be_u16(rest[0], rest[1]) as int;
        if len != 0 && rest.len() >= 2 + len {
            lemma_lenient_at_most(rest.skip(2 + len), (n - 1) as nat);
        }
    }
}

/// Numbering payloads that are true from `s` on, skipping the first `skip`, gives pairs
/// that carry the true payloads of their numbers, numbered inside `[s, s + msgs.len())`.
pub proof fn lemma_visits_true(
    msgs: Seq<Seq<u8>>,
    s: u64,
    skip: nat,
    session: Seq<u8>,
    truth: spec_fn(Seq<u8>, u64) -> Seq<u8>,
)
    requires
        s + msgs.len() <= u64::MAX + 1,
        forall|k: int| 0 <= k < msgs.len() ==> #[trigger] msgs[k] == truth(session, (s + k) as u64),
    ensures
        ({
            let v = numbered_visits(msgs, s, skip);
            forall|k: int|
                0 <= k < v.len() ==> s <= (#[trigger] v[k]).0 < s + msgs.len() && v[k].1 == truth(session, v[k].0)
        }),
    decreases msgs.len(),
{
    if msgs.len() > 0 {
        let rest = msgs.drop_first();
        let s1 = s.wrapping_add(1);
        if rest.len() > 0 {
            assert(s1 == s + 1);
        }
        assert forall|k: int| 0 <= k < rest.len() implies #[trigger] rest[k] == truth(session, (s1 + k) as u64) by {
            assert(rest[k] == msgs[k + 1]);
        }
        let v = numbered_visits(msgs, s, skip);
        if skip > 0 {
            lemma_visits_true(rest, s1, (skip - 1) as nat, session, truth);
            assert(v == numbered_visits(rest, s1, (skip - 1) as nat));
            if rest.len() == 0 {
                assert(v.len() == 0);
            }
        } else {
            lemma_visits_true(rest, s1, 0, session, truth);
            let tail = numbered_visits(rest, s1, 0);
            assert(msgs[0] == truth(session, (s + 0) as u64));
            assert(v == seq![(s, msgs[0])] + tail);
            assert forall|k: int| 0 <= k < v.len() implies s <= (#[trigger] v[k]).0 < s + msgs.len() && v[k].1
                == truth(session, v[k].0) by {
                if k > 0 {
                    assert(v[k] == tail[k - 1]);
                }
            }
        }
    }
}

/// The sequencer holds nothing but the truth: its watermark is below the fidelity bound,
/// its window is empty before the first data frame of a session and while no session is
/// known, and every message its window holds is the true payload of its number in the
/// current session.
pub open spec fn view_true(s: SequencerView, truth: spec_fn(Seq<u8>, u64) -> Seq<u8>) -> bool {
    &&& s.w <= fidelity_bound()
    &&& (s.state == State::Init || is_unset(s.session)) ==> forall|i: int| 0 <= i < 1024 ==> #[trigger] s.lens[i] == 0
    &&& window_holds(s.lens, s.arena, s.w, s.session@, truth)
}

/// A frame that tells the truth: a data frame names a session, is numbered below the
/// conformance bound, and every block it carries is the true payload of its number.
/// Heartbeats, ends of session and short frames carry no payload and always qualify.
pub open spec fn faithful_frame(frame: Seq<u8>, truth: spec_fn(Seq<u8>, u64) -> Seq<u8>) -> bool {
    let hdr = frame_header(frame);
    let ms = lenient_blocks(frame.skip(HEADER_LEN as int), hdr.count as nat).0;
    frame.len() >= HEADER_LEN && hdr.count != HEARTBEAT_COUNT && hdr.count != EOS_COUNT ==> {
        &&& !is_unset(hdr.session)
        &&& ends_below(hdr.seq, hdr.count)
        &&& forall|k: int| 0 <= k < ms.len() ==> #[trigger] ms[k] == truth(hdr.session@, (hdr.seq + k) as u64)
    }
}

/// Draining keeps the sequencer true and emits only true messages.
pub proof fn lemma_drain_step_true(s: SequencerView, gen: u64, now: u64, truth: spec_fn(Seq<u8>, u64) -> Seq<u8>)
    requires
        window_shape(s.lens, s.arena),
        view_true(s, truth),
    ensures
        ({
            let (s1, out) = drain_step(s, gen, now);
            &&& window_shape(s1.lens, s1.arena)
            &&& view_true(s1, truth)
            &&& items_true(out, s.session@, truth)
        }),
{
    lemma_drain_true(s.lens, s.arena, s.w, s.staged_count, gen, s.session@, truth);
    let (s1, out) = drain_step(s, gen, now);
    if s.state == State::Init || is_unset(s.session) {
        assert forall|i: int| 0 <= i < 1024 implies #[trigger] s1.lens[i] == 0 by {
            assert(s.lens[i] == 0);
        }
    }
}

/// Closing a gap emits no message.
pub proof fn lemma_close_true(s: SequencerView, gen: u64, session: Seq<u8>, truth: spec_fn(Seq<u8>, u64) -> Seq<u8>)
    ensures
        items_true(close_step(s, gen).1, session, truth),
        close_step(s, gen).0.state == State::Init ==> s.state == State::Init,
{
    let out = close_step(s, gen).1;
    assert forall|k: int| 0 <= k < out.len() implies item_true(#[trigger] out[k], session, truth) by {
        assert(out[k] is Ev);
    }
}

/// Moving the watermark past `last` after emitting up to it keeps the sequencer true:
/// the slots passed are cleared, the window drains true messages and a gap may close.
pub proof fn lemma_contig_finish_true(s: SequencerView, last: u64, now: u64, truth: spec_fn(Seq<u8>, u64) -> Seq<u8>)
    requires
        view_wf(s),
        view_true(s, truth),
        s.mutation != SequencerMutation::DisableClearOnAdvance,
        s.state != State::Init,
        !is_unset(s.session),
        s.w <= last,
        last < fidelity_bound(),
    ensures
        ({
            let (s1, out) = contig_finish(s, last, now);
            &&& window_shape(s1.lens, s1.arena)
            &&& view_true(s1, truth)
            &&& items_true(out, s.session@, truth)
            &&& s1.session == s.session
            &&& s1.state != State::Init
        }),
{
    let w1 = last.wrapping_add(1);
    assert(w1 == last + 1);
    lemma_clear_true(s.lens, s.arena, s.staged_count, s.max_staged, s.w, w1, s.session@, truth);
    let (l1, sc1, m1) = crate::arbitrator::window::clear_effect(s.lens, s.staged_count, s.max_staged, s.w, w1);
    let s2 = SequencerView { w: w1, lens: l1, staged_count: sc1, max_staged: m1, progress_vt: now, ..s };
    assert(view_true(s2, truth));
    lemma_drain_step_true(s2, s.gen, now, truth);
    let (s3, out2) = drain_step(s2, s.gen, now);
    lemma_close_true(s3, s.gen, s.session@, truth);
    let (s4, out3) = close_step(s3, s.gen);
    lemma_items_true_append(out2, out3, s.session@, truth);
}

/// Settling a frame beyond the watermark keeps the sequencer true: the window drains
/// true messages and a gap may close.
pub proof fn lemma_gap_finish_true(s: SequencerView, last: u64, now: u64, truth: spec_fn(Seq<u8>, u64) -> Seq<u8>)
    requires
        window_shape(s.lens, s.arena),
        view_true(s, truth),
        s.state != State::Init,
        !is_unset(s.session),
    ensures
        ({
            let (s1, out) = gap_finish(s, last, now);
            &&& view_true(s1, truth)
            &&& items_true(out, s.session@, truth)
            &&& s1.session == s.session
        }),
{
    let h2 = if last >= s.w.wrapping_add(1024) {
        let l1 = last.wrapping_add(1);
        if s.evidence_hwm >= l1 { s.evidence_hwm } else { l1 }
    } else {
        s.evidence_hwm
    };
    let s3 = SequencerView {
        evidence_hwm: h2,
        max_staged: if s.max_staged >= last { s.max_staged } else { last },
        ..s
    };
    lemma_drain_step_true(s3, s3.gen, now, truth);
    let (s4, out2) = drain_step(s3, s3.gen, now);
    lemma_close_true(s4, s4.gen, s.session@, truth);
    let (s5, out3) = close_step(s4, s4.gen);
    lemma_items_true_append(out2, out3, s.session@, truth);
}

/// Applying a frame that reaches the watermark, whose blocks carry true payloads, keeps
/// the sequencer true and emits only true messages.
pub proof fn lemma_contig_step_true(
    s: SequencerView,
    todo: Seq<(u64, Seq<u8>)>,
    ferr: Option<crate::protocol::moldudp64::FrameError>,
    skip: u64,
    last: u64,
    now: u64,
    truth: spec_fn(Seq<u8>, u64) -> Seq<u8>,
)
    requires
        view_wf(s),
        view_true(s, truth),
        s.mutation != SequencerMutation::DisableClearOnAdvance,
        s.state != State::Init,
        !is_unset(s.session),
        s.w <= last,
        last < fidelity_bound(),
        forall|k: int| 0 <= k < todo.len() ==> (#[trigger] todo[k]).1 == truth(s.session@, todo[k].0),
    ensures
        ({
            let (s1, out) = contig_step(s, todo, ferr, skip, last, now);
            &&& view_true(s1, truth)
            &&& items_true(out, s.session@, truth)
            &&& s1.session == s.session
        }),
{
    lemma_emit_true(todo, s.gen, s.session@, truth);
    let (out, perr) = emit_run(todo, s.gen);
    let c1 = Counters {
        dup_msgs: s.counters.dup_msgs.wrapping_add(skip),
        msgs_emitted: s.counters.msgs_emitted.wrapping_add(out.len() as u64),
        ..s.counters
    };
    let sc = SequencerView { counters: c1, ..s };
    lemma_contig_finish_true(sc, last, now, truth);
    let (s1, out1) = contig_finish(sc, last, now);
    lemma_items_true_append(out, out1, s.session@, truth);
}

/// Applying a frame that starts beyond the watermark, whose blocks are numbered inside
/// the window's reach and carry true payloads, keeps the sequencer true and emits only
/// true messages.
pub proof fn lemma_gap_step_true(
    s: SequencerView,
    todo: Seq<(u64, Seq<u8>)>,
    ferr: Option<crate::protocol::moldudp64::FrameError>,
    first: u64,
    last: u64,
    now: u64,
    truth: spec_fn(Seq<u8>, u64) -> Seq<u8>,
)
    requires
        window_shape(s.lens, s.arena),
        view_true(s, truth),
        s.state != State::Init,
        !is_unset(s.session),
        blocks_true(todo, s.w, s.session@, truth),
    ensures
        ({
            let (s1, out) = gap_step(s, todo, ferr, first, last, now);
            &&& view_true(s1, truth)
            &&& items_true(out, s.session@, truth)
            &&& s1.session == s.session
        }),
{
    let (ga, g, h, st, c, out1) = crate::arbitrator::gap::gap_evidence_effect(
        s.gap_active,
        s.gen,
        s.evidence_hwm,
        s.w,
        first,
        s.state,
        s.counters,
    );
    assert forall|k: int| 0 <= k < out1.len() implies item_true(#[trigger] out1[k], s.session@, truth) by {
        assert(out1[k] is Ev);
    }
    let clamp = if s.mutation == SequencerMutation::OffByOneClamp {
        s.w.wrapping_add(512)
    } else {
        s.w.wrapping_add(1024)
    };
    assert(clamp <= s.w + 1024);
    lemma_stage_run_true(todo, s.lens, s.arena, s.staged_count, c, s.w, clamp, s.session@, truth);
    let (l, a, sc, c2, perr) = stage_run(todo, s.lens, s.arena, s.staged_count, c, s.w, clamp);
    let s2 = SequencerView {
        gap_active: ga,
        gen: g,
        evidence_hwm: h,
        state: st,
        lens: l,
        arena: a,
        staged_count: sc,
        counters: c2,
        ..s
    };
    assert(view_true(s2, truth));
    lemma_gap_finish_true(s2, last, now, truth);
    let (s3, out2) = gap_finish(s2, last, now);
    lemma_items_true_append(out1, out2, s.session@, truth);
}

/// A data frame in a live session of the sequencer, telling the truth, keeps the
/// sequencer true and emits only true messages.
pub proof fn lemma_data_true(
    s: SequencerView,
    frame: Seq<u8>,
    feed: FeedId,
    now: u64,
    hdr: Header,
    truth: spec_fn(Seq<u8>, u64) -> Seq<u8>,
)
    requires
        view_wf(s),
        view_true(s, truth),
        s.mutation != SequencerMutation::DisableClearOnAdvance,
        faithful_frame(frame, truth),
        frame.len() >= HEADER_LEN,
        hdr == frame_header(frame),
        hdr.count != HEARTBEAT_COUNT,
        hdr.count != EOS_COUNT,
        s.session@ == hdr.session@,
    ensures
        ({
            let (s1, out) = classic_data(s, frame, feed, now, hdr);
            &&& view_true(s1, truth)
            &&& items_true(out, s.session@, truth)
            &&& s1.session == s.session
        }),
{
    if s.state != State::Ended {
        if let Some((first, last)) = span_of(hdr.seq, hdr.count) {
            let (apply, s2) = entry_step(s, feed, hdr.count, first, last, now);
            if apply {
                assert(s2.state != State::Init);
                assert(s2.w <= last);
                assert(view_true(s2, truth));
                let rest = frame.skip(HEADER_LEN as int);
                let (ms, ferr) = lenient_blocks(rest, hdr.count as nat);
                lemma_lenient_at_most(rest, hdr.count as nat);
                assert(first + ms.len() <= last + 1);
                assert(last < fidelity_bound());
                assert forall|k: int| 0 <= k < ms.len() implies #[trigger] ms[k] == truth(
                    s.session@,
                    (first + k) as u64,
                ) by {}
                if first <= s2.w {
                    let skip = if s2.w - first < hdr.count {
                        (s2.w - first) as u64
                    } else {
                        hdr.count as u64
                    };
                    lemma_visits_true(ms, first, skip as nat, s.session@, truth);
                    lemma_contig_step_true(
                        s2,
                        numbered_visits(ms, first, skip as nat),
                        ferr,
                        skip,
                        last,
                        now,
                        truth,
                    );
                } else {
                    lemma_visits_true(ms, first, 0, s.session@, truth);
                    lemma_gap_step_true(s2, numbered_visits(ms, first, 0), ferr, first, last, now, truth);
                }
            }
        }
    }
}

/// Session discovery or a boundary keeps the sequencer true: the window is empty
/// whenever the session changes.
pub proof fn lemma_dispatch_true(s: SequencerView, next: [u8; 10], truth: spec_fn(Seq<u8>, u64) -> Seq<u8>)
    requires
        view_wf(s),
        view_true(s, truth),
    ensures
        ({
            let (s1, out) = dispatch_step(s, next);
            &&& view_wf(s1)
            &&& view_true(s1, truth)
            &&& s1.session@ == next@
            &&& items_true(out, next@, truth)
        }),
{
    let (s1, out) = dispatch_step(s, next);
    assert forall|k: int| 0 <= k < out.len() implies item_true(#[trigger] out[k], next@, truth) by {
        assert(out[k] is Ev);
    }
    if !is_unset(s.session) && s.session@ != next@ {
        if s.staged_count != 0 {
            crate::arbitrator::window::lemma_occupied_zeros(1024);
            assert(s1.lens =~= Seq::new(1024, |i: int| 0u8));
        } else {
            assert forall|i: int| 0 <= i < 1024 implies #[trigger] s.lens[i] == 0 by {
                lemma_occupied_zero_means_empty(s.lens, i);
            }
        }
    }
}

/// A heartbeat keeps the sequencer true and emits no message.
pub proof fn lemma_heartbeat_true(s: SequencerView, seq: u64, now: u64, truth: spec_fn(Seq<u8>, u64) -> Seq<u8>)
    requires
        view_true(s, truth),
    ensures
        ({
            let (s1, out) = heartbeat_step(s, seq, now);
            &&& view_true(s1, truth)
            &&& items_true(out, s.session@, truth)
            &&& s1.session == s.session
        }),
{
    let (s1, out) = heartbeat_step(s, seq, now);
    assert forall|k: int| 0 <= k < out.len() implies item_true(#[trigger] out[k], s.session@, truth) by {
        assert(out[k] is Ev);
    }
    if s1.state == State::Init {
        assert(s.state == State::Init);
    }
}

/// End of session keeps the sequencer true and emits no message.
pub proof fn lemma_eos_true(s: SequencerView, next_seq: u64, truth: spec_fn(Seq<u8>, u64) -> Seq<u8>)
    requires
        view_true(s, truth),
    ensures
        ({
            let (s1, out) = eos_step(s, next_seq);
            &&& view_true(s1, truth)
            &&& items_true(out, s.session@, truth)
            &&& s1.session == s.session
        }),
{
    let (s1, out) = eos_step(s, next_seq);
    assert forall|k: int| 0 <= k < out.len() implies item_true(#[trigger] out[k], s.session@, truth) by {
        assert(out[k] is Ev);
    }
}

/// The fidelity law: when a frame tells the truth, ingesting it emits only true
/// messages (each the payload the venue published under its number, in the session the
/// sequencer follows after the frame) and the sequencer goes on holding nothing but the
/// truth. Loss, duplication, reordering and cut-short frames do not break it; it needs the
/// stale slots the watermark passes to be cleared, so it does not hold under the
/// mutation that disables that clearing.
pub proof fn law_ingest_faithful(
    s: SequencerView,
    frame: Seq<u8>,
    feed: FeedId,
    now: u64,
    truth: spec_fn(Seq<u8>, u64) -> Seq<u8>,
)
    requires
        view_wf(s),
        view_true(s, truth),
        s.mutation != SequencerMutation::DisableClearOnAdvance,
        faithful_frame(frame, truth),
    ensures
        ({
            let (s1, out) = spec_ingest(s, frame, feed, now);
            view_true(s1, truth) && items_true(out, s1.session@, truth)
        }),
{
    let (go, s1, out1) = frame_prelude(s, frame, feed);
    let hdr = frame_header(frame);
    if go {
        let s0 = SequencerView {
            counters: crate::arbitrator::transition::count_arrival(s.counters, feed, frame.len()),
            ..s
        };
        lemma_dispatch_true(s0, hdr.session, truth);
        if hdr.count == HEARTBEAT_COUNT {
            lemma_heartbeat_true(s1, hdr.seq, now, truth);
            lemma_items_true_append(out1, heartbeat_step(s1, hdr.seq, now).1, s1.session@, truth);
        } else if hdr.count == EOS_COUNT {
            lemma_eos_true(s1, hdr.seq, truth);
            lemma_items_true_append(out1, eos_step(s1, hdr.seq).1, s1.session@, truth);
        } else {
            lemma_data_true(s1, frame, feed, now, hdr, truth);
            lemma_items_true_append(out1, classic_data(s1, frame, feed, now, hdr).1, s1.session@, truth);
        }
    }
}

/// A freshly made sequencer holds nothing but the truth, whatever the truth is.
pub proof fn law_fresh_true(v: SequencerView, m: SequencerMutation, truth: spec_fn(Seq<u8>, u64) -> Seq<u8>)
    requires
        crate::arbitrator::sequencer::is_fresh(v, m),
    ensures
        view_true(v, truth),
{
}

/// Sealing and evaluating a recovery intent keep the sequencer true: neither touches
/// the watermark, the session or the window, and sealing emits no message.
pub proof fn law_seal_intent_true(
    s: SequencerView,
    reason: crate::arbitrator::types::DeadReason,
    pending_to: Option<u64>,
    last_intent_vt: u64,
    counters: Counters,
    truth: spec_fn(Seq<u8>, u64) -> Seq<u8>,
)
    requires
        view_true(s, truth),
    ensures
        ({
            let (st, out) = crate::arbitrator::session::seal_effect(reason, s.w, s.state);
            view_true(SequencerView { state: st, ..s }, truth) && items_true(out, s.session@, truth)
        }),
        view_true(SequencerView { pending_to, last_intent_vt, counters, ..s }, truth),
{
    let (st, out) = crate::arbitrator::session::seal_effect(reason, s.w, s.state);
    assert forall|k: int| 0 <= k < out.len() implies item_true(#[trigger] out[k], s.session@, truth) by {
        assert(out[k] is Ev);
    }
}

} // verus!
