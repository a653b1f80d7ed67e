//! Window arena layout, staging, drain, and the Clear-on-Advance law.
//!
//! Slot `i` of the 1024-slot window holds the message whose sequence number is
//! `i` modulo 1024; `lens[i]` is 0 when the slot is empty and the stored length
//! plus one otherwise, the payload bytes living at `arena[64 * i ..]`.

use vstd::prelude::*;
use crate::arbitrator::types::{LiveFeedProof, Sink, SinkItem};

verus! {

pub const WINDOW_SLOTS: usize = 1024;
pub const ARENA_SIZE: usize = 65536;
pub const SLOT_SIZE: usize = 64;
pub const WINDOW_MASK: usize = 1023;
pub const WINDOW_MASK_U64: u64 = 1023;

/// Number of occupied (nonzero) slots.
pub open spec fn occupied(lens: Seq<u8>) -> nat
    decreases lens.len(),
{
    if lens.len() == 0 {
        0
    } else {
        occupied(lens.drop_last()) + if lens.last() != 0 { 1nat } else { 0nat }
    }
}

/// 1 for an occupied slot value, 0 for an empty one.
pub open spec fn nz(v: u8) -> nat {
    if v != 0 { 1nat } else { 0nat }
}

/// Overwriting one slot changes the occupied count by the change in that slot.
pub proof fn lemma_occupied_update(lens: Seq<u8>, i: int, v: u8)
    requires
        0 <= i < lens.len(),
    ensures
        occupied(lens.update(i, v)) + nz(lens[i]) == occupied(lens) + nz(v),
    decreases lens.len(),
{
    let u = lens.update(i, v);
    if i == lens.len() - 1 {
        assert(u.drop_last() =~= lens.drop_last());
    } else {
        lemma_occupied_update(lens.drop_last(), i, v);
        assert(u.drop_last() =~= lens.drop_last().update(i, v));
    }
}

/// The occupied count never exceeds the number of slots.
pub proof fn lemma_occupied_bound(lens: Seq<u8>)
    ensures
        occupied(lens) <= lens.len(),
    decreases lens.len(),
{
    if lens.len() > 0 {
        lemma_occupied_bound(lens.drop_last());
    }
}

/// An all-empty window has no occupied slot.
pub proof fn lemma_occupied_zeros(n: nat)
    ensures
        occupied(Seq::new(n, |i: int| 0u8)) == 0,
    decreases n,
{
    if n > 0 {
        assert(Seq::new(n, |i: int| 0u8).drop_last() =~= Seq::new((n - 1) as nat, |i: int| 0u8));
        lemma_occupied_zeros((n - 1) as nat);
    }
}

/// A window with no occupied slot is all zero.
pub proof fn lemma_occupied_zero_means_empty(lens: Seq<u8>, i: int)
    requires
        occupied(lens) == 0,
        0 <= i < lens.len(),
    ensures
        lens[i] == 0,
    decreases lens.len(),
{
    if i < lens.len() - 1 {
        lemma_occupied_zero_means_empty(lens.drop_last(), i);
    }
}

/// The all-empty window.
pub open spec fn empty_window() -> Seq<u8> {
    Seq::new(WINDOW_SLOTS as nat, |i: int| 0u8)
}

/// Window slot of a sequence number.
pub open spec fn slot_of(seq: u64) -> int {
    (seq % 1024) as int
}

/// Effect of staging `data` under `seq` with watermark `w`: whether it was staged, and
/// the new slot lengths, arena and occupied count. Staged iff `1 <= seq - w <= 1023`
/// in wrapping arithmetic; at most 64 bytes are kept.
pub open spec fn stage_effect(lens: Seq<u8>, arena: Seq<u8>, staged: u32, w: u64, seq: u64, data: Seq<u8>) -> (
    bool,
    Seq<u8>,
    Seq<u8>,
    u32,
) {
    let off = seq.wrapping_sub(w);
    if off.wrapping_sub(1) < WINDOW_MASK_U64 {
        let slot = slot_of(seq);
        let len = if data.len() < SLOT_SIZE { data.len() as int } else { SLOT_SIZE as int };
        let start = slot * 64;
        (
            true,
            lens.update(slot, (len + 1) as u8),
            arena.subrange(0, start) + data.subrange(0, len) + arena.subrange(
                start + len,
                arena.len() as int,
            ),
            if lens[slot] == 0 { (staged + 1) as u32 } else { staged },
        )
    } else {
        (false, lens, arena, staged)
    }
}

/// Stages a validated payload into the arena if it lies within the window.
/// Returns true if staged, false if dropped beyond the window.
pub fn stage_msg(
    lens: &mut [u8; WINDOW_SLOTS],
    arena: &mut [u8; ARENA_SIZE],
    staged_count: &mut u32,
    w: u64,
    seq: u64,
    data: &[u8],
) -> (r: bool)
    requires
        *old(staged_count) == occupied(old(lens)@),
    ensures
        (r, final(lens)@, final(arena)@, *final(staged_count)) == stage_effect(
            old(lens)@,
            old(arena)@,
            *old(staged_count),
            w,
            seq,
            data@,
        ),
        *final(staged_count) == occupied(final(lens)@),
{
    let off = seq.wrapping_sub(w);
    if off.wrapping_sub(1) < WINDOW_MASK_U64 {
        let slot = (seq % 1024) as usize;
        proof {
            lemma_occupied_bound(lens@);
        }
        if lens[slot] == 0 {
            *staged_count = *staged_count + 1;
        }
        let len = if data.len() < SLOT_SIZE { data.len() } else { SLOT_SIZE };
        let ghost old_lens = lens@;
        lens[slot] = (len as u8) + 1;
        proof {
            lemma_occupied_update(old_lens, slot as int, (len + 1) as u8);
        }
        let start = slot * 64;
        let ghost a0 = arena@;
        assert(start + SLOT_SIZE <= ARENA_SIZE) by (nonlinear_arith)
            requires
                start == slot * 64,
                slot < 1024,
        ;
        let mut j: usize = 0;
        while j < len
            invariant
                j <= len <= SLOT_SIZE,
                start + SLOT_SIZE <= ARENA_SIZE,
                a0.len() == ARENA_SIZE,
                len <= data@.len(),
                start == slot * 64,
                slot < 1024,
                arena@.len() == ARENA_SIZE,
                arena@ == a0.subrange(0, start as int) + data@.subrange(0, j as int) + a0.subrange(
                    start + j,
                    ARENA_SIZE as int,
                ),
            decreases len - j,
        {
            arena[start + j] = data[j];
            proof {
                assert(arena@ =~= a0.subrange(0, start as int) + data@.subrange(0, j + 1)
                    + a0.subrange(start + j + 1, ARENA_SIZE as int));
            }
            j = j + 1;
        }
        true
    } else {
        false
    }
}

/// Effect of clearing window positions `start + i, ..., start + n - 1` (modulo 1024),
/// stopping as soon as the window becomes empty (which also resets `max_staged`).
pub open spec fn clear_run(lens: Seq<u8>, staged: u32, max_staged: u64, start: int, i: int, n: int) -> (
    Seq<u8>,
    u32,
    u64,
)
    decreases n - i,
{
    if i >= n {
        (lens, staged, max_staged)
    } else {
        let slot = (start + i) % 1024;
        if lens[slot] != 0 {
            let l2 = lens.update(slot, 0);
            let s2 = (staged - 1) as u32;
            if s2 == 0 {
                (l2, 0, 0)
            } else {
                clear_run(l2, s2, max_staged, start, i + 1, n)
            }
        } else {
            clear_run(lens, staged, max_staged, start, i + 1, n)
        }
    }
}

/// Effect of the Clear-on-Advance law for an advance of the watermark from `old_w` to
/// `new_w`: the slots of `[old_w, min(new_w, old_w + 1024))` are cleared.
pub open spec fn clear_effect(lens: Seq<u8>, staged: u32, max_staged: u64, old_w: u64, new_w: u64) -> (
    Seq<u8>,
    u32,
    u64,
) {
    if staged == 0 {
        (lens, staged, max_staged)
    } else {
        let limit = if new_w < old_w.saturating_add(1024) {
            new_w
        } else {
            old_w.saturating_add(1024)
        };
        if limit <= old_w {
            (lens, staged, max_staged)
        } else {
            clear_run(lens, staged, max_staged, slot_of(old_w), 0, limit - old_w)
        }
    }
}

/// Clears every slot in `[old_w, min(new_w, old_w + 1024))` to eliminate zombie slots.
pub fn clear_slots(
    lens: &mut [u8; WINDOW_SLOTS],
    staged_count: &mut u32,
    max_staged: &mut u64,
    old_w: u64,
    new_w: u64,
)
    requires
        *old(staged_count) == occupied(old(lens)@),
    ensures
        (final(lens)@, *final(staged_count), *final(max_staged)) == clear_effect(
            old(lens)@,
            *old(staged_count),
            *old(max_staged),
            old_w,
            new_w,
        ),
        *final(staged_count) == occupied(final(lens)@),
        forall|i: int| 0 <= i < WINDOW_SLOTS ==> final(lens)@[i] == 0 || final(lens)@[i] == old(lens)@[i],
{
    if *staged_count == 0 {
        return;
    }
    let cap = old_w.saturating_add(WINDOW_SLOTS as u64);
    let limit = if new_w < cap { new_w } else { cap };
    if limit <= old_w {
        return;
    }
    let n = (limit - old_w) as usize;
    let start = (old_w % 1024) as usize;
    let ghost target = clear_run(lens@, *staged_count, *max_staged, start as int, 0, n as int);
    assert(target == clear_effect(old(lens)@, *old(staged_count), *old(max_staged), old_w, new_w));
    let mut i: usize = 0;
    while i < n
        invariant
            n <= WINDOW_SLOTS,
            start < WINDOW_SLOTS,
            i <= n,
            *staged_count == occupied(lens@),
            *staged_count > 0,
            lens@.len() == WINDOW_SLOTS,
            forall|k: int| 0 <= k < WINDOW_SLOTS ==> lens@[k] == 0 || lens@[k] == old(lens)@[k],
            target == clear_run(lens@, *staged_count, *max_staged, start as int, i as int, n as int),
            target == clear_effect(old(lens)@, *old(staged_count), *old(max_staged), old_w, new_w),
        decreases n - i,
    {
        let slot = if start + i < WINDOW_SLOTS { start + i } else { start + i - WINDOW_SLOTS };
        assert(slot == (start + i) % 1024);
        if lens[slot] != 0 {
            let ghost before = lens@;
            let ghost cnt = *staged_count;
            let ghost mx = *max_staged;
            assert(target == clear_run(before, cnt, mx, start as int, i as int, n as int));
            lens[slot] = 0;
            proof {
                lemma_occupied_update(before, slot as int, 0);
            }
            *staged_count = *staged_count - 1;
            if *staged_count == 0 {
                *max_staged = 0;
                assert(target == (lens@, 0u32, 0u64));
                return;
            }
        }
        i = i + 1;
    }
}

/// Effect of draining from watermark `w`: emit consecutive occupied slots in order,
/// each with its stored bytes, clearing each one, until an empty slot or an empty
/// window. Returns the new slot lengths, watermark, occupied count, and emitted items.
pub open spec fn drain_run(lens: Seq<u8>, arena: Seq<u8>, w: u64, staged: u32, gen: u64) -> (
    Seq<u8>,
    u64,
    u32,
    Seq<SinkItem>,
)
    decreases staged,
{
    let slot = slot_of(w);
    if staged == 0 || lens[slot] == 0 {
        (lens, w, staged, Seq::empty())
    } else {
        let len = lens[slot] - 1;
        let msg = arena.subrange(slot * 64, slot * 64 + len);
        let item = SinkItem::Msg { gen, seq: w, data: msg };
        let l2 = lens.update(slot, 0);
        let s2 = (staged - 1) as u32;
        let (l3, w3, s3, out) = drain_run(l2, arena, w.wrapping_add(1), s2, gen);
        (l3, w3, s3, seq![item] + out)
    }
}

/// Effect of `drain`, including the reset of `max_staged` once the window is empty.
pub open spec fn drain_effect(lens: Seq<u8>, arena: Seq<u8>, w: u64, staged: u32, max_staged: u64, gen: u64) -> (
    Seq<u8>,
    u64,
    u32,
    u64,
    Seq<SinkItem>,
) {
    if staged == 0 {
        (lens, w, staged, max_staged, Seq::empty())
    } else {
        let (l, w2, s, out) = drain_run(lens, arena, w, staged, gen);
        (l, w2, s, if s == 0 { 0 } else { max_staged }, out)
    }
}

/// Emits staged messages starting at `w` as long as consecutive slots are populated;
/// returns how many were emitted.
pub fn drain<S: Sink>(
    lens: &mut [u8; WINDOW_SLOTS],
    arena: &[u8; ARENA_SIZE],
    w: &mut u64,
    staged_count: &mut u32,
    max_staged: &mut u64,
    gen: u64,
    sink: &mut S,
) -> (emitted: u64)
    requires
        *old(staged_count) == occupied(old(lens)@),
        forall|i: int| 0 <= i < WINDOW_SLOTS ==> old(lens)@[i] <= SLOT_SIZE + 1,
    ensures
        ({
            let (l, w2, s, m, out) = drain_effect(
                old(lens)@,
                arena@,
                *old(w),
                *old(staged_count),
                *old(max_staged),
                gen,
            );
            &&& final(lens)@ == l
            &&& *final(w) == w2
            &&& *final(staged_count) == s
            &&& *final(max_staged) == m
            &&& final(sink).items() == old(sink).items() + out
            &&& emitted == out.len()
        }),
        *final(staged_count) == occupied(final(lens)@),
        forall|i: int| 0 <= i < WINDOW_SLOTS ==> final(lens)@[i] <= SLOT_SIZE + 1,
{
    if *staged_count == 0 {
        assert(old(sink).items() + Seq::<SinkItem>::empty() =~= old(sink).items());
        return 0;
    }
    let ghost target = drain_run(lens@, arena@, *w, *staged_count, gen);
    let ghost base = sink.items();
    let mut emitted: u64 = 0;
    let mut wv = *w;
    let ghost initial = *staged_count;
    proof {
        lemma_occupied_bound(lens@);
    }
    let proof = LiveFeedProof::mint(gen);
    loop
        invariant_except_break
            *staged_count > 0,
        invariant
            *staged_count == occupied(lens@),
            lens@.len() == WINDOW_SLOTS,
            forall|i: int| 0 <= i < WINDOW_SLOTS ==> lens@[i] <= SLOT_SIZE + 1,
            proof.era() == gen,
            sink.items().len() >= base.len(),
            emitted == sink.items().len() - base.len(),
            emitted + *staged_count == initial,
            initial <= WINDOW_SLOTS,
            ({
                let (l, w2, s, out) = drain_run(lens@, arena@, wv, *staged_count, gen);
                &&& target.0 == l
                &&& target.1 == w2
                &&& target.2 == s
                &&& sink.items() + out == base + target.3
            }),
        ensures
            ({
                let (l, w2, s, out) = drain_run(lens@, arena@, wv, *staged_count, gen);
                &&& l == lens@ && w2 == wv && s == *staged_count && out.len() == 0
            }),
        decreases *staged_count,
    {
        let slot = (wv % 1024) as usize;
        let stored = lens[slot];
        if stored == 0 {
            break;
        }
        let len = (stored - 1) as usize;
        let start = slot * 64;
        let msg = vstd::slice::slice_subrange(vstd::array::array_as_slice(arena), start, start + len);
        let ghost items_before = sink.items();
        let ghost lens_before = lens@;
        let ghost cnt_before = *staged_count;
        sink.on_msg(&proof, wv, msg);
        proof {
            lemma_occupied_bound(lens@);
        }
        emitted = emitted + 1;
        lens[slot] = 0;
        proof {
            lemma_occupied_update(lens_before, slot as int, 0);
        }
        *staged_count = *staged_count - 1;
        let ghost w_before = wv;
        wv = wv.wrapping_add(1);
        proof {
            let (l, w2, s, out) = drain_run(lens@, arena@, wv, *staged_count, gen);
            let (la, wa, sa, outa) = drain_run(lens_before, arena@, w_before, cnt_before, gen);
            assert(outa == seq![SinkItem::Msg { gen, seq: w_before, data: msg@ }] + out);
            assert(sink.items() + out =~= items_before + outa);
        }
        if *staged_count == 0 {
            break;
        }
    }
    *w = wv;
    if *staged_count == 0 {
        *max_staged = 0;
    }
    proof {
        assert(sink.items() =~= base + target.3);
    }
    emitted
}

} // verus!
