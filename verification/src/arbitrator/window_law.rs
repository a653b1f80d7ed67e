//! The window's two laws stated directly: which slots the Clear-on-Advance law empties
//! and which it leaves alone, and what a drain emits and where it stops.

use vstd::prelude::*;
use crate::arbitrator::types::SinkItem;
use crate::arbitrator::window::{
    clear_effect, clear_run, drain_effect, drain_run, lemma_occupied_update, lemma_occupied_zero_means_empty,
    nz, slot_of,
};
use crate::arbitrator::fidelity::lemma_clear_run;
use crate::arbitrator::intent_law::{lemma_clear_run_counted, window_counted};

verus! {

/// How far slot `i` lies past slot `start`, going round the window.
pub open spec fn ring_offset(start: int, i: int) -> int {
    (i - start + 1024) % 1024
}

/// The slot `j` places past `start` lies `j` past it.
pub proof fn lemma_ring_offset(start: int, j: int)
    requires
        0 <= start < 1024,
        0 <= j < 1024,
    ensures
        ring_offset(start, (start + j) % 1024) == j,
        0 <= (start + j) % 1024 < 1024,
{
    if start + j < 1024 {
        assert((start + j) % 1024 == start + j);
        assert((j + 1024) % 1024 == j);
    } else {
        assert((start + j) % 1024 == start + j - 1024);
        assert((j - 1024 + 1024) % 1024 == j);
    }
}

/// Clearing positions `start + i, ..., start + n - 1` leaves every slot outside them as it
/// was.
pub proof fn lemma_clear_run_keeps(lens: Seq<u8>, staged: u32, max_staged: u64, start: int, i: int, n: int)
    requires
        window_counted(lens, staged),
        0 <= start < 1024,
        0 <= i <= n <= 1024,
    ensures
        ({
            let l = clear_run(lens, staged, max_staged, start, i, n).0;
            forall|k: int|
                0 <= k < 1024 && !(i <= ring_offset(start, k) < n) ==> #[trigger] l[k] == lens[k]
        }),
    decreases n - i,
{
    if i < n {
        let slot = (start + i) % 1024;
        lemma_ring_offset(start, i);
        if lens[slot] != 0 {
            let l2 = lens.update(slot, 0);
            lemma_occupied_update(lens, slot, 0);
            assert(nz(lens[slot]) == 1);
            assert forall|k: int| 0 <= k < 1024 implies #[trigger] l2[k] <= 65 by {
                assert(lens[k] <= 65);
            }
            if staged - 1 == 0 {
                assert(clear_run(lens, staged, max_staged, start, i, n).0 == l2);
                assert forall|k: int| 0 <= k < 1024 && !(i <= ring_offset(start, k) < n) implies #[trigger] l2[k]
                    == lens[k] by {
                    assert(k != slot);
                }
            } else {
                assert(clear_run(lens, staged, max_staged, start, i, n) == clear_run(
                    l2,
                    (staged - 1) as u32,
                    max_staged,
                    start,
                    i + 1,
                    n,
                ));
                lemma_clear_run_keeps(l2, (staged - 1) as u32, max_staged, start, i + 1, n);
                let l = clear_run(l2, (staged - 1) as u32, max_staged, start, i + 1, n).0;
                assert forall|k: int| 0 <= k < 1024 && !(i <= ring_offset(start, k) < n) implies #[trigger] l[k]
                    == lens[k] by {
                    assert(k != slot);
                    assert(l2[k] == lens[k]);
                }
            }
        } else {
            lemma_clear_run_keeps(lens, staged, max_staged, start, i + 1, n);
            assert(clear_run(lens, staged, max_staged, start, i, n) == clear_run(
                lens,
                staged,
                max_staged,
                start,
                i + 1,
                n,
            ));
        }
    }
}

/// A clear that empties a window holding something resets `max_staged` to 0.
pub proof fn lemma_clear_run_reset(lens: Seq<u8>, staged: u32, max_staged: u64, start: int, i: int, n: int)
    requires
        staged > 0,
        0 <= i <= n,
    ensures
        ({
            let (l, s2, m2) = clear_run(lens, staged, max_staged, start, i, n);
            s2 == 0 ==> m2 == 0
        }),
    decreases n - i,
{
    if i < n {
        let slot = (start + i) % 1024;
        if lens[slot] != 0 {
            if staged - 1 != 0 {
                lemma_clear_run_reset(lens.update(slot, 0), (staged - 1) as u32, max_staged, start, i + 1, n);
            }
        } else {
            lemma_clear_run_reset(lens, staged, max_staged, start, i + 1, n);
        }
    }
}

/// The Clear-on-Advance law: when the watermark advances from `old_w` to `new_w` over a
/// window holding something, every slot of a number in `[old_w, min(new_w, old_w + 1024))`
/// ends empty, every other slot keeps its value, the occupied count stays exact, and
/// `max_staged` resets to 0 exactly when the window ends empty.
pub proof fn law_clear_on_advance(lens: Seq<u8>, staged: u32, max_staged: u64, old_w: u64, new_w: u64)
    requires
        window_counted(lens, staged),
        staged > 0,
        old_w <= new_w,
    ensures
        ({
            let (l, s2, m2) = clear_effect(lens, staged, max_staged, old_w, new_w);
            let reach = if new_w < old_w + 1024 { new_w - old_w } else { 1024 };
            &&& window_counted(l, s2)
            &&& forall|q: u64| old_w <= q < old_w + reach ==> #[trigger] l[slot_of(q)] == 0
            &&& forall|i: int|
                0 <= i < 1024 && ring_offset(slot_of(old_w), i) >= reach ==> #[trigger] l[i] == lens[i]
            &&& m2 == (if s2 == 0 { 0 } else { max_staged })
        }),
{
    let (l, s2, m2) = clear_effect(lens, staged, max_staged, old_w, new_w);
    let reach: int = if new_w < old_w + 1024 { new_w - old_w } else { 1024 };
    let start = slot_of(old_w);
    if old_w + 1024 <= u64::MAX {
        assert(old_w.saturating_add(1024) == old_w + 1024);
    } else {
        assert(old_w.saturating_add(1024) == u64::MAX);
    }
    let limit: int = if new_w < old_w.saturating_add(1024) { new_w as int } else { old_w.saturating_add(1024) as int };
    let n = limit - old_w;
    assert(n == reach);
    if n > 0 {
        lemma_clear_run(lens, staged, max_staged, start, 0, n);
        lemma_clear_run_counted(lens, staged, max_staged, start, 0, n);
        lemma_clear_run_keeps(lens, staged, max_staged, start, 0, n);
        lemma_clear_run_reset(lens, staged, max_staged, start, 0, n);
        assert forall|q: u64| old_w <= q < old_w + reach implies #[trigger] l[slot_of(q)] == 0 by {
            let j = q - old_w;
            lemma_slot_step(old_w, j);
            assert(l[(start + j) % 1024] == 0);
        }
    }
}

/// Stepping `d` numbers past `w` steps `d` slots round the window.
pub proof fn lemma_slot_step(w: u64, d: int)
    requires
        0 <= d < 1024,
        w + d <= u64::MAX,
    ensures
        slot_of((w + d) as u64) == (slot_of(w) + d) % 1024,
        ring_offset(slot_of(w), slot_of((w + d) as u64)) == d,
{
    vstd::arithmetic::div_mod::lemma_add_mod_noop(w as int, d, 1024);
    vstd::arithmetic::div_mod::lemma_small_mod(d as nat, 1024);
    lemma_ring_offset(slot_of(w), d);
}

/// `w + j` on the 64-bit ring the watermark moves on: it wraps past `u64::MAX`.
pub open spec fn wadd(w: u64, j: int) -> u64 {
    ((w + j) % 0x1_0000_0000_0000_0000) as u64
}

/// Stepping `d` numbers past `w` on the ring steps `d` slots round the window.
pub proof fn lemma_wadd_slot(w: u64, d: int)
    requires
        0 <= d < 1024,
    ensures
        slot_of(wadd(w, d)) == (slot_of(w) + d) % 1024,
        ring_offset(slot_of(w), slot_of(wadd(w, d))) == d,
{
    let m: int = 0x1_0000_0000_0000_0000;
    vstd::arithmetic::div_mod::lemma_mod_bound(w + d, m);
    assert(m == 1024 * 0x40_0000_0000_0000);
    vstd::arithmetic::div_mod::lemma_mod_mod(w + d, 1024, 0x40_0000_0000_0000);
    vstd::arithmetic::div_mod::lemma_add_mod_noop(w as int, d, 1024);
    vstd::arithmetic::div_mod::lemma_small_mod(d as nat, 1024);
    lemma_ring_offset(slot_of(w), d);
}

/// One more step on the ring is one wrapping increment.
pub proof fn lemma_wadd_step(w: u64, d: int)
    requires
        0 <= d,
    ensures
        wadd(w, d).wrapping_add(1) == wadd(w, d + 1),
{
    let m: int = 0x1_0000_0000_0000_0000;
    let a = (w + d) % m;
    vstd::arithmetic::div_mod::lemma_mod_bound(w + d, m);
    vstd::arithmetic::div_mod::lemma_add_mod_noop(w + d, 1, m);
    vstd::arithmetic::div_mod::lemma_small_mod(1, m as nat);
    if a + 1 < m {
        vstd::arithmetic::div_mod::lemma_small_mod((a + 1) as nat, m as nat);
    } else {
        assert(a + 1 == m);
        vstd::arithmetic::div_mod::lemma_mod_self_0(m);
    }
}

/// Every slot lies some number of steps, under a window's worth, past slot `s`.
pub proof fn lemma_ring_back(s: int, i: int)
    requires
        0 <= s < 1024,
        0 <= i < 1024,
    ensures
        0 <= ring_offset(s, i) < 1024,
        (s + ring_offset(s, i)) % 1024 == i,
{
    if i >= s {
        assert((i - s + 1024) % 1024 == i - s);
    } else {
        assert((i - s + 1024) % 1024 == i - s + 1024);
        assert((i + 1024) % 1024 == i);
    }
}

/// What draining from `w` emits: the messages of the occupied slots from `w` on, one by
/// one, numbered on the ring, under generation `gen`.
pub open spec fn drained_items(lens: Seq<u8>, arena: Seq<u8>, w: u64, gen: u64, k: nat) -> Seq<SinkItem> {
    Seq::new(
        k,
        |j: int|
            SinkItem::Msg {
                gen,
                seq: wadd(w, j),
                data: arena.subrange(
                    slot_of(wadd(w, j)) * 64,
                    slot_of(wadd(w, j)) * 64 + lens[slot_of(wadd(w, j))] - 1,
                ),
            },
    )
}

/// The drain law: from any watermark `w` over a window holding something, a drain emits
/// the messages of the `k` consecutive occupied slots from `w` on (numbered `w, w + 1,
/// ...` on the 64-bit ring, each with its stored bytes, under generation `gen`), where
/// `k` is the longest such run (the whole window at most); the watermark moves `k` on,
/// exactly those slots are emptied, the occupied count drops by `k`, and `max_staged`
/// resets to 0 when the window ends empty.
pub proof fn law_drain(lens: Seq<u8>, arena: Seq<u8>, w: u64, staged: u32, max_staged: u64, gen: u64)
    requires
        window_counted(lens, staged),
        staged > 0,
    ensures
        ({
            let (l, w2, s2, m2, out) = drain_effect(lens, arena, w, staged, max_staged, gen);
            let k = out.len() as int;
            &&& k <= 1024
            &&& w2 == wadd(w, k)
            &&& forall|j: int| 0 <= j < k ==> lens[#[trigger] slot_of(wadd(w, j))] != 0
            &&& (k == 1024 || lens[slot_of(wadd(w, k))] == 0)
            &&& out == drained_items(lens, arena, w, gen, k as nat)
            &&& forall|j: int| 0 <= j < k ==> l[#[trigger] slot_of(wadd(w, j))] == 0
            &&& forall|i: int|
                0 <= i < 1024 && ring_offset(slot_of(w), i) >= k ==> #[trigger] l[i] == lens[i]
            &&& s2 == staged - k
            &&& window_counted(l, s2)
            &&& m2 == (if s2 == 0 { 0 } else { max_staged })
        }),
{
    assert(wadd(w, 0) == w) by {
        vstd::arithmetic::div_mod::lemma_small_mod(w as nat, 0x1_0000_0000_0000_0000);
    }
    lemma_drain_run_law(lens, arena, w, staged, gen, lens, w, 0);
    let (l, w2, s2, out) = drain_run(lens, arena, w, staged, gen);
    let k = out.len() as int;
    if k < 1024 && s2 == 0 {
        lemma_wadd_slot(w, k);
        lemma_occupied_zero_means_empty(l, slot_of(wadd(w, k)));
    }
    assert(out =~= drained_items(lens, arena, w, gen, k as nat));
}

/// The drain after `d` slots were already drained from `w0` (the window `lens0` before
/// any of them): the run goes on from `w0 + d` on the ring.
proof fn lemma_drain_run_law(
    lens: Seq<u8>,
    arena: Seq<u8>,
    w: u64,
    staged: u32,
    gen: u64,
    lens0: Seq<u8>,
    w0: u64,
    d: int,
)
    requires
        window_counted(lens, staged),
        lens0.len() == 1024,
        0 <= d <= 1024,
        w == wadd(w0, d),
        forall|j: int| 0 <= j < d ==> lens0[#[trigger] slot_of(wadd(w0, j))] != 0,
        forall|j: int| 0 <= j < d ==> lens[#[trigger] slot_of(wadd(w0, j))] == 0,
        forall|i: int| 0 <= i < 1024 && ring_offset(slot_of(w0), i) >= d ==> #[trigger] lens[i] == lens0[i],
        d == 1024 ==> staged == 0,
    ensures
        ({
            let (l, w2, s2, out) = drain_run(lens, arena, w, staged, gen);
            let k = d + out.len();
            &&& k <= 1024
            &&& w2 == wadd(w0, k)
            &&& forall|j: int| 0 <= j < k ==> lens0[#[trigger] slot_of(wadd(w0, j))] != 0
            &&& (k == 1024 || lens0[slot_of(wadd(w0, k))] == 0 || s2 == 0)
            &&& out == Seq::new(
                (k - d) as nat,
                |j: int|
                    SinkItem::Msg {
                        gen,
                        seq: wadd(w0, d + j),
                        data: arena.subrange(
                            slot_of(wadd(w0, d + j)) * 64,
                            slot_of(wadd(w0, d + j)) * 64 + lens0[slot_of(wadd(w0, d + j))] - 1,
                        ),
                    },
            )
            &&& forall|j: int| 0 <= j < k ==> l[#[trigger] slot_of(wadd(w0, j))] == 0
            &&& forall|i: int|
                0 <= i < 1024 && ring_offset(slot_of(w0), i) >= k ==> #[trigger] l[i] == lens0[i]
            &&& s2 == staged - (k - d)
            &&& window_counted(l, s2)
        }),
    decreases staged,
{
    let slot = slot_of(w);
    let (l, w2, s2, out) = drain_run(lens, arena, w, staged, gen);
    if d < 1024 {
        lemma_wadd_slot(w0, d);
    }
    if staged != 0 && lens[slot] != 0 {
        assert(d < 1024);
        assert(lens[slot] == lens0[slot]);
        let l2 = lens.update(slot, 0);
        let w1 = w.wrapping_add(1);
        lemma_wadd_step(w0, d);
        lemma_occupied_update(lens, slot, 0);
        assert(nz(lens[slot]) == 1);
        assert forall|k: int| 0 <= k < 1024 implies #[trigger] l2[k] <= 65 by {
            assert(lens[k] <= 65);
        }
        assert forall|j: int| 0 <= j < d + 1 implies lens0[#[trigger] slot_of(wadd(w0, j))] != 0 by {}
        assert forall|j: int| 0 <= j < d + 1 implies l2[#[trigger] slot_of(wadd(w0, j))] == 0 by {
            if j < d {
                lemma_wadd_slot(w0, j);
            }
        }
        assert forall|i: int| 0 <= i < 1024 && ring_offset(slot_of(w0), i) >= d + 1 implies #[trigger] l2[i]
            == lens0[i] by {}
        if d + 1 == 1024 {
            assert forall|i: int| 0 <= i < 1024 implies #[trigger] l2[i] == 0 by {
                lemma_ring_back(slot_of(w0), i);
                let j = ring_offset(slot_of(w0), i);
                lemma_wadd_slot(w0, j);
                assert(l2[slot_of(wadd(w0, j))] == 0);
            }
            assert(l2 =~= Seq::new(1024, |i: int| 0u8));
            crate::arbitrator::window::lemma_occupied_zeros(1024);
        }
        lemma_drain_run_law(l2, arena, w1, (staged - 1) as u32, gen, lens0, w0, d + 1);
        let (l3, w3, s3, rest) = drain_run(l2, arena, w1, (staged - 1) as u32, gen);
        let k = d + out.len();
        let item = SinkItem::Msg { gen, seq: w, data: arena.subrange(slot * 64, slot * 64 + lens[slot] - 1) };
        assert(out == seq![item] + rest);
        let want = Seq::new(
            (k - d) as nat,
            |j: int|
                SinkItem::Msg {
                    gen,
                    seq: wadd(w0, d + j),
                    data: arena.subrange(
                        slot_of(wadd(w0, d + j)) * 64,
                        slot_of(wadd(w0, d + j)) * 64 + lens0[slot_of(wadd(w0, d + j))] - 1,
                    ),
                },
        );
        assert forall|j: int| 0 <= j < want.len() implies want[j] == (seq![item] + rest)[j] by {
            if j > 0 {
                assert(d + j == (d + 1) + (j - 1));
            }
        }
        assert(out =~= want);
    } else {
        if d < 1024 && staged != 0 {
            assert(lens[slot] == lens0[slot]);
        }
        assert(out =~= Seq::<SinkItem>::empty());
    }
}

} // verus!
