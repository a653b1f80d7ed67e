//! Golden reference walker: the canonical FNV-1a-64 hash over an ITCH 5.0 message
//! block stream (`[u16 BE len][msg]...`), folding each message's length
//! (little-endian `u16`) and bytes.

use vstd::prelude::*;
use crate::protocol::bytes::{be_u16, read_be_u16, u16_le_bytes, u16_to_le};

verus! {

pub const FNV_OFFSET: u64 = 0xcbf29ce484222325;
pub const FNV_PRIME: u64 = 0x100000001b3;

/// One FNV-1a step.
pub open spec fn fnv_step(h: u64, b: u8) -> u64 {
    (h ^ (b as u64)).wrapping_mul(FNV_PRIME)
}

/// FNV-1a over `bytes`, starting from `h`.
pub open spec fn fnv_fold(h: u64, bytes: Seq<u8>) -> u64
    decreases bytes.len(),
{
    if bytes.len() == 0 {
        h
    } else {
        fnv_step(fnv_fold(h, bytes.drop_last()), bytes.last())
    }
}

/// Folds one byte into the hash.
pub fn fnv_update(h: u64, byte: u8) -> (r: u64)
    ensures
        r == fnv_step(h, byte),
{
    (h ^ (byte as u64)).wrapping_mul(FNV_PRIME)
}

/// Folds `bytes` into the hash, in order.
pub fn fnv_bytes(h: u64, bytes: &[u8]) -> (r: u64)
    ensures
        r == fnv_fold(h, bytes@),
{
    let mut acc = h;
    let mut i: usize = 0;
    while i < bytes.len()
        invariant
            i <= bytes@.len(),
            acc == fnv_fold(h, bytes@.take(i as int)),
        decreases bytes@.len() - i,
    {
        proof {
            assert(bytes@.take(i + 1).drop_last() =~= bytes@.take(i as int));
        }
        acc = fnv_update(acc, bytes[i]);
        i = i + 1;
    }
    assert(bytes@.take(i as int) =~= bytes@);
    acc
}

/// The hash after one message: its length as a little-endian `u16`, then its bytes (the
/// same fold a hashing sink makes, so a lossless replay reproduces the golden hash).
pub open spec fn golden_msg(h: u64, msg: Seq<u8>) -> u64 {
    fnv_fold(fnv_fold(h, u16_le_bytes(msg.len() as u16)), msg)
}

/// Walks at most `limit` whole blocks of `rest`, hashing each message numbered from
/// `seq`; the walk stops at a block that does not fit. Returns the hash and the number
/// the next message would get.
pub open spec fn golden_walk(rest: Seq<u8>, h: u64, seq: u64, limit: nat) -> (u64, u64)
    decreases rest.len(),
{
    if limit == 0 || rest.len() < 2 {
        (h, seq)
    } else {
        let len = be_u16(rest[0], rest[1]) as int;
        if rest.len() - 2 < len {
            (h, seq)
        } else {
            golden_walk(
                rest.skip(2 + len),
                golden_msg(h, rest.subrange(2, 2 + len)),
                (seq + 1) as u64,
                (limit - 1) as nat,
            )
        }
    }
}

/// A limit at least the stream's length never stops the walk early.
pub proof fn lemma_walk_limit(rest: Seq<u8>, h: u64, seq: u64, l1: nat, l2: nat)
    requires
        l1 >= rest.len(),
        l2 >= rest.len(),
    ensures
        golden_walk(rest, h, seq, l1) == golden_walk(rest, h, seq, l2),
    decreases rest.len(),
{
    if rest.len() >= 2 {
        let len = be_u16(rest[0], rest[1]) as int;
        if rest.len() - 2 >= len {
            lemma_walk_limit(
                rest.skip(2 + len),
                golden_msg(h, rest.subrange(2, 2 + len)),
                (seq + 1) as u64,
                (l1 - 1) as nat,
                (l2 - 1) as nat,
            );
        }
    }
}

/// Hashes one message.
fn hash_msg(h: u64, msg: &[u8]) -> (r: u64)
    ensures
        r == golden_msg(h, msg@),
{
    let h1 = fnv_bytes(h, &u16_to_le(msg.len() as u16));
    fnv_bytes(h1, msg)
}

/// Walks `gt` for at most `limit` messages; returns the hash and the count.
fn walk(gt: &[u8], limit: usize) -> (r: (u64, u64))
    requires
        gt@.len() + 2 <= u64::MAX,
    ensures
        ({
            let (h, next) = golden_walk(gt@, FNV_OFFSET, 1, limit as nat);
            r == (h, (next - 1) as u64)
        }),
{
    let mut h = FNV_OFFSET;
    let mut pos: usize = 0;
    let mut seq: u64 = 1;
    let mut count: usize = 0;
    proof {
        assert(gt@.skip(0) =~= gt@);
    }
    loop
        invariant
            pos <= gt@.len(),
            count <= limit,
            gt@.len() + 2 <= u64::MAX,
            seq == count + 1,
            seq + gt@.len() - pos <= u64::MAX,
            golden_walk(gt@, FNV_OFFSET, 1, limit as nat) == golden_walk(
                gt@.skip(pos as int),
                h,
                seq,
                (limit - count) as nat,
            ),
        ensures
            seq >= 1,
            golden_walk(gt@, FNV_OFFSET, 1, limit as nat) == (h, seq),
        decreases gt@.len() - pos,
    {
        let ghost rest = gt@.skip(pos as int);
        assert(rest.len() == gt@.len() - pos);
        if gt.len() - pos < 2 || count >= limit {
            break;
        }
        let msg_len = read_be_u16(gt, pos) as usize;
        assert(rest[0] == gt@[pos as int] && rest[1] == gt@[pos + 1]);
        if gt.len() - (pos + 2) < msg_len {
            break;
        }
        let start = pos + 2;
        let msg = vstd::slice::slice_subrange(gt, start, start + msg_len);
        proof {
            assert(rest.subrange(2, 2 + msg_len) =~= msg@);
            assert(rest.skip(2 + msg_len) =~= gt@.skip(start + msg_len));
        }
        h = hash_msg(h, msg);
        pos = start + msg_len;
        seq = seq + 1;
        count = count + 1;
    }
    (h, seq - 1)
}

/// Computes the canonical golden hash and message count over a ground-truth message
/// block stream (`[u16 BE len][msg]...`); a block that does not fit ends the walk.
pub fn golden(gt: &[u8]) -> (r: (u64, u64))
    requires
        gt@.len() + 2 <= u64::MAX,
    ensures
        ({
            let (h, next) = golden_walk(gt@, FNV_OFFSET, 1, gt@.len());
            r == (h, (next - 1) as u64)
        }),
{
    let n = gt.len();
    proof {
        lemma_walk_limit(gt@, FNV_OFFSET, 1, gt@.len(), n as nat);
    }
    walk(gt, n)
}

/// Second implementation of the golden walk, hashing byte by byte, that stops after
/// `limit` messages.
pub fn golden_cross_check(gt: &[u8], limit: usize) -> (r: (u64, u64))
    requires
        gt@.len() + 2 <= u64::MAX,
    ensures
        ({
            let (h, next) = golden_walk(gt@, FNV_OFFSET, 1, limit as nat);
            r == (h, (next - 1) as u64)
        }),
{
    walk(gt, limit)
}

/// The cross-check agrees with the golden walk once its limit covers the stream.
pub proof fn law_cross_check_agrees(gt: Seq<u8>, limit: nat)
    requires
        limit >= gt.len(),
    ensures
        golden_walk(gt, FNV_OFFSET, 1, limit) == golden_walk(gt, FNV_OFFSET, 1, gt.len()),
{
    lemma_walk_limit(gt, FNV_OFFSET, 1, limit, gt.len());
}

/// Where the first `limit` whole blocks of `rest` end; they end earlier at a block that
/// does not fit.
pub open spec fn prefix_end(rest: Seq<u8>, limit: nat) -> int
    decreases rest.len(),
{
    if limit == 0 || rest.len() < 2 {
        0
    } else {
        let len = be_u16(rest[0], rest[1]) as int;
        if rest.len() - 2 < len {
            0
        } else {
            2 + len + prefix_end(rest.skip(2 + len), (limit - 1) as nat)
        }
    }
}

/// Walking at most `limit` blocks of `rest` is walking all of `rest` cut where those
/// blocks end.
pub proof fn lemma_prefix_walk(rest: Seq<u8>, h: u64, seq: u64, limit: nat)
    ensures
        0 <= prefix_end(rest, limit) <= rest.len(),
        golden_walk(rest, h, seq, limit) == golden_walk(
            rest.take(prefix_end(rest, limit)),
            h,
            seq,
            prefix_end(rest, limit) as nat,
        ),
    decreases rest.len(),
{
    let p = prefix_end(rest, limit);
    if limit == 0 || rest.len() < 2 {
        assert(rest.take(0).len() == 0);
    } else {
        let len = be_u16(rest[0], rest[1]) as int;
        if rest.len() - 2 < len {
            assert(rest.take(0).len() == 0);
        } else {
            let tail = rest.skip(2 + len);
            let h1 = golden_msg(h, rest.subrange(2, 2 + len));
            lemma_prefix_walk(tail, h1, (seq + 1) as u64, (limit - 1) as nat);
            let p1 = prefix_end(tail, (limit - 1) as nat);
            let t = rest.take(p);
            assert(t[0] == rest[0] && t[1] == rest[1]);
            assert(t.subrange(2, 2 + len) =~= rest.subrange(2, 2 + len));
            assert(t.skip(2 + len) =~= tail.take(p1));
            lemma_walk_limit(tail.take(p1), h1, (seq + 1) as u64, (p - 1) as nat, p1 as nat);
        }
    }
}

/// The cross-check over the first `limit` messages is the golden walk of the stream cut
/// after those messages.
pub proof fn law_cross_check_prefix(gt: Seq<u8>, limit: nat)
    ensures
        ({
            let cut = gt.take(prefix_end(gt, limit));
            golden_walk(gt, FNV_OFFSET, 1, limit) == golden_walk(cut, FNV_OFFSET, 1, cut.len())
        }),
{
    lemma_prefix_walk(gt, FNV_OFFSET, 1, limit);
}

/// One FNV-1a-64 step as its definition states it: exclusive-or the byte into the low
/// bits, then multiply by the 64-bit FNV prime 1099511628211 modulo 2^64.
pub open spec fn fnv1a_64_step(h: u64, b: u8) -> u64 {
    ((((h ^ (b as u64)) as nat) * 1099511628211nat) % 0x1_0000_0000_0000_0000nat) as u64
}

/// FNV-1a-64 of `bytes` from `h`, byte by byte.
pub open spec fn fnv1a_64(h: u64, bytes: Seq<u8>) -> u64
    decreases bytes.len(),
{
    if bytes.len() == 0 {
        h
    } else {
        fnv1a_64_step(fnv1a_64(h, bytes.drop_last()), bytes.last())
    }
}

/// The hash the golden walk and the sinks fold is FNV-1a-64: every step exclusive-ors
/// the byte in and multiplies by the FNV prime modulo 2^64, so folding any bytes from any
/// start gives their FNV-1a-64 hash. From the FNV offset basis, the hash of `"a"` is
/// the published `0xaf63dc4c8601ec8c`.
pub proof fn law_fnv_is_fnv1a(h: u64, bytes: Seq<u8>)
    ensures
        fnv_fold(h, bytes) == fnv1a_64(h, bytes),
        FNV_OFFSET == 0xcbf29ce484222325,
        FNV_PRIME == 1099511628211,
        fnv_fold(0xcbf29ce484222325, seq![0x61u8]) == 0xaf63dc4c8601ec8cu64,
    decreases bytes.len(),
{
    if bytes.len() > 0 {
        law_fnv_is_fnv1a(h, bytes.drop_last());
    }
    let a = seq![0x61u8];
    assert(a.drop_last() =~= Seq::<u8>::empty());
    assert(0xcbf29ce484222325u64 ^ 0x61u64 == 0xcbf29ce484222344u64) by (bit_vector);
    assert((0xcbf29ce484222344nat * 1099511628211nat) % 0x1_0000_0000_0000_0000nat == 0xaf63dc4c8601ec8cnat);
    assert(fnv_fold(0xcbf29ce484222325, a) == fnv_step(fnv_fold(0xcbf29ce484222325, a.drop_last()), 0x61u8));
    assert(fnv_fold(0xcbf29ce484222325, a.drop_last()) == 0xcbf29ce484222325u64);
    assert(fnv_step(0xcbf29ce484222325, 0x61u8) == 0xcbf29ce484222344u64.wrapping_mul(FNV_PRIME));
}

} // verus!
