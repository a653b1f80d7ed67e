//! What a retransmission server written from the MoldUDP64 request and downstream packet
//! grammar alone answers to a request, from a database of messages by sequence number:
//! packets of consecutive stored messages of at most 1400 bytes, stopping at the first
//! message it does not hold. The socket loop that receives requests and sends these
//! packets lives with the caller.

use vstd::prelude::*;
use std::collections::BTreeMap;
use crate::protocol::bytes::{be_u16, be_u64, read_be_u16, read_be_u64, u16_be_bytes, u64_be_bytes};

verus! {

broadcast use vstd::std_specs::btree::group_btree_axioms, vstd::laws_cmp::group_laws_cmp;

/// The largest downstream packet the server sends.
pub const SPEC_PACKET_MTU: usize = 1400;

/// The blocks of stored messages from `seq` on, at most `remaining` of them, that fit a
/// packet already `len` bytes long within 1400 bytes; how many they are, and the
/// sequence number after the last (sequence numbers wrap around).
pub open spec fn fill_blocks(db: Map<u64, Vec<u8>>, seq: u64, remaining: nat, len: int) -> (Seq<u8>, nat, u64)
    decreases remaining,
{
    if remaining == 0 || !db.contains_key(seq) || len + 2 + db[seq]@.len() > 1400 {
        (Seq::empty(), 0, seq)
    } else {
        let m = db[seq]@;
        let (rest, n, next) = fill_blocks(db, seq.wrapping_add(1), (remaining - 1) as nat, len + 2 + m.len());
        (u16_be_bytes(m.len() as u16) + m + rest, n + 1, next)
    }
}

/// A fill takes at most the messages it may.
pub proof fn lemma_fill_bound(db: Map<u64, Vec<u8>>, seq: u64, remaining: nat, len: int)
    ensures
        fill_blocks(db, seq, remaining, len).1 <= remaining,
    decreases remaining,
{
    if remaining > 0 && db.contains_key(seq) && len + 2 + db[seq]@.len() <= 1400 {
        lemma_fill_bound(db, seq.wrapping_add(1), (remaining - 1) as nat, len + 2 + db[seq]@.len());
    }
}

/// The downstream packets for `remaining` messages from `seq` on: each a header under
/// `session` with its first sequence number and block count, then its blocks; they stop
/// at the first packet that would be empty.
pub open spec fn reply_packets(session: Seq<u8>, db: Map<u64, Vec<u8>>, seq: u64, remaining: nat) -> Seq<Seq<u8>>
    decreases remaining,
{
    let (body, n, next) = fill_blocks(db, seq, remaining, 20);
    if remaining == 0 || n == 0 || n > remaining {
        Seq::empty()
    } else {
        seq![session + u64_be_bytes(seq) + u16_be_bytes(n as u16) + body] + reply_packets(
            session,
            db,
            next,
            (remaining - n) as nat,
        )
    }
}

/// The server's answer to request `req`: nothing to a request shorter than 20 bytes or
/// for another session, otherwise the packets for the requested count of messages from
/// the requested sequence number.
pub open spec fn spec_reply(session: Seq<u8>, db: Map<u64, Vec<u8>>, req: Seq<u8>) -> Seq<Seq<u8>> {
    if req.len() < 20 || req.take(10) != session {
        Seq::empty()
    } else {
        reply_packets(session, db, be_u64(req.subrange(10, 18)), be_u16(req[18], req[19]) as nat)
    }
}

/// Appends the big-endian bytes of `x`.
fn push_be_u16(out: &mut Vec<u8>, x: u16)
    ensures
        final(out)@ == old(out)@ + u16_be_bytes(x),
{
    out.push(((x >> 8u16) & 0xffu16) as u8);
    out.push((x & 0xffu16) as u8);
    assert(out@ =~= old(out)@ + u16_be_bytes(x));
}

/// Appends the big-endian bytes of `x`.
fn push_be_u64(out: &mut Vec<u8>, x: u64)
    ensures
        final(out)@ == old(out)@ + u64_be_bytes(x),
{
    out.push(((x >> 56u64) & 0xffu64) as u8);
    out.push(((x >> 48u64) & 0xffu64) as u8);
    out.push(((x >> 40u64) & 0xffu64) as u8);
    out.push(((x >> 32u64) & 0xffu64) as u8);
    out.push(((x >> 24u64) & 0xffu64) as u8);
    out.push(((x >> 16u64) & 0xffu64) as u8);
    out.push(((x >> 8u64) & 0xffu64) as u8);
    out.push((x & 0xffu64) as u8);
    assert(out@ =~= old(out)@ + u64_be_bytes(x));
}

/// Appends the ten bytes of a session id.
fn push_session(out: &mut Vec<u8>, session: &[u8; 10])
    ensures
        final(out)@ == old(out)@ + session@,
{
    let mut i: usize = 0;
    while i < 10
        invariant
            i <= 10,
            out@ == old(out)@ + session@.take(i as int),
        decreases 10 - i,
    {
        out.push(session[i]);
        assert(out@ =~= old(out)@ + session@.take(i + 1));
        i = i + 1;
    }
    assert(session@.take(10) =~= session@);
}

/// Appends the bytes of `src`.
fn push_all(out: &mut Vec<u8>, src: &Vec<u8>)
    ensures
        final(out)@ == old(out)@ + src@,
{
    let mut i: usize = 0;
    while i < src.len()
        invariant
            i <= src@.len(),
            out@ == old(out)@ + src@.take(i as int),
        decreases src@.len() - i,
    {
        out.push(src[i]);
        assert(out@ =~= old(out)@ + src@.take(i + 1));
        i = i + 1;
    }
    assert(src@.take(src@.len() as int) =~= src@);
}

/// The packets the server sends in answer to request `req`, from the database `messages`
/// under `session`.
pub fn spec_server_reply(session: [u8; 10], messages: &BTreeMap<u64, Vec<u8>>, req: &[u8]) -> (r: Vec<Vec<u8>>)
    ensures
        r@.map_values(|p: Vec<u8>| p@) == spec_reply(session@, messages@, req@),
{
    let mut out: Vec<Vec<u8>> = Vec::new();
    if req.len() < 20 {
        assert(out@.map_values(|p: Vec<u8>| p@) =~= Seq::<Seq<u8>>::empty());
        return out;
    }
    let mut i: usize = 0;
    while i < 10
        invariant
            i <= 10,
            req@.len() >= 20,
            out@.len() == 0,
            forall|j: int| 0 <= j < i ==> req@[j] == session@[j],
        decreases 10 - i,
    {
        if req[i] != session[i] {
            assert(req@.take(10)[i as int] != session@[i as int]);
            assert(out@.map_values(|p: Vec<u8>| p@) =~= Seq::<Seq<u8>>::empty());
            return out;
        }
        i = i + 1;
    }
    assert(req@.take(10) =~= session@);
    let req_seq = read_be_u64(req, 10);
    let req_count = read_be_u16(req, 18);
    let ghost db = messages@;
    let ghost total = reply_packets(session@, db, req_seq, req_count as nat);
    let mut cur = req_seq;
    let mut remaining = req_count;
    assert(out@.map_values(|p: Vec<u8>| p@) + reply_packets(session@, db, cur, remaining as nat) =~= total);
    while remaining > 0
        invariant_except_break
            db == messages@,
            total == reply_packets(session@, db, req_seq, req_count as nat),
            out@.map_values(|p: Vec<u8>| p@) + reply_packets(session@, db, cur, remaining as nat) == total,
        ensures
            out@.map_values(|p: Vec<u8>| p@) == total,
        decreases remaining,
    {
        let ghost c0 = cur;
        let ghost r0 = remaining;
        let mut pkt: Vec<u8> = Vec::new();
        push_session(&mut pkt, &session);
        push_be_u64(&mut pkt, cur);
        let ghost head = pkt@;
        push_be_u16(&mut pkt, 0);
        let mut pkt_count: u16 = 0;
        let mut pkt_seq = cur;
        let ghost whole = fill_blocks(db, c0, r0 as nat, 20);
        assert(pkt@ =~= session@ + u64_be_bytes(c0) + u16_be_bytes(0));
        let ghost mut body: Seq<u8> = Seq::empty();
        loop
            invariant_except_break
                db == messages@,
                r0 > 0,
                pkt_count as int + remaining as int == r0 as int,
                pkt@ == session@ + u64_be_bytes(c0) + u16_be_bytes(0) + body,
                pkt@.len() <= 1400,
                ({
                    let (b, n, next) = fill_blocks(db, pkt_seq, remaining as nat, pkt@.len() as int);
                    whole == (body + b, (pkt_count + n) as nat, next)
                }),
            ensures
                pkt_count as int + remaining as int == r0 as int,
                pkt@ == session@ + u64_be_bytes(c0) + u16_be_bytes(0) + body,
                whole == (body, pkt_count as nat, pkt_seq),
            decreases remaining,
        {
            if remaining == 0 {
                break;
            }
            match messages.get(&pkt_seq) {
                Some(msg) => {
                    if msg.len() > 1400 || pkt.len() + 2 + msg.len() > 1400 {
                        break;
                    }
                    let ghost before = pkt@;
                    let ghost m = msg@;
                    push_be_u16(&mut pkt, msg.len() as u16);
                    push_all(&mut pkt, msg);
                    proof {
                        let (b1, n1, x1) = fill_blocks(db, pkt_seq.wrapping_add(1), (remaining - 1) as nat, pkt@.len() as int);
                        assert(fill_blocks(db, pkt_seq, remaining as nat, before.len() as int) == (
                            u16_be_bytes(m.len() as u16) + m + b1,
                            n1 + 1,
                            x1,
                        ));
                        assert(body + (u16_be_bytes(m.len() as u16) + m + b1) =~= (body + u16_be_bytes(m.len() as u16) + m) + b1);
                        body = body + u16_be_bytes(m.len() as u16) + m;
                        assert(pkt@ =~= session@ + u64_be_bytes(c0) + u16_be_bytes(0) + body);
                    }
                    pkt_count = pkt_count + 1;
                    pkt_seq = pkt_seq.wrapping_add(1);
                    remaining = remaining - 1;
                },
                None => {
                    break;
                },
            }
        }
        proof {
            lemma_fill_bound(db, c0, r0 as nat, 20);
        }
        if pkt_count == 0 {
            break;
        }
        let ghost fixed = session@ + u64_be_bytes(c0) + u16_be_bytes(pkt_count) + body;
        write_count(&mut pkt, pkt_count);
        assert(pkt@ =~= fixed);
        let ghost prev = out@.map_values(|p: Vec<u8>| p@);
        out.push(pkt);
        assert(out@.map_values(|p: Vec<u8>| p@) =~= prev.push(fixed));
        assert(reply_packets(session@, db, c0, r0 as nat) == seq![fixed] + reply_packets(session@, db, pkt_seq, remaining as nat));
        assert(prev.push(fixed) + reply_packets(session@, db, pkt_seq, remaining as nat) =~= prev + (seq![fixed] + reply_packets(session@, db, pkt_seq, remaining as nat)));
        cur = pkt_seq;
    }
    out
}

/// Writes the block count of packet `pkt` into its header.
fn write_count(pkt: &mut Vec<u8>, count: u16)
    requires
        old(pkt)@.len() >= 20,
    ensures
        final(pkt)@ == old(pkt)@.take(18) + u16_be_bytes(count) + old(pkt)@.skip(20),
{
    pkt.set(18, ((count >> 8u16) & 0xffu16) as u8);
    pkt.set(19, (count & 0xffu16) as u8);
    assert(pkt@ =~= old(pkt)@.take(18) + u16_be_bytes(count) + old(pkt)@.skip(20));
}

} // verus!
