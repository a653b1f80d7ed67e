//! What the fake retransmission server answers to a request: the response packets cut
//! from the ground truth and the faults it injects. The socket loop that receives
//! requests and sends these packets lives with the caller.

use vstd::prelude::*;
use crate::protocol::bytes::{be_u16, be_u64, read_be_u16, read_be_u64};
use crate::protocol::moldudp64::{encode_request, header_bytes, REQUEST_LEN};

verus! {

#[derive(Debug, Clone, Copy, PartialEq, Eq, Structural)]
pub enum FaultMode {
    /// No fault.
    NoFault,
    DelayMs(u64),
    /// Ignore the n-th request (counting from 1).
    DropRequest(usize),
    /// Drop the n-th response packet of each request (counting from 1).
    DropResponse(usize),
    /// Serve at most this many messages per request.
    TruncateAfter(u16),
    WrongSession,
    DuplicateFirst,
    Unbound,
}

#[derive(Debug, Clone)]
pub struct SessionTruth {
    pub session_id: [u8; 10],
    pub first_seq: u64,
    pub first_msg_index: u64,
    pub total_msgs: u64,
}

/// The largest response packet, header included, unless a single block is larger.
pub const RESPONSE_MTU: usize = 1400;

/// The offset reached skipping messages from `idx` to `target` from offset `off`; the
/// skip stops early where a length prefix cannot be read.
pub open spec fn skip_msgs(gt: Seq<u8>, off: int, idx: int, target: int) -> int
    decreases target - idx,
{
    if idx >= target || off < 0 || off + 2 > gt.len() {
        off
    } else {
        skip_msgs(gt, off + 2 + be_u16(gt[off], gt[off + 1]), idx + 1, target)
    }
}

/// How many blocks from offset `off` go into a response packet that starts at sequence
/// number `seq` and holds `plen` bytes with `c` blocks so far, and where they end: blocks
/// are added while they fit the stream, the request's range ends at `end`, and the packet
/// stays within [`RESPONSE_MTU`] (the first block always goes in).
pub open spec fn pack_count(gt: Seq<u8>, off: int, seq: int, end: int, plen: int, c: int) -> (int, int)
    decreases end - seq - c,
{
    if seq + c >= end || off < 0 || off + 2 > gt.len() {
        (c, off)
    } else {
        let bt = 2 + be_u16(gt[off], gt[off + 1]);
        if off + bt > gt.len() || (plen + bt > RESPONSE_MTU && c > 0) {
            (c, off)
        } else {
            pack_count(gt, off + bt, seq, end, plen + bt, c + 1)
        }
    }
}

/// The response packets for sequence numbers `seq..end` whose messages start at offset
/// `off`: each a header with its first sequence number and count, then its blocks.
pub open spec fn pack_all(gt: Seq<u8>, session: Seq<u8>, off: int, seq: int, end: int) -> Seq<Seq<u8>>
    decreases end - seq,
{
    if seq >= end || off < 0 || off >= gt.len() {
        Seq::empty()
    } else {
        let (c, off2) = pack_count(gt, off, seq, end, 20, 0);
        if c <= 0 || seq + c > end {
            Seq::empty()
        } else {
            seq![header_bytes(session, seq as u64, c as u16) + gt.subrange(off, off2)] + pack_all(
                gt,
                session,
                off2,
                seq + c,
                end,
            )
        }
    }
}

/// The ground-truth message index that carries sequence number `from_seq` of `truth`.
pub open spec fn truth_msg_index(truth: SessionTruth, from_seq: u64) -> int {
    truth.first_msg_index + (if from_seq > truth.first_seq {
        from_seq - truth.first_seq
    } else {
        0
    })
}

/// The response packets for `count` messages from `from_seq` under `session`.
pub open spec fn response_packets(gt: Seq<u8>, session: Seq<u8>, truth: SessionTruth, from_seq: u64, count: u16) -> Seq<Seq<u8>> {
    if count == 0 {
        Seq::empty()
    } else {
        let off = skip_msgs(gt, 0, 0, truth_msg_index(truth, from_seq));
        pack_all(gt, session, off, from_seq as int, from_seq + count)
    }
}

proof fn lemma_skip_bound(gt: Seq<u8>, off: int, idx: int, target: int)
    requires
        0 <= off <= gt.len() + 65537,
    ensures
        off <= skip_msgs(gt, off, idx, target) <= gt.len() + 65537,
    decreases target - idx,
{
    if idx < target && off + 2 <= gt.len() {
        lemma_skip_bound(gt, off + 2 + be_u16(gt[off], gt[off + 1]), idx + 1, target);
    }
}

proof fn lemma_pack_count_bound(gt: Seq<u8>, off: int, seq: int, end: int, plen: int, c: int)
    requires
        0 <= off <= gt.len(),
        0 <= c,
        seq + c <= end,
    ensures
        ({
            let (c2, off2) = pack_count(gt, off, seq, end, plen, c);
            &&& c <= c2
            &&& seq + c2 <= end
            &&& off <= off2 <= gt.len()
            &&& (c2 == c ==> off2 == off)
        }),
    decreases end - seq - c,
{
    if seq + c < end && off + 2 <= gt.len() {
        let bt = 2 + be_u16(gt[off], gt[off + 1]);
        if off + bt <= gt.len() && !(plen + bt > RESPONSE_MTU && c > 0) {
            lemma_pack_count_bound(gt, off + bt, seq, end, plen + bt, c + 1);
        }
    }
}

/// Counts the blocks of the next response packet (see [`pack_count`]).
fn pack_count_exec(gt: &[u8], off: usize, seq: u64, end: u64) -> (r: (u16, usize))
    requires
        off <= gt@.len(),
        seq < end,
        end - seq <= 65535,
        gt@.len() + 0x2_0000 <= usize::MAX,
    ensures
        (r.0 as int, r.1 as int) == pack_count(gt@, off as int, seq as int, end as int, 20, 0),
{
    let mut c: u64 = 0;
    let mut pos = off;
    let mut plen: usize = 20;
    let mut done = false;
    while !done && seq + c < end && gt.len() - pos >= 2
        invariant
            off <= pos <= gt@.len(),
            seq + c <= end,
            end - seq <= 65535,
            gt@.len() + 0x2_0000 <= usize::MAX,
            20 <= plen <= 20 + 65537,
            c == 0 ==> plen == 20,
            c > 1 ==> plen <= 1400,
            done ==> pack_count(gt@, off as int, seq as int, end as int, 20, 0) == (c as int, pos as int),
            !done ==> pack_count(gt@, off as int, seq as int, end as int, 20, 0) == pack_count(
                gt@,
                pos as int,
                seq as int,
                end as int,
                plen as int,
                c as int,
            ),
        decreases end - seq - c + (if done { 0int } else { 1int }),
    {
        let bt = 2 + read_be_u16(gt, pos) as usize;
        if bt > gt.len() - pos || (plen + bt > RESPONSE_MTU && c > 0) {
            done = true;
        } else {
            pos = pos + bt;
            plen = plen + bt;
            c = c + 1;
        }
    }
    (c as u16, pos)
}

/// Copies `gt[from..to]` onto the end of `out`.
fn append_range(out: &mut Vec<u8>, gt: &[u8], from: usize, to: usize)
    requires
        from <= to <= gt@.len(),
    ensures
        final(out)@ == old(out)@ + gt@.subrange(from as int, to as int),
{
    let mut k = from;
    while k < to
        invariant
            from <= k <= to,
            to <= gt@.len(),
            out@ == old(out)@ + gt@.subrange(from as int, k as int),
        decreases to - k,
    {
        out.push(gt[k]);
        k = k + 1;
        assert(out@ =~= old(out)@ + gt@.subrange(from as int, k as int));
    }
}

/// Cuts the response packets for `count` messages from `from_seq` out of the ground truth
/// (see [`response_packets`]).
pub fn pack_response_packets(gt: &[u8], session: &[u8; 10], truth: &SessionTruth, from_seq: u64, count: u16) -> (r: Vec<Vec<u8>>)
    requires
        from_seq + count <= u64::MAX,
        truth_msg_index(*truth, from_seq) <= u64::MAX,
        gt@.len() + 0x2_0000 <= usize::MAX,
    ensures
        r@.map_values(|p: Vec<u8>| p@) == response_packets(gt@, session@, *truth, from_seq, count),
{
    let mut packets: Vec<Vec<u8>> = Vec::new();
    if count == 0 {
        assert(packets@.map_values(|p: Vec<u8>| p@) =~= Seq::<Seq<u8>>::empty());
        return packets;
    }
    let end_seq = from_seq + count as u64;
    let target: u64 = truth.first_msg_index + from_seq.saturating_sub(truth.first_seq);
    let mut cur_msg_index: u64 = 0;
    let mut cur_offset: usize = 0;
    while cur_msg_index < target && gt.len() >= 2 && cur_offset <= gt.len() - 2
        invariant
            cur_msg_index <= target,
            cur_offset <= gt@.len() + 65537,
            gt@.len() + 0x2_0000 <= usize::MAX,
            skip_msgs(gt@, 0, 0, target as int) == skip_msgs(gt@, cur_offset as int, cur_msg_index as int, target as int),
        decreases target - cur_msg_index,
    {
        let len = read_be_u16(gt, cur_offset) as usize;
        cur_offset = cur_offset + 2 + len;
        cur_msg_index = cur_msg_index + 1;
    }
    let ghost all = response_packets(gt@, session@, *truth, from_seq, count);
    let mut cur_seq = from_seq;
    let mut done = false;
    assert(packets@.map_values(|p: Vec<u8>| p@) =~= Seq::<Seq<u8>>::empty());
    while !done && cur_seq < end_seq && cur_offset < gt.len()
        invariant
            done ==> all == packets@.map_values(|p: Vec<u8>| p@),
            from_seq <= cur_seq <= end_seq,
            end_seq == from_seq + count,
            count >= 1,
            cur_offset <= gt@.len() + 65537,
            gt@.len() + 0x2_0000 <= usize::MAX,
            !done ==> all == packets@.map_values(|p: Vec<u8>| p@) + pack_all(
                gt@,
                session@,
                cur_offset as int,
                cur_seq as int,
                end_seq as int,
            ),
        decreases end_seq - cur_seq + (if done { 0int } else { 1int }),
    {
        let (pkt_count, pkt_end) = pack_count_exec(gt, cur_offset, cur_seq, end_seq);
        proof {
            lemma_pack_count_bound(gt@, cur_offset as int, cur_seq as int, end_seq as int, 20, 0);
        }
        if pkt_count == 0 {
            assert(pack_all(gt@, session@, cur_offset as int, cur_seq as int, end_seq as int) =~= Seq::<
                Seq<u8>,
            >::empty());
            assert(all =~= packets@.map_values(|p: Vec<u8>| p@));
            done = true;
        } else {
        let mut hdr = [0u8; REQUEST_LEN];
        encode_request(session, cur_seq, pkt_count, &mut hdr);
        let mut pkt: Vec<u8> = Vec::new();
        append_range(&mut pkt, &hdr, 0, REQUEST_LEN);
        append_range(&mut pkt, gt, cur_offset, pkt_end);
        proof {
            assert(hdr@.subrange(0, 20) =~= hdr@);
            let rest = pack_all(gt@, session@, pkt_end as int, cur_seq + pkt_count, end_seq as int);
            assert(pack_all(gt@, session@, cur_offset as int, cur_seq as int, end_seq as int) == seq![pkt@]
                + rest);
            assert(packets@.push(pkt).map_values(|p: Vec<u8>| p@) =~= packets@.map_values(|p: Vec<u8>| p@).push(
                pkt@,
            ));
            assert(packets@.map_values(|p: Vec<u8>| p@).push(pkt@) + rest =~= packets@.map_values(
                |p: Vec<u8>| p@,
            ) + (seq![pkt@] + rest));
        }
        packets.push(pkt);
        cur_seq = cur_seq + pkt_count as u64;
        cur_offset = pkt_end;
        }
    }
    proof {
        if !done {
            assert(pack_all(gt@, session@, cur_offset as int, cur_seq as int, end_seq as int) =~= Seq::<
                Seq<u8>,
            >::empty());
            assert(all =~= packets@.map_values(|p: Vec<u8>| p@));
        }
    }
    packets
}


/// The session id a wrong-session fault answers with.
pub open spec fn wrong_session_id() -> Seq<u8> {
    seq![0x57u8, 0x52u8, 0x4Fu8, 0x4Eu8, 0x47u8, 0x53u8, 0x45u8, 0x53u8, 0x53u8, 0x31u8]
}

/// The index of the first session of `sessions` from `i` on whose id is `sid`.
pub open spec fn find_truth(sessions: Seq<SessionTruth>, sid: Seq<u8>, i: int) -> Option<int>
    decreases sessions.len() - i,
{
    if i < 0 || i >= sessions.len() {
        None
    } else if sessions[i].session_id@ == sid {
        Some(i)
    } else {
        find_truth(sessions, sid, i + 1)
    }
}

/// The requested session id, first sequence number and message count of request `req`.
pub open spec fn request_fields(req: Seq<u8>) -> (Seq<u8>, u64, u16) {
    (req.subrange(0, 10), be_u64(req.subrange(10, 18)), be_u16(req[18], req[19]))
}

/// Serving `req` stays within `u64`: the requested range ends by `u64::MAX`, and so does
/// the message index it starts at.
pub open spec fn request_fits(sessions: Seq<SessionTruth>, req: Seq<u8>) -> bool {
    let (sid, seq, count) = request_fields(req);
    match find_truth(sessions, sid, 0) {
        Some(i) => seq + count <= u64::MAX && truth_msg_index(sessions[i], seq) <= u64::MAX,
        None => true,
    }
}

/// The packets answered to the `req_counter`-th request `req` under `fault`, in sending
/// order, and the number of faults injected: a dropped request and an unknown session
/// get no answer; a truncation caps the count; a wrong-session fault renames the
/// session; then a dropped response loses the n-th packet and a duplicate-first fault
/// sends the first packet twice.
pub open spec fn serve_spec(gt: Seq<u8>, sessions: Seq<SessionTruth>, fault: FaultMode, req_counter: usize, req: Seq<u8>) -> (
    Seq<Seq<u8>>,
    int,
) {
    let (sid, seq, count) = request_fields(req);
    if fault matches FaultMode::DropRequest(n) && req_counter == n {
        (Seq::empty(), 1)
    } else {
        match find_truth(sessions, sid, 0) {
            None => (Seq::empty(), 1),
            Some(i) => {
                let t = sessions[i];
                let (cnt, f1) = match fault {
                    FaultMode::TruncateAfter(k) => (if count < k { count } else { k }, 1int),
                    _ => (count, 0int),
                };
                let (sess, f2) = match fault {
                    FaultMode::WrongSession => (wrong_session_id(), 1int),
                    _ => (t.session_id@, 0int),
                };
                let pk = response_packets(gt, sess, t, seq, cnt);
                match fault {
                    FaultMode::DropResponse(n) => if 1 <= n <= pk.len() {
                        (pk.remove(n - 1), f1 + f2 + 1)
                    } else {
                        (pk, f1 + f2)
                    },
                    FaultMode::DuplicateFirst => if pk.len() > 0 {
                        (seq![pk[0]] + pk, f1 + f2 + 1)
                    } else {
                        (pk, f1 + f2)
                    },
                    _ => (pk, f1 + f2),
                }
            },
        }
    }
}

/// What the server sends for one request, and the faults it injected doing so.
pub struct ServedRequest {
    pub packets: Vec<Vec<u8>>,
    pub faults: u64,
}

/// The first session of `sessions` whose id is `sid`.
fn find_truth_exec(sessions: &[SessionTruth], sid: &[u8; 10]) -> (r: Option<usize>)
    ensures
        r matches Some(i) ==> find_truth(sessions@, sid@, 0) == Some(i as int) && i < sessions@.len(),
        r is None ==> find_truth(sessions@, sid@, 0) is None,
{
    let mut i: usize = 0;
    while i < sessions.len()
        invariant
            i <= sessions@.len(),
            find_truth(sessions@, sid@, 0) == find_truth(sessions@, sid@, i as int),
        decreases sessions.len() - i,
    {
        let mut same = true;
        let mut k: usize = 0;
        while k < 10
            invariant
                k <= 10,
                i < sessions@.len(),
                same == forall|j: int| 0 <= j < k ==> sessions@[i as int].session_id@[j] == sid@[j],
            decreases 10 - k,
        {
            if sessions[i].session_id[k] != sid[k] {
                same = false;
            }
            k = k + 1;
        }
        if same {
            assert(sessions@[i as int].session_id@ =~= sid@);
            return Some(i);
        }
        assert(sessions@[i as int].session_id@ != sid@) by {
            let j = choose|j: int| 0 <= j < 10 && sessions@[i as int].session_id@[j] != sid@[j];
        }
        i = i + 1;
    }
    None
}

/// Whether serving `req` stays within `u64` (see [`request_fits`]).
pub fn request_fits_exec(sessions: &[SessionTruth], req: &[u8]) -> (r: bool)
    requires
        req@.len() >= REQUEST_LEN,
    ensures
        r == request_fits(sessions@, req@),
{
    let mut sid = [0u8; 10];
    let mut k: usize = 0;
    while k < 10
        invariant
            k <= 10,
            req@.len() >= REQUEST_LEN,
            forall|j: int| 0 <= j < k ==> sid@[j] == req@[j],
        decreases 10 - k,
    {
        sid[k] = req[k];
        k = k + 1;
    }
    assert(sid@ =~= req@.subrange(0, 10));
    let seq = read_be_u64(req, 10);
    let count = read_be_u16(req, 18);
    match find_truth_exec(sessions, &sid) {
        Some(i) => {
            let t = &sessions[i];
            let skip = seq.saturating_sub(t.first_seq);
            seq <= u64::MAX - count as u64 && t.first_msg_index <= u64::MAX - skip
        },
        None => true,
    }
}

/// The packets answered to the `req_counter`-th request `req` under `fault` (see
/// [`serve_spec`]).
pub fn serve_request(gt: &[u8], sessions: &[SessionTruth], fault: FaultMode, req_counter: usize, req: &[u8]) -> (r: ServedRequest)
    requires
        req@.len() >= REQUEST_LEN,
        request_fits(sessions@, req@),
        gt@.len() + 0x2_0000 <= usize::MAX,
    ensures
        r.packets@.map_values(|p: Vec<u8>| p@) == serve_spec(gt@, sessions@, fault, req_counter, req@).0,
        r.faults == serve_spec(gt@, sessions@, fault, req_counter, req@).1,
{
    if let FaultMode::DropRequest(n) = fault {
        if req_counter == n {
            let packets: Vec<Vec<u8>> = Vec::new();
            assert(packets@.map_values(|p: Vec<u8>| p@) =~= Seq::<Seq<u8>>::empty());
            return ServedRequest { packets, faults: 1 };
        }
    }
    let mut sid = [0u8; 10];
    let mut k: usize = 0;
    while k < 10
        invariant
            k <= 10,
            req@.len() >= REQUEST_LEN,
            forall|j: int| 0 <= j < k ==> sid@[j] == req@[j],
        decreases 10 - k,
    {
        sid[k] = req[k];
        k = k + 1;
    }
    assert(sid@ =~= req@.subrange(0, 10));
    let req_seq = read_be_u64(req, 10);
    let req_count = read_be_u16(req, 18);
    let idx = match find_truth_exec(sessions, &sid) {
        Some(i) => i,
        None => {
            let packets: Vec<Vec<u8>> = Vec::new();
            assert(packets@.map_values(|p: Vec<u8>| p@) =~= Seq::<Seq<u8>>::empty());
            return ServedRequest { packets, faults: 1 };
        },
    };
    let truth = &sessions[idx];
    let mut faults: u64 = 0;
    let count_to_serve = match fault {
        FaultMode::TruncateAfter(k) => {
            faults = faults + 1;
            if req_count < k {
                req_count
            } else {
                k
            }
        },
        _ => req_count,
    };
    let effective_sess: [u8; 10] = match fault {
        FaultMode::WrongSession => {
            faults = faults + 1;
            [0x57u8, 0x52u8, 0x4Fu8, 0x4Eu8, 0x47u8, 0x53u8, 0x45u8, 0x53u8, 0x53u8, 0x31u8]
        },
        _ => truth.session_id,
    };
    proof {
        if fault == FaultMode::WrongSession {
            assert(effective_sess@ =~= wrong_session_id());
        }
    }
    let packets = pack_response_packets(gt, &effective_sess, truth, req_seq, count_to_serve);
    let ghost pk = packets@.map_values(|p: Vec<u8>| p@);
    let mut out: Vec<Vec<u8>> = Vec::new();
    let n = packets.len();
    let mut i: usize = 0;
    let mut is_first = true;
    let ghost mut expect: Seq<Seq<u8>> = Seq::empty();
    while i < n
        invariant
            i <= n,
            n == packets@.len(),
            pk == packets@.map_values(|p: Vec<u8>| p@),
            faults <= 2,
            out@.map_values(|p: Vec<u8>| p@) == (match fault {
                FaultMode::DropResponse(m) => if 1 <= m <= i {
                    pk.take(i as int).remove(m - 1)
                } else {
                    pk.take(i as int)
                },
                FaultMode::DuplicateFirst => if i > 0 {
                    seq![pk[0]] + pk.take(i as int)
                } else {
                    Seq::empty()
                },
                _ => pk.take(i as int),
            }),
            is_first == (i == 0 || (fault matches FaultMode::DropResponse(m) && m == 1 && i == 1)),
        decreases n - i,
    {
        let ghost before = out@;
        let pkt = vec_copy(&packets[i]);
        let mut skip = false;
        if let FaultMode::DropResponse(m) = fault {
            if i + 1 == m {
                skip = true;
            }
        }
        if !skip {
            if fault == FaultMode::DuplicateFirst && is_first {
                out.push(vec_copy(&pkt));
            }
            is_first = false;
            out.push(pkt);
        }
        proof {
            assert(pk.take(i + 1) =~= pk.take(i as int).push(pk[i as int]));
            match fault {
                FaultMode::DropResponse(m) => {
                    if 1 <= m <= i {
                        assert(pk.take(i + 1).remove(m - 1) =~= pk.take(i as int).remove(m - 1).push(pk[i as int]));
                    } else if m == i + 1 {
                        assert(pk.take(i + 1).remove(m - 1) =~= pk.take(i as int));
                    }
                },
                FaultMode::DuplicateFirst => {
                    if i == 0 {
                        assert(seq![pk[0]] + pk.take(1) =~= seq![pk[0], pk[0]]);
                    } else {
                        assert(seq![pk[0]] + pk.take(i + 1) =~= (seq![pk[0]] + pk.take(i as int)).push(pk[i as int]));
                    }
                },
                _ => {},
            }
            assert(out@.map_values(|p: Vec<u8>| p@) =~= (match fault {
                FaultMode::DropResponse(m) => if 1 <= m <= i + 1 {
                    pk.take(i + 1).remove(m - 1)
                } else {
                    pk.take(i + 1)
                },
                FaultMode::DuplicateFirst => seq![pk[0]] + pk.take(i + 1),
                _ => pk.take(i + 1),
            }));
        }
        i = i + 1;
    }
    proof {
        assert(pk.take(n as int) =~= pk);
    }
    match fault {
        FaultMode::DropResponse(m) => {
            if 1 <= m && m <= n {
                faults = faults + 1;
            }
        },
        FaultMode::DuplicateFirst => {
            if n > 0 {
                faults = faults + 1;
            }
        },
        _ => {},
    }
    ServedRequest { packets: out, faults }
}

/// A copy of `v`.
fn vec_copy(v: &Vec<u8>) -> (r: Vec<u8>)
    ensures
        r@ == v@,
{
    let mut out: Vec<u8> = Vec::new();
    append_range(&mut out, v.as_slice(), 0, v.len());
    assert(v@.subrange(0, v@.len() as int) =~= v@);
    assert(out@ =~= v@);
    out
}

} // verus!
