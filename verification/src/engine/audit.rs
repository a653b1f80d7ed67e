//! Audit of a ground-truth ITCH 5.0 message block stream (`[u16 BE len][msg]...`):
//! block and violation counts, a histogram of message types, and whether the stream
//! ends in the middle of a message.

use vstd::prelude::*;
use crate::protocol::bytes::{be_u16, lemma_be_u16_roundtrip, read_be_u16, u16_be_bytes};
use crate::protocol::itch5::{self, spec_validate};

verus! {

#[derive(Debug, Clone, PartialEq, Eq)]
pub struct AuditReport {
    pub bytes_read: u64,
    pub blocks: u64,
    pub violations: u64,
    pub truncated_tail: bool,
    pub hist: [u64; 256],
}

/// An audit's tallies as plain numbers.
pub struct AuditTally {
    pub bytes_read: nat,
    pub blocks: nat,
    pub violations: nat,
    pub truncated_tail: bool,
    pub hist: Seq<nat>,
}

/// The tallies before anything was read.
pub open spec fn zero_tally() -> AuditTally {
    AuditTally {
        bytes_read: 0,
        blocks: 0,
        violations: 0,
        truncated_tail: false,
        hist: Seq::new(256, |i: int| 0nat),
    }
}

/// The tallies after walking `s` from `a`: a length prefix that cannot be read ends
/// the walk cleanly; a zero length is a violation; a message cut short sets
/// `truncated_tail` and ends the walk; a whole message is a block, counted by type if
/// it is valid ITCH and as a violation otherwise.
pub open spec fn audit_walk(s: Seq<u8>, a: AuditTally) -> AuditTally
    decreases s.len(),
{
    if s.len() < 2 {
        a
    } else {
        let len = be_u16(s[0], s[1]) as int;
        let a1 = AuditTally { bytes_read: a.bytes_read + 2, ..a };
        if len == 0 {
            audit_walk(s.skip(2), AuditTally { violations: a1.violations + 1, ..a1 })
        } else if s.len() - 2 < len {
            AuditTally { truncated_tail: true, ..a1 }
        } else {
            let msg = s.subrange(2, 2 + len);
            let a2 = AuditTally { bytes_read: (a1.bytes_read + len) as nat, blocks: a1.blocks + 1, ..a1 };
            let a3 = if spec_validate(msg) is Ok {
                AuditTally { hist: a2.hist.update(msg[0] as int, a2.hist[msg[0] as int] + 1), ..a2 }
            } else {
                AuditTally { violations: a2.violations + 1, ..a2 }
            };
            audit_walk(s.skip(2 + len), a3)
        }
    }
}

/// The block law of the audit: a whole block of `msg` (its big-endian length, then the
/// message) counts as one block and its bytes as read; a message that ITCH 5.0 validation
/// rejects (an unknown type, or a length other than its type's) counts as a violation and
/// not in the type histogram, and a valid one counts once under its type and not as a
/// violation; the audit then goes on with the rest of the stream.
pub proof fn law_audit_block(msg: Seq<u8>, rest: Seq<u8>, a: AuditTally)
    requires
        0 < msg.len() <= 0xFFFF,
        a.hist.len() == 256,
    ensures
        ({
            let s = u16_be_bytes(msg.len() as u16) + msg + rest;
            let valid = spec_validate(msg) is Ok;
            audit_walk(s, a) == audit_walk(
                rest,
                AuditTally {
                    bytes_read: a.bytes_read + 2 + msg.len(),
                    blocks: a.blocks + 1,
                    violations: if valid { a.violations } else { a.violations + 1 },
                    truncated_tail: a.truncated_tail,
                    hist: if valid { a.hist.update(msg[0] as int, a.hist[msg[0] as int] + 1) } else { a.hist },
                },
            )
        }),
{
    let s = u16_be_bytes(msg.len() as u16) + msg + rest;
    lemma_be_u16_roundtrip(msg.len() as u16);
    assert(s[0] == u16_be_bytes(msg.len() as u16)[0] && s[1] == u16_be_bytes(msg.len() as u16)[1]);
    assert(s.subrange(2, 2 + msg.len() as int) =~= msg);
    assert(s.skip(2 + msg.len() as int) =~= rest);
}

/// A valid message is counted under its type: an audit over a stream of one valid block
/// never counts a violation, and one over a stream of one invalid block never counts in
/// the histogram.
pub proof fn law_audit_single(msg: Seq<u8>)
    requires
        0 < msg.len() <= 0xFFFF,
    ensures
        ({
            let r = audit_walk(u16_be_bytes(msg.len() as u16) + msg, zero_tally());
            &&& r.blocks == 1
            &&& spec_validate(msg) is Ok ==> r.violations == 0 && r.hist[msg[0] as int] == 1
            &&& spec_validate(msg) is Err ==> r.violations == 1 && forall|t: int| 0 <= t < 256 ==> r.hist[t] == 0
        }),
{
    let e = Seq::<u8>::empty();
    law_audit_block(msg, e, zero_tally());
    assert(u16_be_bytes(msg.len() as u16) + msg + e =~= u16_be_bytes(msg.len() as u16) + msg);
}

impl AuditReport {
    /// The report's tallies as plain numbers.
    pub open spec fn tally(&self) -> AuditTally {
        AuditTally {
            bytes_read: self.bytes_read as nat,
            blocks: self.blocks as nat,
            violations: self.violations as nat,
            truncated_tail: self.truncated_tail,
            hist: self.hist@.map_values(|x: u64| x as nat),
        }
    }

    pub fn new() -> (r: Self)
        ensures
            r.tally() == zero_tally(),
    {
        let r = AuditReport {
            bytes_read: 0,
            blocks: 0,
            violations: 0,
            truncated_tail: false,
            hist: [0u64; 256],
        };
        assert(r.hist@.map_values(|x: u64| x as nat) =~= Seq::new(256, |i: int| 0nat));
        r
    }
}

impl Default for AuditReport {
    fn default() -> (r: Self)
        ensures
            r.tally() == zero_tally(),
    {
        Self::new()
    }
}

/// Walks a message block stream and validates each message against the ITCH 5.0
/// length table.
pub fn audit_stream(stream: &[u8]) -> (r: AuditReport)
    ensures
        r.tally() == audit_walk(stream@, zero_tally()),
{
    let mut r = AuditReport::new();
    let mut pos: usize = 0;
    proof {
        assert(stream@.skip(0) =~= stream@);
    }
    assert forall|i: int| 0 <= i < 256 implies r.hist@[i] <= r.blocks by {
        assert(r.tally().hist[i] == 0);
    }
    loop
        invariant_except_break
            audit_walk(stream@, zero_tally()) == audit_walk(stream@.skip(pos as int), r.tally()),
        invariant
            pos <= stream@.len(),
            r.bytes_read == pos,
            r.blocks + r.violations <= pos,
            forall|i: int| 0 <= i < 256 ==> r.hist@[i] <= r.blocks,
        ensures
            r.tally() == audit_walk(stream@, zero_tally()),
        decreases stream@.len() - pos,
    {
        let ghost rest = stream@.skip(pos as int);
        let ghost t0 = r.tally();
        assert(rest.len() == stream@.len() - pos);
        if stream.len() - pos < 2 {
            break;
        }
        let msg_len = read_be_u16(stream, pos) as usize;
        assert(rest[0] == stream@[pos as int] && rest[1] == stream@[pos + 1]);
        r.bytes_read = r.bytes_read + 2;
        pos = pos + 2;
        assert(rest.skip(2) =~= stream@.skip(pos as int));
        if msg_len == 0 {
            r.violations = r.violations + 1;
            assert(r.tally().hist =~= t0.hist);
            continue;
        }
        if stream.len() - pos < msg_len {
            r.truncated_tail = true;
            assert(r.tally().hist =~= t0.hist);
            break;
        }
        let msg = vstd::slice::slice_subrange(stream, pos, pos + msg_len);
        assert(rest.subrange(2, 2 + msg_len) =~= msg@);
        assert(rest.skip(2 + msg_len) =~= stream@.skip(pos + msg_len));
        r.bytes_read = r.bytes_read + msg_len as u64;
        pos = pos + msg_len;
        let ghost before = r.hist@;
        match itch5::validate(msg) {
            Ok(()) => {
                let t = msg[0] as usize;
                r.hist[t] = r.hist[t] + 1;
                assert(r.hist@.map_values(|x: u64| x as nat) =~= t0.hist.update(
                    t as int,
                    t0.hist[t as int] + 1,
                ));
            },
            Err(_) => {
                r.violations = r.violations + 1;
                assert(r.tally().hist =~= t0.hist);
            },
        }
        r.blocks = r.blocks + 1;
    }
    r
}

} // verus!
