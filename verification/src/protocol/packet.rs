//! MoldUDP64 framing together with per-block ITCH validation: the strict two-phase
//! `validate_frame`, and the single-pass `ingest_walk` that hands blocks to a visitor.

use vstd::prelude::*;
use crate::protocol::bytes::{be_u16, read_be_u16};
use crate::protocol::itch5::{self, spec_validate, ItchError};
use crate::protocol::moldudp64::{self, spec_parse, FrameError, FrameShape, Parsed, HEADER_LEN};

verus! {

#[derive(Debug, Clone, Copy, PartialEq, Eq, Structural)]
pub enum PacketError {
    Framing(FrameError),
    Payload(ItchError),
}

/// The first payload of `msgs` that is not a valid ITCH 5.0 message, with its error.
pub open spec fn first_payload_error(msgs: Seq<Seq<u8>>) -> Option<ItchError>
    decreases msgs.len(),
{
    if msgs.len() == 0 {
        None
    } else {
        match spec_validate(msgs[0]) {
            Err(e) => Some(e),
            Ok(_) => first_payload_error(msgs.drop_first()),
        }
    }
}

/// What `validate_frame` answers: framing errors first, then the first invalid payload.
pub open spec fn spec_validate_frame(buf: Seq<u8>) -> Result<FrameShape, PacketError> {
    match spec_parse(buf) {
        Err(e) => Err(PacketError::Framing(e)),
        Ok(FrameShape::Data { msgs }) => match first_payload_error(msgs) {
            Some(e) => Err(PacketError::Payload(e)),
            None => Ok(FrameShape::Data { msgs }),
        },
        Ok(shape) => Ok(shape),
    }
}

/// Parses the frame and validates every payload block against the ITCH 5.0 length
/// table; `Ok` only if both framing and all payloads are structurally valid.
pub fn validate_frame(buf: &[u8]) -> (r: Result<Parsed<'_>, PacketError>)
    ensures
        r is Ok <==> spec_validate_frame(buf@) is Ok,
        r is Err ==> r->Err_0 == spec_validate_frame(buf@)->Err_0,
        r matches Ok(Parsed::Data { header, blocks }) ==> moldudp64::header_matches(header, buf@)
            && spec_validate_frame(buf@) == Ok::<FrameShape, PacketError>(
            FrameShape::Data { msgs: blocks.msgs() },
        ) && blocks.first_seq() == header.seq,
        r matches Ok(Parsed::Heartbeat { header }) ==> moldudp64::header_matches(header, buf@)
            && spec_validate_frame(buf@) == Ok::<FrameShape, PacketError>(FrameShape::Heartbeat),
        r matches Ok(Parsed::EndOfSession { header }) ==> moldudp64::header_matches(header, buf@)
            && spec_validate_frame(buf@) == Ok::<FrameShape, PacketError>(
            FrameShape::EndOfSession,
        ),
{
    let parsed = match moldudp64::parse(buf) {
        Ok(p) => p,
        Err(e) => return Err(PacketError::Framing(e)),
    };
    if let Parsed::Data { ref blocks, .. } = parsed {
        let mut walk = blocks.clone();
        let ghost all = blocks.msgs();
        let ghost mut done: int = 0;
        assert(all.skip(0) =~= all);
        while walk.len() > 0
            invariant
                all == blocks.msgs(),
                spec_parse(buf@) == Ok::<FrameShape, FrameError>(FrameShape::Data { msgs: all }),
                0 <= done <= all.len(),
                walk.msgs() == all.skip(done),
                first_payload_error(all) == first_payload_error(all.skip(done)),
            decreases all.len() - done,
        {
            let ghost rest = walk.msgs();
            let block = walk.next().unwrap();
            assert(rest.drop_first() =~= all.skip(done + 1));
            if let Err(e) = itch5::validate(block.data) {
                return Err(PacketError::Payload(e));
            }
            proof {
                done = done + 1;
            }
        }
        assert(all.skip(done).len() == 0);
    }
    Ok(parsed)
}

/// Payloads of the length-prefixed blocks walked from `rest` for at most `n` blocks, up
/// to the first framing error, and that error, mapped as the strict parse maps it: a
/// missing or overrunning block, a zero-length block, or bytes left after the last one.
pub open spec fn lenient_blocks(rest: Seq<u8>, n: nat) -> (Seq<Seq<u8>>, Option<FrameError>)
    decreases n,
{
    if n == 0 {
        if rest.len() == 0 {
            (Seq::empty(), None)
        } else {
            (Seq::empty(), Some(FrameError::TrailingBytes { extra: rest.len() as usize }))
        }
    } else if rest.len() < 2 {
        (Seq::empty(), Some(FrameError::BlockOverrun))
    } else {
        let len = be_u16(rest[0], rest[1]) as int;
        if len == 0 {
            (Seq::empty(), Some(FrameError::ZeroLengthMessage))
        } else if rest.len() < 2 + len {
            (Seq::empty(), Some(FrameError::BlockOverrun))
        } else {
            let (ms, e) = lenient_blocks(rest.skip(2 + len), (n - 1) as nat);
            (seq![rest.subrange(2, 2 + len)] + ms, e)
        }
    }
}

/// The end of the length-prefixed block at `pos`, if the frame holds all of it and it is
/// not empty; otherwise the framing error of the block.
pub fn block_end(frame: &[u8], pos: usize) -> (r: Result<usize, FrameError>)
    requires
        pos <= frame@.len(),
    ensures
        match r {
            Err(e) => if frame@.len() - pos < 2 {
                e == FrameError::BlockOverrun
            } else if be_u16(frame@[pos as int], frame@[pos + 1]) == 0 {
                e == FrameError::ZeroLengthMessage
            } else {
                frame@.len() - pos - 2 < be_u16(frame@[pos as int], frame@[pos + 1])
                    && e == FrameError::BlockOverrun
            },
            Ok(end) => frame@.len() - pos >= 2 && be_u16(frame@[pos as int], frame@[pos + 1]) != 0
                && end == pos + 2 + be_u16(frame@[pos as int], frame@[pos + 1]) && end <= frame@.len(),
        },
{
    if frame.len() - pos < 2 {
        return Err(FrameError::BlockOverrun);
    }
    let len = read_be_u16(frame, pos) as usize;
    if len == 0 {
        return Err(FrameError::ZeroLengthMessage);
    }
    if frame.len() - pos - 2 < len {
        return Err(FrameError::BlockOverrun);
    }
    Ok(pos + 2 + len)
}

/// One step of the lenient walk at `pos`: the error of a block that is missing, empty or
/// overrunning, or the block's payload followed by the rest of the walk.
pub proof fn lemma_lenient_step(frame: Seq<u8>, pos: int, n: nat)
    requires
        0 <= pos <= frame.len(),
        n > 0,
    ensures
        frame.len() - pos < 2 ==> lenient_blocks(frame.skip(pos), n) == (
            Seq::<Seq<u8>>::empty(),
            Some(FrameError::BlockOverrun),
        ),
        frame.len() - pos >= 2 && be_u16(frame[pos], frame[pos + 1]) == 0 ==> lenient_blocks(
            frame.skip(pos),
            n,
        ) == (Seq::<Seq<u8>>::empty(), Some(FrameError::ZeroLengthMessage)),
        (frame.len() - pos >= 2 && be_u16(frame[pos], frame[pos + 1]) != 0 && frame.len() - pos - 2
            < be_u16(frame[pos], frame[pos + 1])) ==> lenient_blocks(frame.skip(pos), n) == (
            Seq::<Seq<u8>>::empty(),
            Some(FrameError::BlockOverrun),
        ),
        (frame.len() - pos >= 2 && be_u16(frame[pos], frame[pos + 1]) != 0 && frame.len() - pos - 2
            >= be_u16(frame[pos], frame[pos + 1])) ==> ({
            let end = pos + 2 + be_u16(frame[pos], frame[pos + 1]);
            let (ms, e) = lenient_blocks(frame.skip(end), (n - 1) as nat);
            lenient_blocks(frame.skip(pos), n) == (seq![frame.subrange(pos + 2, end)] + ms, e)
        }),
{
    let rest = frame.skip(pos);
    assert(rest.len() == frame.len() - pos);
    if rest.len() >= 2 {
        assert(rest[0] == frame[pos] && rest[1] == frame[pos + 1]);
        let len = be_u16(frame[pos], frame[pos + 1]) as int;
        if rest.len() >= 2 + len {
            assert(rest.skip(2 + len) =~= frame.skip(pos + 2 + len));
            assert(rest.subrange(2, 2 + len) =~= frame.subrange(pos + 2, pos + 2 + len));
        }
    }
}

/// The lenient walk with no block left: only trailing bytes can be wrong.
pub proof fn lemma_lenient_end(frame: Seq<u8>, pos: int)
    requires
        0 <= pos <= frame.len(),
    ensures
        lenient_blocks(frame.skip(pos), 0) == (
            Seq::<Seq<u8>>::empty(),
            if pos == frame.len() {
                None
            } else {
                Some(FrameError::TrailingBytes { extra: (frame.len() - pos) as usize })
            },
        ),
{
    assert(frame.skip(pos).len() == frame.len() - pos);
}

/// A lenient walk that ends without error yields exactly as many payloads as blocks
/// requested.
pub proof fn lemma_lenient_len(rest: Seq<u8>, n: nat)
    ensures
        lenient_blocks(rest, n).1 is None ==> lenient_blocks(rest, n).0.len() == n,
    decreases n,
{
    if n > 0 && rest.len() >= 2 {
        let len = be_u16(rest[0], rest[1]) as int;
        if len != 0 && rest.len() >= 2 + len {
            lemma_lenient_len(rest.skip(2 + len), (n - 1) as nat);
        }
    }
}

/// Where the strict block walk succeeds, the lenient one finds the same payloads and no
/// error.
pub proof fn lemma_strict_is_lenient(rest: Seq<u8>, n: nat)
    ensures
        moldudp64::spec_blocks(rest, n) is Ok ==> lenient_blocks(rest, n) == (
            moldudp64::spec_blocks(rest, n)->Ok_0,
            None::<FrameError>,
        ),
    decreases n,
{
    if n > 0 && rest.len() >= 2 {
        let len = be_u16(rest[0], rest[1]) as int;
        if len != 0 && rest.len() >= 2 + len {
            lemma_strict_is_lenient(rest.skip(2 + len), (n - 1) as nat);
        }
    }
}

/// Payloads with no first invalid one are all valid.
pub proof fn lemma_no_payload_error(msgs: Seq<Seq<u8>>)
    requires
        first_payload_error(msgs) is None,
    ensures
        forall|i: int| 0 <= i < msgs.len() ==> spec_validate(#[trigger] msgs[i]) is Ok,
    decreases msgs.len(),
{
    if msgs.len() > 0 {
        lemma_no_payload_error(msgs.drop_first());
        assert forall|i: int| 0 <= i < msgs.len() implies spec_validate(#[trigger] msgs[i]) is Ok by {
            if i > 0 {
                assert(msgs[i] == msgs.drop_first()[i - 1]);
            }
        }
    }
}

/// The `(seq, payload)` pairs handed out for `msgs` numbered from `s`, leaving out the
/// first `skip` of them.
pub open spec fn numbered_visits(msgs: Seq<Seq<u8>>, s: u64, skip: nat) -> Seq<(u64, Seq<u8>)>
    decreases msgs.len(),
{
    if msgs.len() == 0 {
        Seq::empty()
    } else if skip > 0 {
        numbered_visits(msgs.drop_first(), s.wrapping_add(1), (skip - 1) as nat)
    } else {
        seq![(s, msgs[0])] + numbered_visits(msgs.drop_first(), s.wrapping_add(1), 0)
    }
}

/// Receives the blocks of a frame walked by `ingest_walk`.
pub trait BlockVisitor {
    /// The `(seq, payload, result)` triples of the visits so far: each block received and
    /// what the visit returned for it.
    spec fn visited(&self) -> Seq<(u64, Seq<u8>, Result<(), ItchError>)>;

    /// Receives one block; an error stops the walk.
    fn visit(&mut self, seq: u64, data: &[u8]) -> (r: Result<(), ItchError>)
        ensures
            final(self).visited() == old(self).visited().push((seq, data@, r)),
    ;
}

/// The `(seq, payload)` pairs of a log of visits.
pub open spec fn visit_pairs(log: Seq<(u64, Seq<u8>, Result<(), ItchError>)>) -> Seq<(u64, Seq<u8>)> {
    log.map_values(|v: (u64, Seq<u8>, Result<(), ItchError>)| (v.0, v.1))
}

/// Every visit of `log` returned `Ok`.
pub open spec fn all_visits_ok(log: Seq<(u64, Seq<u8>, Result<(), ItchError>)>) -> bool {
    forall|k: int| 0 <= k < log.len() ==> (#[trigger] log[k]).2 is Ok
}

/// Single-pass framing walk: framing bounds are checked per block and `f` runs for the
/// blocks past `skip`, in order; trailing bytes are checked at the end. Framing errors
/// are those the strict parse reports, a zero-length block included. A framing error
/// met after some blocks were handed out still returns that error.
pub fn ingest_walk<F: BlockVisitor>(
    frame: &[u8],
    first_seq: u64,
    count: u16,
    skip: usize,
    f: &mut F,
) -> (r: Result<(), PacketError>)
    requires
        frame@.len() >= HEADER_LEN,
    ensures
        ({
            let (ms, err) = lenient_blocks(frame@.skip(HEADER_LEN as int), count as nat);
            let all = numbered_visits(ms, first_seq, skip as nat);
            let log = final(f).visited().skip(old(f).visited().len() as int);
            let got = visit_pairs(log);
            &&& final(f).visited().len() >= old(f).visited().len()
            &&& final(f).visited().take(old(f).visited().len() as int) == old(f).visited()
            &&& (r matches Err(PacketError::Payload(e)) ==> 0 < got.len() <= all.len() && got
                == all.take(got.len() as int) && all_visits_ok(log.drop_last()) && log.last().2
                == Err::<(), ItchError>(e))
            &&& (!(r matches Err(PacketError::Payload(_))) ==> got == all && all_visits_ok(log) && (r is Ok
                <==> err is None) && (r matches Err(PacketError::Framing(e)) ==> err == Some(e)))
        }),
{
    let ghost base = f.visited();
    assert(base == old(f).visited());
    let ghost body = frame@.skip(HEADER_LEN as int);
    let ghost whole = lenient_blocks(body, count as nat);
    let ghost all = numbered_visits(whole.0, first_seq, skip as nat);
    let mut pos: usize = HEADER_LEN;
    let mut seq = first_seq;
    let mut to_skip = skip;
    let mut i: u16 = 0;
    let ghost mut taken: int = 0;
    proof {
        assert(frame@.skip(pos as int) =~= body);
        assert(whole.0.skip(0) =~= whole.0);
        assert(f.visited().skip(base.len() as int) =~= Seq::<(u64, Seq<u8>, Result<(), ItchError>)>::empty());
        assert(visit_pairs(f.visited().skip(base.len() as int)) =~= Seq::<(u64, Seq<u8>)>::empty());
        assert(visit_pairs(f.visited().skip(base.len() as int)) + numbered_visits(whole.0, seq, to_skip as nat)
            =~= all);
    }
    while i < count
        invariant
            HEADER_LEN <= pos <= frame@.len(),
            i <= count,
            base == old(f).visited(),
            body == frame@.skip(HEADER_LEN as int),
            whole == lenient_blocks(body, count as nat),
            all == numbered_visits(whole.0, first_seq, skip as nat),
            0 <= taken <= whole.0.len(),
            whole.0.skip(taken) == lenient_blocks(frame@.skip(pos as int), (count - i) as nat).0,
            whole.1 == lenient_blocks(frame@.skip(pos as int), (count - i) as nat).1,
            f.visited().len() >= base.len(),
            f.visited().take(base.len() as int) == base,
            visit_pairs(f.visited().skip(base.len() as int)) + numbered_visits(
                whole.0.skip(taken),
                seq,
                to_skip as nat,
            ) == all,
            all_visits_ok(f.visited().skip(base.len() as int)),
        decreases count - i,
    {
        let ghost rest = frame@.skip(pos as int);
        let ghost tail = whole.0.skip(taken);
        let ghost prev = f.visited();
        assert(rest.len() == frame@.len() - pos);
        if frame.len() - pos < 2 {
            proof {
                assert(lenient_blocks(rest, (count - i) as nat).1 == Some(FrameError::BlockOverrun));
                assert(tail.len() == 0);
                assert(visit_pairs(prev.skip(base.len() as int)) =~= all);
            }
            return Err(PacketError::Framing(FrameError::BlockOverrun));
        }
        let len = read_be_u16(frame, pos) as usize;
        assert(rest[0] == frame@[pos as int] && rest[1] == frame@[pos + 1]);
        if len == 0 {
            proof {
                assert(lenient_blocks(rest, (count - i) as nat).1 == Some(FrameError::ZeroLengthMessage));
                assert(tail.len() == 0);
                assert(visit_pairs(prev.skip(base.len() as int)) =~= all);
            }
            return Err(PacketError::Framing(FrameError::ZeroLengthMessage));
        }
        let start = pos + 2;
        if frame.len() - start < len {
            proof {
                assert(lenient_blocks(rest, (count - i) as nat).1 == Some(FrameError::BlockOverrun));
                assert(tail.len() == 0);
                assert(visit_pairs(prev.skip(base.len() as int)) =~= all);
            }
            return Err(PacketError::Framing(FrameError::BlockOverrun));
        }
        let end = start + len;
        proof {
            assert(rest.skip(2 + len) =~= frame@.skip(end as int));
            assert(rest.subrange(2, 2 + len) =~= frame@.subrange(start as int, end as int));
            assert(tail[0] == frame@.subrange(start as int, end as int));
            assert(tail.drop_first() =~= whole.0.skip(taken + 1));
        }
        if to_skip > 0 {
            to_skip = to_skip - 1;
        } else {
            let data = vstd::slice::slice_subrange(frame, start, end);
            let res = f.visit(seq, data);
            proof {
                let pl = prev.skip(base.len() as int);
                let nl = f.visited().skip(base.len() as int);
                assert(nl =~= pl.push((seq, data@, res)));
                assert(visit_pairs(nl) =~= visit_pairs(pl).push((seq, data@)));
                assert(nl.drop_last() =~= pl);
                assert(f.visited().take(base.len() as int) =~= base);
                assert(numbered_visits(tail, seq, 0) =~= seq![(seq, data@)] + numbered_visits(
                    tail.drop_first(),
                    seq.wrapping_add(1),
                    0,
                ));
                assert(visit_pairs(nl) + numbered_visits(
                    tail.drop_first(),
                    seq.wrapping_add(1),
                    0,
                ) =~= all);
            }
            if let Err(e) = res {
                proof {
                    let got = visit_pairs(f.visited().skip(base.len() as int));
                    assert(got.len() == prev.len() + 1 - base.len());
                    assert(got.len() <= all.len());
                    assert(got =~= all.take(got.len() as int));
                }
                return Err(PacketError::Payload(e));
            }
        }
        pos = end;
        seq = seq.wrapping_add(1);
        i = i + 1;
        proof {
            taken = taken + 1;
        }
    }
    let ghost rest = frame@.skip(pos as int);
    assert(rest.len() == frame@.len() - pos);
    assert(whole.0.skip(taken).len() == 0);
    assert(visit_pairs(f.visited().skip(base.len() as int)) =~= all);
    if pos != frame.len() {
        return Err(PacketError::Framing(FrameError::TrailingBytes { extra: frame.len() - pos }));
    }
    Ok(())
}

} // verus!
