//! MoldUDP64 framing codec: header decoding, full eager frame validation, the
//! message-block walk over a validated frame, and retransmission request encoding.

use vstd::prelude::*;
use crate::protocol::bytes::{
    be_u16, be_u64, lemma_be_u16_roundtrip, lemma_be_u64_roundtrip, read_be_u16, read_be_u64,
    u16_be_bytes, u64_be_bytes,
};

verus! {

pub const HEADER_LEN: usize = 20;
/// Width of a retransmission request; equal to the header width by coincidence only.
pub const REQUEST_LEN: usize = 20;
pub const HEARTBEAT_COUNT: u16 = 0;
pub const EOS_COUNT: u16 = 0xFFFF;

pub type SessionId = [u8; 10];

#[derive(Debug, Clone, Copy, PartialEq, Eq)]
pub struct Header {
    pub session: [u8; 10],
    pub seq: u64,
    pub count: u16,
}

#[derive(Debug, Clone, Copy, PartialEq, Eq, Structural)]
pub enum Kind {
    Data,
    Heartbeat,
    EndOfSession,
}

/// Classification of a message count field.
pub open spec fn kind_of_count(count: u16) -> Kind {
    if count == HEARTBEAT_COUNT {
        Kind::Heartbeat
    } else if count == EOS_COUNT {
        Kind::EndOfSession
    } else {
        Kind::Data
    }
}

/// Inclusive message span `[seq, seq + count - 1]` of a data header; none for
/// heartbeat and end-of-session counts and when the end overflows `u64`.
pub open spec fn span_of(seq: u64, count: u16) -> Option<(u64, u64)> {
    if count == HEARTBEAT_COUNT || count == EOS_COUNT {
        None
    } else if seq + count - 1 > u64::MAX {
        None
    } else {
        Some((seq, (seq + count - 1) as u64))
    }
}

impl Header {
    /// Classification by count field.
    pub fn kind(&self) -> (k: Kind)
        ensures
            k == kind_of_count(self.count),
    {
        if self.count == HEARTBEAT_COUNT {
            Kind::Heartbeat
        } else if self.count == EOS_COUNT {
            Kind::EndOfSession
        } else {
            Kind::Data
        }
    }

    /// Inclusive message span for data packets; None for heartbeat/EOS and on overflow.
    pub fn span(&self) -> (r: Option<(u64, u64)>)
        ensures
            r == span_of(self.seq, self.count),
    {
        if self.count == HEARTBEAT_COUNT || self.count == EOS_COUNT {
            return None;
        }
        match self.seq.checked_add((self.count as u64) - 1) {
            Some(end) => Some((self.seq, end)),
            None => None,
        }
    }
}

#[derive(Debug, Clone, Copy, PartialEq, Eq, Structural)]
pub enum FrameError {
    /// Frame shorter than the 20-byte header.
    Truncated { need: usize, got: usize },
    /// Bytes remaining after the last block (or after a heartbeat/EOS header).
    TrailingBytes { extra: usize },
    /// Blocks end before `count` blocks are present.
    BlockOverrun,
    /// A block whose message length is zero.
    ZeroLengthMessage,
    /// `seq + count - 1` overflows `u64`.
    SeqOverflow,
}

/// `h` is the header carried by the first 20 bytes of `buf`.
pub open spec fn header_matches(h: Header, buf: Seq<u8>) -> bool {
    &&& buf.len() >= HEADER_LEN
    &&& h.session@ == buf.subrange(0, 10)
    &&& h.seq == be_u64(buf.subrange(10, 18))
    &&& h.count == be_u16(buf[18], buf[19])
}

/// The wire bytes of a header.
pub open spec fn header_bytes(session: Seq<u8>, seq: u64, count: u16) -> Seq<u8> {
    session + u64_be_bytes(seq) + u16_be_bytes(count)
}

/// Payloads of the `n` length-prefixed blocks that make up all of `rest`, or the first
/// framing error met walking them in order.
pub open spec fn spec_blocks(rest: Seq<u8>, n: nat) -> Result<Seq<Seq<u8>>, FrameError>
    decreases n,
{
    if n == 0 {
        if rest.len() == 0 {
            Ok(Seq::empty())
        } else {
            Err(FrameError::TrailingBytes { extra: rest.len() as usize })
        }
    } else if rest.len() < 2 {
        Err(FrameError::BlockOverrun)
    } else {
        let len = be_u16(rest[0], rest[1]) as int;
        if len == 0 {
            Err(FrameError::ZeroLengthMessage)
        } else if rest.len() < 2 + len {
            Err(FrameError::BlockOverrun)
        } else {
            match spec_blocks(rest.skip(2 + len), (n - 1) as nat) {
                Ok(ms) => Ok(seq![rest.subrange(2, 2 + len)] + ms),
                Err(e) => Err(e),
            }
        }
    }
}

/// The wire bytes of a sequence of message payloads, each prefixed by its big-endian length.
pub open spec fn blocks_bytes(msgs: Seq<Seq<u8>>) -> Seq<u8>
    decreases msgs.len(),
{
    if msgs.len() == 0 {
        Seq::empty()
    } else {
        u16_be_bytes(msgs[0].len() as u16) + msgs[0] + blocks_bytes(msgs.drop_first())
    }
}

/// The shape of a valid frame.
pub enum FrameShape {
    Data { msgs: Seq<Seq<u8>> },
    Heartbeat,
    EndOfSession,
}

/// What `parse` answers for a frame: its shape, or the first violation in the order
/// length, sequence overflow, then block structure and trailing bytes.
pub open spec fn spec_parse(buf: Seq<u8>) -> Result<FrameShape, FrameError> {
    if buf.len() < HEADER_LEN {
        Err(FrameError::Truncated { need: HEADER_LEN, got: buf.len() as usize })
    } else {
        let seq = be_u64(buf.subrange(10, 18));
        let count = be_u16(buf[18], buf[19]);
        if count != HEARTBEAT_COUNT && count != EOS_COUNT && seq + count - 1 > u64::MAX {
            Err(FrameError::SeqOverflow)
        } else if count == HEARTBEAT_COUNT || count == EOS_COUNT {
            if buf.len() != HEADER_LEN {
                Err(FrameError::TrailingBytes { extra: (buf.len() - HEADER_LEN) as usize })
            } else if count == HEARTBEAT_COUNT {
                Ok(FrameShape::Heartbeat)
            } else {
                Ok(FrameShape::EndOfSession)
            }
        } else {
            match spec_blocks(buf.skip(HEADER_LEN as int), count as nat) {
                Ok(msgs) => Ok(FrameShape::Data { msgs }),
                Err(e) => Err(e),
            }
        }
    }
}

#[derive(Debug, Clone, Copy, PartialEq, Eq)]
pub struct MessageBlock<'a> {
    /// Absolute message sequence number of this block.
    pub seq: u64,
    /// Message payload, a slice into the caller's frame.
    pub data: &'a [u8],
}

/// Walk over the blocks of a validated frame; only constructible from one.
#[derive(Debug, PartialEq, Eq)]
pub struct MessageBlocks<'a> {
    buf: &'a [u8],
    pos: usize,
    next_seq: u64,
    remaining: u16,
}

impl<'a> MessageBlocks<'a> {
    #[verifier::type_invariant]
    spec fn inv(self) -> bool {
        &&& self.pos <= self.buf@.len()
        &&& spec_blocks(self.buf@.skip(self.pos as int), self.remaining as nat) is Ok
    }

    /// Payloads still to be walked, in order.
    pub closed spec fn msgs(self) -> Seq<Seq<u8>> {
        spec_blocks(self.buf@.skip(self.pos as int), self.remaining as nat)->Ok_0
    }

    /// Sequence number of the next block.
    pub closed spec fn first_seq(self) -> u64 {
        self.next_seq
    }

    pub(crate) fn new(buf: &'a [u8], start_seq: u64, count: u16) -> (r: Self)
        requires
            spec_blocks(buf@, count as nat) is Ok,
        ensures
            r.msgs() == spec_blocks(buf@, count as nat)->Ok_0,
            r.first_seq() == start_seq,
    {
        assert(buf@.skip(0) =~= buf@);
        MessageBlocks { buf, pos: 0, next_seq: start_seq, remaining: count }
    }

    /// Number of blocks still to be walked.
    pub fn len(&self) -> (r: usize)
        ensures
            r == self.msgs().len(),
    {
        proof {
            use_type_invariant(self);
            lemma_blocks_len(self.buf@.skip(self.pos as int), self.remaining as nat);
        }
        self.remaining as usize
    }

    /// The next block, numbered from the frame's first sequence number upwards.
    pub fn next(&mut self) -> (r: Option<MessageBlock<'a>>)
        ensures
            old(self).msgs().len() == 0 ==> r is None && final(self).msgs() == old(self).msgs(),
            old(self).msgs().len() > 0 ==> (r matches Some(b) && b.seq == old(self).first_seq()
                && b.data@ == old(self).msgs()[0] && final(self).msgs() == old(self).msgs().drop_first()
                && final(self).first_seq() == old(self).first_seq().wrapping_add(1)),
    {
        proof {
            use_type_invariant(&*self);
            lemma_blocks_len(self.buf@.skip(self.pos as int), self.remaining as nat);
        }
        if self.remaining == 0 {
            return None;
        }
        let blen = self.buf.len();
        let ghost rest = self.buf@.skip(self.pos as int);
        assert(rest.len() == self.buf@.len() - self.pos);
        assert(spec_blocks(rest, self.remaining as nat) is Ok);
        assert(rest.len() >= 2);
        assert(rest.len() >= 2 + be_u16(rest[0], rest[1]));
        let len = read_be_u16(self.buf, self.pos) as usize;
        let start = self.pos + 2;
        let end = start + len;
        proof {
            assert(rest[0] == self.buf@[self.pos as int] && rest[1] == self.buf@[self.pos + 1]);
            assert(rest.skip(2 + len) =~= self.buf@.skip(end as int));
            assert(rest.subrange(2, 2 + len) =~= self.buf@.subrange(start as int, end as int));
        }
        let data = vstd::slice::slice_subrange(self.buf, start, end);
        let seq = self.next_seq;
        *self = MessageBlocks {
            buf: self.buf,
            pos: end,
            next_seq: seq.wrapping_add(1),
            remaining: self.remaining - 1,
        };
        Some(MessageBlock { seq, data })
    }
}

impl<'a> Clone for MessageBlocks<'a> {
    fn clone(&self) -> (r: Self)
        ensures
            r.msgs() == self.msgs(),
            r.first_seq() == self.first_seq(),
    {
        proof {
            use_type_invariant(self);
        }
        MessageBlocks {
            buf: self.buf,
            pos: self.pos,
            next_seq: self.next_seq,
            remaining: self.remaining,
        }
    }
}

/// A valid block walk has exactly as many payloads as blocks requested.
pub proof fn lemma_blocks_len(rest: Seq<u8>, n: nat)
    ensures
        spec_blocks(rest, n) matches Ok(ms) ==> ms.len() == n,
    decreases n,
{
    if n > 0 && rest.len() >= 2 {
        let len = be_u16(rest[0], rest[1]) as int;
        if len != 0 && rest.len() >= 2 + len {
            lemma_blocks_len(rest.skip(2 + len), (n - 1) as nat);
        }
    }
}

/// Blocks spelled out by `blocks_bytes` walk back to the same payloads.
pub proof fn lemma_blocks_roundtrip(msgs: Seq<Seq<u8>>)
    requires
        forall|i: int| 0 <= i < msgs.len() ==> 1 <= #[trigger] msgs[i].len() <= 65535,
    ensures
        spec_blocks(blocks_bytes(msgs), msgs.len()) == Ok::<Seq<Seq<u8>>, FrameError>(msgs),
    decreases msgs.len(),
{
    if msgs.len() > 0 {
        let m0 = msgs[0];
        let rest = msgs.drop_first();
        let b = blocks_bytes(msgs);
        let hdr = u16_be_bytes(m0.len() as u16);
        lemma_be_u16_roundtrip(m0.len() as u16);
        assert(b == hdr + m0 + blocks_bytes(rest));
        assert(b[0] == hdr[0] && b[1] == hdr[1]);
        assert(b.skip(2 + m0.len() as int) =~= blocks_bytes(rest));
        assert(b.subrange(2, 2 + m0.len() as int) =~= m0);
        assert(forall|i: int| 0 <= i < rest.len() ==> rest[i] == msgs[i + 1]);
        lemma_blocks_roundtrip(rest);
        assert(be_u16(b[0], b[1]) as int == m0.len());
        assert(b.len() >= 2 + m0.len());
        assert((msgs.len() - 1) as nat == rest.len());
        assert(seq![m0] + rest =~= msgs);
    } else {
        assert(blocks_bytes(msgs).len() == 0);
        assert(msgs =~= Seq::<Seq<u8>>::empty());
    }
}

/// The header fields read back from the header's wire bytes.
pub proof fn lemma_header_roundtrip(session: Seq<u8>, seq: u64, count: u16, tail: Seq<u8>)
    requires
        session.len() == 10,
    ensures
        ({
            let frame = header_bytes(session, seq, count) + tail;
            &&& frame.len() == HEADER_LEN + tail.len()
            &&& frame.subrange(0, 10) == session
            &&& be_u64(frame.subrange(10, 18)) == seq
            &&& be_u16(frame[18], frame[19]) == count
            &&& frame.skip(HEADER_LEN as int) == tail
        }),
{
    let frame = header_bytes(session, seq, count) + tail;
    lemma_be_u64_roundtrip(seq);
    lemma_be_u16_roundtrip(count);
    assert(frame.subrange(0, 10) =~= session);
    assert(frame.subrange(10, 18) =~= u64_be_bytes(seq));
    assert(frame[18] == u16_be_bytes(count)[0] && frame[19] == u16_be_bytes(count)[1]);
    assert(frame.skip(HEADER_LEN as int) =~= tail);
}

/// Round trip of the framing: a data frame built from a session, a first sequence number
/// and 1 to 65534 nonempty payloads parses back to exactly those payloads under a header
/// that carries the session, the sequence number and the count; a bare header with count
/// 0 or 0xFFFF parses as a heartbeat or an end of session.
pub proof fn law_frame_roundtrip(session: Seq<u8>, seq: u64, msgs: Seq<Seq<u8>>)
    requires
        session.len() == 10,
        1 <= msgs.len() <= 65534,
        seq + msgs.len() - 1 <= u64::MAX,
        forall|i: int| 0 <= i < msgs.len() ==> 1 <= #[trigger] msgs[i].len() <= 65535,
    ensures
        ({
            let frame = header_bytes(session, seq, msgs.len() as u16) + blocks_bytes(msgs);
            &&& spec_parse(frame) == Ok::<FrameShape, FrameError>(FrameShape::Data { msgs })
            &&& frame.subrange(0, 10) == session
            &&& be_u64(frame.subrange(10, 18)) == seq
            &&& be_u16(frame[18], frame[19]) == msgs.len()
        }),
        spec_parse(header_bytes(session, seq, HEARTBEAT_COUNT)) == Ok::<FrameShape, FrameError>(
            FrameShape::Heartbeat,
        ),
        spec_parse(header_bytes(session, seq, EOS_COUNT)) == Ok::<FrameShape, FrameError>(
            FrameShape::EndOfSession,
        ),
{
    lemma_header_roundtrip(session, seq, msgs.len() as u16, blocks_bytes(msgs));
    lemma_blocks_roundtrip(msgs);
    lemma_header_roundtrip(session, seq, HEARTBEAT_COUNT, Seq::empty());
    lemma_header_roundtrip(session, seq, EOS_COUNT, Seq::empty());
    assert(header_bytes(session, seq, HEARTBEAT_COUNT) + Seq::<u8>::empty() =~= header_bytes(session, seq, HEARTBEAT_COUNT));
    assert(header_bytes(session, seq, EOS_COUNT) + Seq::<u8>::empty() =~= header_bytes(session, seq, EOS_COUNT));
}

/// A retransmission request reads back, as a header, the session, first sequence number
/// and count it was encoded from.
pub proof fn law_request_roundtrip(session: Seq<u8>, from: u64, count: u16)
    requires
        session.len() == 10,
    ensures
        ({
            let req = header_bytes(session, from, count);
            &&& req.len() == REQUEST_LEN
            &&& req.subrange(0, 10) == session
            &&& be_u64(req.subrange(10, 18)) == from
            &&& be_u16(req[18], req[19]) == count
        }),
{
    lemma_header_roundtrip(session, from, count, Seq::empty());
    assert(header_bytes(session, from, count) + Seq::<u8>::empty() =~= header_bytes(session, from, count));
}

#[derive(Debug, PartialEq, Eq)]
pub enum Parsed<'a> {
    Data { header: Header, blocks: MessageBlocks<'a> },
    Heartbeat { header: Header },
    EndOfSession { header: Header },
}

/// Decodes the 20-byte header; fails only on a frame shorter than the header.
pub fn parse_header(buf: &[u8]) -> (r: Result<Header, FrameError>)
    ensures
        buf@.len() < HEADER_LEN ==> r == Err::<Header, FrameError>(
            FrameError::Truncated { need: HEADER_LEN, got: buf@.len() as usize },
        ),
        buf@.len() >= HEADER_LEN ==> (r matches Ok(h) && header_matches(h, buf@)),
{
    if buf.len() < HEADER_LEN {
        return Err(FrameError::Truncated { need: HEADER_LEN, got: buf.len() });
    }
    let session = [buf[0], buf[1], buf[2], buf[3], buf[4], buf[5], buf[6], buf[7], buf[8], buf[9]];
    let seq = read_be_u64(buf, 10);
    let count = read_be_u16(buf, 18);
    assert(session@ =~= buf@.subrange(0, 10));
    Ok(Header { session, seq, count })
}

/// Full eager validation of a frame. Never panics and never reads out of bounds.
pub fn parse(buf: &[u8]) -> (r: Result<Parsed<'_>, FrameError>)
    ensures
        r is Err ==> r->Err_0 == spec_parse(buf@)->Err_0 && spec_parse(buf@) is Err,
        r is Ok <==> spec_parse(buf@) is Ok,
        r matches Ok(Parsed::Data { header, blocks }) ==> header_matches(header, buf@)
            && spec_parse(buf@) == Ok::<FrameShape, FrameError>(
            FrameShape::Data { msgs: blocks.msgs() },
        ) && blocks.first_seq() == header.seq,
        r matches Ok(Parsed::Heartbeat { header }) ==> header_matches(header, buf@) && spec_parse(
            buf@,
        ) == Ok::<FrameShape, FrameError>(FrameShape::Heartbeat),
        r matches Ok(Parsed::EndOfSession { header }) ==> header_matches(header, buf@)
            && spec_parse(buf@) == Ok::<FrameShape, FrameError>(FrameShape::EndOfSession),
{
    if buf.len() < HEADER_LEN {
        return Err(FrameError::Truncated { need: HEADER_LEN, got: buf.len() });
    }
    let hdr = match parse_header(buf) {
        Ok(h) => h,
        Err(e) => return Err(e),
    };
    if hdr.count != HEARTBEAT_COUNT && hdr.count != EOS_COUNT {
        if hdr.seq.checked_add((hdr.count as u64) - 1).is_none() {
            return Err(FrameError::SeqOverflow);
        }
    }
    if hdr.count == HEARTBEAT_COUNT {
        if buf.len() != HEADER_LEN {
            return Err(FrameError::TrailingBytes { extra: buf.len() - HEADER_LEN });
        }
        return Ok(Parsed::Heartbeat { header: hdr });
    }
    if hdr.count == EOS_COUNT {
        if buf.len() != HEADER_LEN {
            return Err(FrameError::TrailingBytes { extra: buf.len() - HEADER_LEN });
        }
        return Ok(Parsed::EndOfSession { header: hdr });
    }
    let ghost body = buf@.skip(HEADER_LEN as int);
    let mut pos: usize = HEADER_LEN;
    let mut i: u16 = 0;
    while i < hdr.count
        invariant
            HEADER_LEN <= pos <= buf@.len(),
            i <= hdr.count,
            hdr.count != HEARTBEAT_COUNT,
            hdr.count != EOS_COUNT,
            hdr.seq + hdr.count - 1 <= u64::MAX,
            header_matches(hdr, buf@),
            body == buf@.skip(HEADER_LEN as int),
            spec_walk(body, hdr.count as nat) == spec_walk(
                buf@.skip(pos as int),
                (hdr.count - i) as nat,
            ),
        decreases hdr.count - i,
    {
        let ghost rest = buf@.skip(pos as int);
        assert(rest.len() == buf@.len() - pos);
        if buf.len() - pos < 2 {
            return Err(FrameError::BlockOverrun);
        }
        let len = read_be_u16(buf, pos) as usize;
        assert(rest[0] == buf@[pos as int] && rest[1] == buf@[pos + 1]);
        if len == 0 {
            return Err(FrameError::ZeroLengthMessage);
        }
        if buf.len() - pos < 2 + len {
            return Err(FrameError::BlockOverrun);
        }
        assert(rest.skip(2 + len) =~= buf@.skip(pos + 2 + len));
        pos = pos + 2 + len;
        i = i + 1;
    }
    if pos != buf.len() {
        assert(buf@.skip(pos as int).len() == buf.len() - pos);
        return Err(FrameError::TrailingBytes { extra: buf.len() - pos });
    }
    assert(buf@.skip(pos as int) =~= Seq::<u8>::empty());
    let body_slice = vstd::slice::slice_subrange(buf, HEADER_LEN, buf.len());
    assert(body_slice@ =~= body);
    Ok(Parsed::Data { header: hdr, blocks: MessageBlocks::new(body_slice, hdr.seq, hdr.count) })
}

/// The outcome of a block walk, forgetting the payloads.
pub open spec fn spec_walk(rest: Seq<u8>, n: nat) -> Result<(), FrameError> {
    match spec_blocks(rest, n) {
        Ok(_) => Ok(()),
        Err(e) => Err(e),
    }
}

/// Encodes a retransmission request: session, first sequence number, message count.
pub fn encode_request(session: &SessionId, from: u64, count: u16, out: &mut [u8; REQUEST_LEN])
    requires
        count >= 1,
    ensures
        final(out)@ == header_bytes(session@, from, count),
{
    out[0] = session[0];
    out[1] = session[1];
    out[2] = session[2];
    out[3] = session[3];
    out[4] = session[4];
    out[5] = session[5];
    out[6] = session[6];
    out[7] = session[7];
    out[8] = session[8];
    out[9] = session[9];
    out[10] = ((from >> 56u64) & 0xffu64) as u8;
    out[11] = ((from >> 48u64) & 0xffu64) as u8;
    out[12] = ((from >> 40u64) & 0xffu64) as u8;
    out[13] = ((from >> 32u64) & 0xffu64) as u8;
    out[14] = ((from >> 24u64) & 0xffu64) as u8;
    out[15] = ((from >> 16u64) & 0xffu64) as u8;
    out[16] = ((from >> 8u64) & 0xffu64) as u8;
    out[17] = (from & 0xffu64) as u8;
    out[18] = ((count >> 8u16) & 0xffu16) as u8;
    out[19] = (count & 0xffu16) as u8;
    assert(out@ =~= header_bytes(session@, from, count));
}

} // verus!
