//! Frame transports: the batch of frames a poll hands out, the transport interface,
//! schedule event types, and the replay transports that render frames from a
//! ground-truth message stream under a virtual clock.

pub mod render;
pub mod render_law;
pub mod replay;
pub mod sched_types;
pub mod xdp;

use vstd::prelude::*;

verus! {

pub type FeedId = u8;

/// A frame handed out by a poll: `len` bytes at `offset` in the polling transport's
/// frame storage (see [`Transport::frame_bytes`]), received on `feed`.
#[derive(Debug, Clone, Copy, PartialEq, Eq, Structural)]
pub struct FrameView {
    pub offset: usize,
    pub len: u16,
    pub feed: FeedId,
}

/// Up to 256 frames from one poll.
pub struct FrameBatch {
    slots: [FrameView; 256],
    len: usize,
}

impl View for FrameBatch {
    type V = Seq<FrameView>;

    closed spec fn view(&self) -> Seq<FrameView> {
        self.slots@.take(self.len as int)
    }
}

impl FrameBatch {
    #[verifier::type_invariant]
    spec fn inv(self) -> bool {
        self.len <= 256
    }

    pub fn new() -> (b: Self)
        ensures
            b@ == Seq::<FrameView>::empty(),
    {
        let empty = FrameView { offset: 0, len: 0, feed: 0 };
        FrameBatch { slots: [empty; 256], len: 0 }
    }

    pub fn clear(&mut self)
        ensures
            final(self)@ == Seq::<FrameView>::empty(),
    {
        self.len = 0;
    }

    pub fn capacity() -> (r: usize)
        ensures
            r == 256,
    {
        256
    }

    pub fn frames(&self) -> (r: &[FrameView])
        ensures
            r@ == self@,
    {
        proof {
            use_type_invariant(self);
        }
        vstd::slice::slice_subrange(vstd::array::array_as_slice(&self.slots), 0, self.len)
    }

    pub fn len(&self) -> (r: usize)
        ensures
            r == self@.len(),
            r <= 256,
    {
        proof {
            use_type_invariant(self);
        }
        self.len
    }

    pub fn is_empty(&self) -> (r: bool)
        ensures
            r == (self@.len() == 0),
    {
        proof {
            use_type_invariant(self);
        }
        self.len == 0
    }

    /// Appends a frame unless the batch is full; returns whether it was appended.
    pub fn push(&mut self, frame: FrameView) -> (r: bool)
        ensures
            r == (old(self)@.len() < 256),
            final(self)@ == (if r { old(self)@.push(frame) } else { old(self)@ }),
    {
        proof {
            use_type_invariant(&*self);
        }
        if self.len < 256 {
            let ghost before = self.slots@;
            self.slots[self.len] = frame;
            self.len = self.len + 1;
            assert(self.slots@.take(self.len as int) =~= before.take(self.len - 1).push(frame));
            true
        } else {
            false
        }
    }

    /// Appends the frame of `len` bytes (kept as a `u16`) at `offset` unless the batch is
    /// full; returns whether it was appended.
    pub fn push_raw(&mut self, offset: usize, len: usize, feed: FeedId) -> (r: bool)
        ensures
            r == (old(self)@.len() < 256),
            final(self)@ == (if r {
                old(self)@.push(FrameView { offset, len: len as u16, feed })
            } else {
                old(self)@
            }),
    {
        self.push(FrameView { offset, len: len as u16, feed })
    }
}

impl Default for FrameBatch {
    fn default() -> (b: Self)
        ensures
            b@ == Seq::<FrameView>::empty(),
    {
        Self::new()
    }
}

/// A source of frames.
pub trait Transport {
    /// Fills `batch`; returns the frame count. Never blocks.
    fn poll(&mut self, batch: &mut FrameBatch) -> usize;

    /// Current timestamp in nanoseconds: the virtual clock under replay, the kernel
    /// clock under live transports.
    fn now_ns(&self) -> u64;

    /// The bytes of a frame handed out by this transport's most recent poll.
    fn frame_bytes(&self, frame: &FrameView) -> &[u8];

    /// Precomputed `(seq, start, end)` block triples for the frame at batch position
    /// `batch_pos`; empty when the transport keeps no index.
    fn batch_blocks(&self, batch_pos: usize) -> (r: &[(u64, u32, u32)])
        default_ensures
            r@ == Seq::<(u64, u32, u32)>::empty(),
    {
        &[]
    }
}

} // verus!
