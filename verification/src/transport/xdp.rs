//! AF_XDP ring layout: the kernel's ring structures, and the index arithmetic and
//! descriptor recycling of polling an RX ring into a batch. The memory-mapped rings and
//! socket calls belong to the caller.

#![allow(non_camel_case_types)]

use vstd::prelude::*;

verus! {

pub const AF_XDP: i32 = 44;
pub const SOL_XDP: i32 = 283;
pub const XDP_MMAP_OFFSETS: i32 = 1;
pub const XDP_RX_RING: i32 = 2;
pub const XDP_TX_RING: i32 = 3;
pub const XDP_UMEM_REG: i32 = 4;
pub const XDP_UMEM_FILL_RING: i32 = 5;
pub const XDP_UMEM_COMPLETION_RING: i32 = 6;
pub const XDP_STATISTICS: i32 = 7;

pub const UMEM_NUM_FRAMES: usize = 2048;
pub const UMEM_FRAME_SIZE: usize = 4096;
pub const UMEM_TOTAL_SIZE: usize = 8_388_608;

pub const RING_SIZE: u32 = 2048;

#[derive(Debug, Default, Clone, Copy)]
pub struct xdp_umem_reg {
    pub addr: u64,
    pub len: u64,
    pub chunk_size: u32,
    pub headroom: u32,
    pub flags: u32,
}

#[derive(Debug, Default, Clone, Copy)]
pub struct xdp_ring_offset {
    pub producer: u64,
    pub consumer: u64,
    pub desc: u64,
    pub flags: u64,
}

#[derive(Debug, Default, Clone, Copy)]
pub struct xdp_mmap_offsets {
    pub rx: xdp_ring_offset,
    pub tx: xdp_ring_offset,
    pub fr: xdp_ring_offset,
    pub cr: xdp_ring_offset,
}

#[derive(Debug, Default, Clone, Copy)]
pub struct xdp_desc {
    pub addr: u64,
    pub len: u32,
    pub options: u32,
}

#[derive(Debug, Default, Clone, Copy)]
pub struct sockaddr_xdp {
    pub sxdp_family: u16,
    pub sxdp_flags: u16,
    pub sxdp_ifindex: u32,
    pub sxdp_queue_id: u32,
    pub sxdp_shared_umem_fd: u32,
}

/// The ring slot of free-running index `base + i` in a ring of `size` slots, `size` a
/// power of two: the index wraps at `u32` and is taken modulo `size`.
pub fn ring_slot(base: u32, i: u32, size: u32) -> (r: usize)
    requires
        size > 0,
    ensures
        r == (base.wrapping_add(i) & (size - 1) as u32),
        r < size,
{
    let x = base.wrapping_add(i);
    let m = size - 1;
    assert(x & m <= m) by (bit_vector);
    (x & m) as usize
}

/// The byte offset in UMEM of frame `i`.
pub fn frame_addr(i: u32) -> (r: u64)
    requires
        i < UMEM_NUM_FRAMES,
    ensures
        r == i * UMEM_FRAME_SIZE,
{
    i as u64 * UMEM_FRAME_SIZE as u64
}

/// How many of `avail` ready RX descriptors a poll takes into a batch with room for
/// `cap` frames.
pub fn rx_take(avail: u32, cap: usize) -> (r: usize)
    ensures
        r == (if (avail as int) < cap { avail as int } else { cap as int }),
{
    if (avail as usize) < cap {
        avail as usize
    } else {
        cap
    }
}

/// The UMEM addresses of frames taken since the last refill of the fill ring, at most
/// 256 (further ones are not kept).
pub struct RecycleList {
    addrs: [u64; 256],
    count: usize,
}

impl View for RecycleList {
    type V = Seq<u64>;

    closed spec fn view(&self) -> Seq<u64> {
        self.addrs@.take(self.count as int)
    }
}

impl RecycleList {
    #[verifier::type_invariant]
    spec fn inv(self) -> bool {
        self.count <= 256
    }

    pub fn new() -> (r: Self)
        ensures
            r@ == Seq::<u64>::empty(),
    {
        let r = RecycleList { addrs: [0u64; 256], count: 0 };
        assert(r@ =~= Seq::<u64>::empty());
        r
    }

    pub fn len(&self) -> (r: usize)
        ensures
            r == self@.len(),
            r <= 256,
    {
        proof {
            use_type_invariant(self);
        }
        self.count
    }

    /// Keeps `addr` unless 256 are already kept; returns whether it was kept.
    pub fn push(&mut self, addr: u64) -> (r: bool)
        ensures
            r == (old(self)@.len() < 256),
            final(self)@ == (if r {
                old(self)@.push(addr)
            } else {
                old(self)@
            }),
    {
        proof {
            use_type_invariant(&*self);
        }
        if self.count < 256 {
            let ghost before = self.addrs@;
            self.addrs[self.count] = addr;
            self.count = self.count + 1;
            assert(self.addrs@.take(self.count as int) =~= before.take(self.count - 1).push(addr));
            true
        } else {
            false
        }
    }

    /// The `i`-th address kept.
    pub fn get(&self, i: usize) -> (r: u64)
        requires
            i < self@.len(),
        ensures
            r == self@[i as int],
    {
        proof {
            use_type_invariant(self);
        }
        self.addrs[i]
    }

    /// Forgets every address (after they are handed back to the fill ring).
    pub fn clear(&mut self)
        ensures
            final(self)@ == Seq::<u64>::empty(),
    {
        self.count = 0;
        assert(self@ =~= Seq::<u64>::empty());
    }
}

} // verus!
