//! Static, zero-allocation log-linear latency histogram: 1024 one-wide buckets,
//! then 16 power-of-two bands of 64 sub-buckets each, then one anomaly bucket.

use vstd::prelude::*;
use vstd::std_specs::bits::u64_leading_zeros;

verus! {

pub const LINEAR_BUCKETS: usize = 1024;
pub const LOG_BANDS: usize = 16;
pub const SUB_BUCKETS: usize = 64;
pub const TOTAL_BUCKETS: usize = 2049;

/// Position of the highest set bit of a nonzero value.
pub open spec fn top_bit(val: u64) -> int {
    63 - u64_leading_zeros(val)
}

/// The bucket a value falls in.
pub open spec fn bucket_of(val: u64) -> int {
    if val < 1024 {
        val as int
    } else {
        let log = top_bit(val);
        if 10 <= log < 26 {
            let base = 1u64 << (log as u64);
            let sub = (((val - base) as u64) << 6u64) >> (log as u64);
            1024 + (log - 10) * 64 + if sub < 63 { sub as int } else { 63 }
        } else {
            2048
        }
    }
}

/// The smallest value a bucket stands for (the anomaly bucket stands for `max`).
pub open spec fn bucket_value(idx: int, max: u64) -> u64 {
    if idx < 1024 {
        idx as u64
    } else if idx < 2048 {
        let band = (idx - 1024) / 64;
        let sub = (idx - 1024) % 64;
        let base = 1u64 << ((band + 10) as u64);
        (base + sub * (base >> 6u64)) as u64
    } else {
        max
    }
}

/// The first bucket from `i` on at which the running total, starting at `acc`, reaches
/// `target`.
pub open spec fn rank_bucket(b: Seq<u32>, i: int, acc: int, target: int) -> Option<int>
    decreases b.len() - i,
{
    if i >= b.len() || i < 0 {
        None
    } else if acc + b[i] >= target {
        Some(i)
    } else {
        rank_bucket(b, i + 1, acc + b[i], target)
    }
}

/// The histogram as plain values.
pub struct HistogramView {
    pub buckets: Seq<u32>,
    pub count: u64,
    pub min: u64,
    pub max: u64,
    pub sum: u64,
}

pub struct StaticHistogram {
    buckets: [u32; TOTAL_BUCKETS],
    count: u64,
    min: u64,
    max: u64,
    sum: u64,
}

impl View for StaticHistogram {
    type V = HistogramView;

    closed spec fn view(&self) -> HistogramView {
        HistogramView {
            buckets: self.buckets@,
            count: self.count,
            min: self.min,
            max: self.max,
            sum: self.sum,
        }
    }
}

/// An empty histogram.
pub open spec fn empty_histogram(h: HistogramView) -> bool {
    &&& h.buckets == Seq::new(2049, |i: int| 0u32)
    &&& h.count == 0 && h.min == u64::MAX && h.max == 0 && h.sum == 0
}

impl Default for StaticHistogram {
    fn default() -> (h: Self)
        ensures
            empty_histogram(h@),
    {
        Self::new()
    }
}

impl StaticHistogram {
    /// An empty histogram keeps `u64::MAX` as its running minimum.
    #[verifier::type_invariant]
    spec fn empty_min(self) -> bool {
        self.count == 0 ==> self.min == u64::MAX
    }

    pub fn new() -> (h: Self)
        ensures
            empty_histogram(h@),
    {
        let h = StaticHistogram { buckets: [0u32; 2049], count: 0, min: u64::MAX, max: 0, sum: 0 };
        assert(h.buckets@ =~= Seq::new(2049, |i: int| 0u32));
        h
    }

    pub fn clear(&mut self)
        ensures
            empty_histogram(final(self)@),
    {
        proof {
            use_type_invariant(&*self);
        }
        let mut i: usize = 0;
        while i < TOTAL_BUCKETS
            invariant
                i <= TOTAL_BUCKETS,
                self.count == 0 ==> self.min == u64::MAX,
                forall|j: int| 0 <= j < i ==> self.buckets@[j] == 0,
            decreases TOTAL_BUCKETS - i,
        {
            self.buckets[i] = 0;
            i = i + 1;
        }
        assert(self.buckets@ =~= Seq::new(2049, |i: int| 0u32));
        self.min = u64::MAX;
        self.count = 0;
        self.max = 0;
        self.sum = 0;
    }

    /// The bucket a value falls in.
    pub fn bucket_index(val: u64) -> (idx: usize)
        ensures
            idx == bucket_of(val),
            idx < TOTAL_BUCKETS,
    {
        if val < 1024 {
            val as usize
        } else {
            proof {
                vstd::std_specs::bits::axiom_u64_leading_zeros(val);
            }
            let lz = val.leading_zeros();
            let log = (63 - lz) as usize;
            if 10 <= log && log < 26 {
                let l = log as u64;
                let top = (63 - lz) as u64;
                assert(top == 63 - u64_leading_zeros(val));
                assert((val >> l) & 1u64 != 0u64);
                assert((val >> l) & 1u64 != 0u64 && l < 64 ==> val >= (1u64 << l)) by (bit_vector);
                let base = 1u64 << l;
                let offset = val - base;
                let sub = (offset << 6u64) >> l;
                let s = if sub < 63 { sub as usize } else { 63 };
                LINEAR_BUCKETS + (log - 10) * SUB_BUCKETS + s
            } else {
                TOTAL_BUCKETS - 1
            }
        }
    }

    /// Records one value.
    pub fn record(&mut self, val: u64)
        requires
            old(self)@.count < u64::MAX,
            old(self)@.sum + val <= u64::MAX,
        ensures
            ({
                let h = old(self)@;
                let idx = bucket_of(val);
                final(self)@ == HistogramView {
                    buckets: h.buckets.update(idx, h.buckets[idx].saturating_add(1)),
                    count: (h.count + 1) as u64,
                    sum: (h.sum + val) as u64,
                    min: if h.count == 0 || val < h.min { val } else { h.min },
                    max: if val > h.max { val } else { h.max },
                }
            }),
    {
        proof {
            use_type_invariant(&*self);
        }
        self.count = self.count + 1;
        self.sum = self.sum + val;
        if val < self.min {
            self.min = val;
        }
        if val > self.max {
            self.max = val;
        }
        let idx = Self::bucket_index(val);
        self.buckets[idx] = self.buckets[idx].saturating_add(1);
    }

    pub fn count(&self) -> (r: u64)
        ensures
            r == self@.count,
    {
        self.count
    }

    /// The smallest value recorded, 0 when none was.
    pub fn min(&self) -> (r: u64)
        ensures
            r == (if self@.count == 0 { 0 } else { self@.min }),
    {
        if self.count == 0 {
            0
        } else {
            self.min
        }
    }

    pub fn max(&self) -> (r: u64)
        ensures
            r == self@.max,
    {
        self.max
    }

    pub fn sum(&self) -> (r: u64)
        ensures
            r == self@.sum,
    {
        self.sum
    }

    /// The value a bucket stands for.
    pub fn bucket_to_val(&self, idx: usize) -> (r: u64)
        ensures
            r == bucket_value(idx as int, self@.max),
    {
        if idx < LINEAR_BUCKETS {
            idx as u64
        } else if idx < TOTAL_BUCKETS - 1 {
            let band_idx = idx - LINEAR_BUCKETS;
            let band = band_idx / SUB_BUCKETS;
            let sub = band_idx % SUB_BUCKETS;
            let log = band + 10;
            let base = 1u64 << (log as u64);
            let step = base >> 6u64;
            let l = log as u64;
            assert(base <= 0x1_0000_0000u64 && (base >> 6u64) <= 0x4000_0000u64) by (bit_vector)
                requires
                    base == 1u64 << l,
                    l < 26,
            ;
            assert(sub * step <= 63 * 0x4000_0000) by (nonlinear_arith)
                requires
                    sub < 64,
                    step <= 0x4000_0000,
            ;
            base + (sub as u64) * step
        } else {
            self.max
        }
    }

    /// The value at which the running bucket total first reaches `target`: 0 for an
    /// empty histogram, `max` when no bucket reaches it.
    pub fn percentile_at(&self, target: u64) -> (r: u64)
        ensures
            r == (if self@.count == 0 {
                0
            } else {
                match rank_bucket(self@.buckets, 0, 0, target as int) {
                    Some(idx) => bucket_value(idx, self@.max),
                    None => self@.max,
                }
            }),
    {
        if self.count == 0 {
            return 0;
        }
        let mut accumulated: u64 = 0;
        let mut idx: usize = 0;
        while idx < TOTAL_BUCKETS
            invariant
                idx <= TOTAL_BUCKETS,
                accumulated <= idx * 0xffff_ffff,
                self@.count != 0,
                rank_bucket(self@.buckets, 0, 0, target as int) == rank_bucket(
                    self@.buckets,
                    idx as int,
                    accumulated as int,
                    target as int,
                ),
            decreases TOTAL_BUCKETS - idx,
        {
            accumulated = accumulated + self.buckets[idx] as u64;
            if accumulated >= target {
                return self.bucket_to_val(idx);
            }
            idx = idx + 1;
        }
        self.max
    }
}

} // verus!
