//! Tail attribution study: a bounded capture of slow samples, first-touch tracking of
//! 4096-byte input pages, and the post-window classification of captured samples.

use vstd::prelude::*;

verus! {

pub const CAPTURE_RING_SIZE: usize = 32_768;
pub const CAPTURE_THRESHOLD_CYCLES: u64 = 256;

pub const FLAG_FIRST_TOUCH: u16 = 1;
pub const FLAG_BATCH_LEADER: u16 = 2;
pub const FLAG_PREV_CAPTURE: u16 = 4;
pub const FLAG_EPOCH_EVENT: u16 = 8;
pub const FLAG_HB_EOS: u16 = 16;

#[derive(Debug, Clone, Copy, PartialEq, Eq, Structural)]
pub struct TailRecord {
    pub latency: u32,
    pub seq: u64,
    pub m0_stamp: u64,
    pub input_offset: u32,
    pub batch_pos: u16,
    pub batch_size: u16,
    /// Bit 0 first touch, bit 1 batch leader, bit 2 previous sample captured, bit 3
    /// epoch event, bit 4 heartbeat or end of session.
    pub flags: u16,
    pub reserved: u32,
}

impl Default for TailRecord {
    fn default() -> (r: Self)
        ensures
            r == (TailRecord {
                latency: 0,
                seq: 0,
                m0_stamp: 0,
                input_offset: 0,
                batch_pos: 0,
                batch_size: 0,
                flags: 0,
                reserved: 0,
            }),
    {
        TailRecord {
            latency: 0,
            seq: 0,
            m0_stamp: 0,
            input_offset: 0,
            batch_pos: 0,
            batch_size: 0,
            flags: 0,
            reserved: 0,
        }
    }
}

/// Whether page `p` is marked in bitmap `bm` (bit `p % 64` of word `p / 64`).
pub open spec fn page_marked(bm: Seq<u64>, p: int) -> bool {
    0 <= p && p / 64 < bm.len() && (bm[p / 64] >> ((p % 64) as u64)) & 1u64 == 1u64
}

/// The number of `unit`-sized pieces that cover `n` bytes.
pub open spec fn ceil_div(n: int, unit: int) -> int {
    (n + unit - 1) / unit
}

/// The first and last page a read of `len` bytes at `offset` touches (a read of no
/// bytes counts as touching the page of `offset`).
pub open spec fn touched_pages(offset: usize, len: usize) -> (int, int) {
    ((offset / 4096) as int, (offset + (if len == 0 { 0int } else { len - 1 })) / 4096)
}

/// Touching the same bytes again after a touch has marked their pages finds no page
/// unmarked, and marks nothing new: a repeated identical touch reports `false` and leaves
/// the marks as they are. `b1` is the bitmap after the first touch from `b0`.
pub proof fn law_first_touch_repeat(b0: Seq<u64>, b1: Seq<u64>, byte_offset: usize, len: usize, pc: int)
    requires
        b1.len() == b0.len(),
        pc <= b0.len() * 64,
        ({
            let (first, last) = touched_pages(byte_offset, len);
            forall|p: int| #![trigger page_marked(b1, p)]
                0 <= p < b1.len() * 64 ==> (page_marked(b1, p) == (page_marked(b0, p) || (first <= p <= last
                    && p < pc)))
        }),
    ensures
        ({
            let (first, last) = touched_pages(byte_offset, len);
            &&& !(exists|p: int| first <= p <= last && p < pc && !page_marked(b1, p))
            &&& forall|p: int| #![trigger page_marked(b1, p)]
                0 <= p < b1.len() * 64 ==> (page_marked(b1, p) == (page_marked(b1, p) || (first <= p <= last
                    && p < pc)))
        }),
{
    let (first, last) = touched_pages(byte_offset, len);
    assert forall|p: int| first <= p <= last && p < pc implies page_marked(b1, p) by {
        assert(first >= 0);
        assert(page_marked(b1, p) == (page_marked(b0, p) || (first <= p <= last && p < pc)));
    }
}

pub struct TailStudyContext {
    pub records: Vec<TailRecord>,
    pub overflow_count: u64,
    /// One bit per 4096-byte page.
    pub page_bitmap: Vec<u64>,
    pub page_count: usize,
    pub last_was_capture: bool,
}

proof fn lemma_set_bit(w: u64, b: u64, c: u64)
    requires
        b < 64,
        c < 64,
    ensures
        ((w | (1u64 << b)) >> c) & 1u64 == (if c == b {
            1u64
        } else {
            (w >> c) & 1u64
        }),
        (w & (1u64 << b) == 0u64) == ((w >> b) & 1u64 == 0u64),
        (w >> c) & 1u64 == 0u64 || (w >> c) & 1u64 == 1u64,
{
    assert(((w | (1u64 << b)) >> c) & 1u64 == (if c == b {
        1u64
    } else {
        (w >> c) & 1u64
    })) by (bit_vector)
        requires
            b < 64,
            c < 64,
    ;
    assert((w & (1u64 << b) == 0u64) == ((w >> b) & 1u64 == 0u64)) by (bit_vector)
        requires
            b < 64,
    ;
    assert((w >> c) & 1u64 == 0u64 || (w >> c) & 1u64 == 1u64) by (bit_vector);
}

impl TailStudyContext {
    /// A context for an input of `total_bytes` bytes: no records, every page unmarked.
    pub fn new(total_bytes: usize) -> (c: Self)
        ensures
            c.records@.len() == 0,
            c.overflow_count == 0,
            c.page_count == ceil_div(total_bytes as int, 4096),
            c.page_bitmap@.len() == ceil_div(c.page_count as int, 64),
            forall|i: int| 0 <= i < c.page_bitmap@.len() ==> c.page_bitmap@[i] == 0,
            !c.last_was_capture,
    {
        let page_count = total_bytes / 4096 + if total_bytes % 4096 != 0 {
            1
        } else {
            0
        };
        let bitmap_words = page_count / 64 + if page_count % 64 != 0 {
            1
        } else {
            0
        };
        let page_bitmap = vec![0u64; bitmap_words];
        TailStudyContext {
            records: Vec::new(),
            overflow_count: 0,
            page_bitmap,
            page_count,
            last_was_capture: false,
        }
    }

    /// Forgets every record and mark.
    pub fn clear(&mut self)
        ensures
            final(self).records@.len() == 0,
            final(self).overflow_count == 0,
            final(self).page_bitmap@.len() == old(self).page_bitmap@.len(),
            forall|i: int| 0 <= i < final(self).page_bitmap@.len() ==> final(self).page_bitmap@[i] == 0,
            final(self).page_count == old(self).page_count,
            !final(self).last_was_capture,
    {
        self.records.clear();
        self.overflow_count = 0;
        let n = self.page_bitmap.len();
        let mut i: usize = 0;
        while i < n
            invariant
                i <= n,
                n == self.page_bitmap@.len(),
                n == old(self).page_bitmap@.len(),
                self.records@.len() == 0,
                self.overflow_count == 0,
                self.page_count == old(self).page_count,
                forall|j: int| 0 <= j < i ==> self.page_bitmap@[j] == 0,
            decreases n - i,
        {
            self.page_bitmap.set(i, 0);
            i = i + 1;
        }
        self.last_was_capture = false;
    }

    /// Marks every page a read of `len` bytes at `byte_offset` touches (pages past
    /// `page_count` are ignored); returns whether one of them was unmarked.
    pub fn check_and_mark_first_touch(&mut self, byte_offset: usize, len: usize) -> (r: bool)
        requires
            byte_offset + (if len == 0 { 0 } else { len - 1 }) <= usize::MAX,
            old(self).page_bitmap@.len() * 64 >= old(self).page_count,
        ensures
            ({
                let (first, last) = touched_pages(byte_offset, len);
                let pc = old(self).page_count as int;
                &&& r == exists|p: int| first <= p <= last && p < pc && !page_marked(old(self).page_bitmap@, p)
                &&& final(self).page_bitmap@.len() == old(self).page_bitmap@.len()
                &&& forall|p: int| #![trigger page_marked(final(self).page_bitmap@, p)]
                    0 <= p < final(self).page_bitmap@.len() * 64 ==> (page_marked(final(self).page_bitmap@, p) == (
                    page_marked(old(self).page_bitmap@, p) || (first <= p <= last && p < pc)))
                &&& final(self).records == old(self).records
                &&& final(self).overflow_count == old(self).overflow_count
                &&& final(self).page_count == old(self).page_count
                &&& final(self).last_was_capture == old(self).last_was_capture
            }),
    {
        let page_start = byte_offset / 4096;
        let page_end = (byte_offset + if len == 0 {
            0
        } else {
            len - 1
        }) / 4096;
        let ghost bm0 = self.page_bitmap@;
        let ghost pc = self.page_count as int;
        let mut is_first = false;
        let mut page = page_start;
        while page <= page_end
            invariant
                page_start <= page <= page_end + 1,
                page_end <= usize::MAX / 4096,
                page_start == touched_pages(byte_offset, len).0,
                page_end == touched_pages(byte_offset, len).1,
                bm0 == old(self).page_bitmap@,
                self.records == old(self).records,
                self.overflow_count == old(self).overflow_count,
                self.last_was_capture == old(self).last_was_capture,
                self.page_bitmap@.len() == bm0.len(),
                bm0.len() * 64 >= pc,
                pc == self.page_count,
                is_first == exists|p: int| page_start <= p < page && p < pc && !page_marked(bm0, p),
                forall|p: int| #![trigger page_marked(self.page_bitmap@, p)]
                    0 <= p < bm0.len() * 64 ==> (page_marked(self.page_bitmap@, p) == (page_marked(bm0, p)
                        || (page_start <= p < page && p < pc))),
            decreases page_end + 1 - page,
        {
            if page < self.page_count {
                let word_idx = page / 64;
                let bit_idx = (page % 64) as u64;
                let mask = 1u64 << bit_idx;
                let w = self.page_bitmap[word_idx];
                let ghost bm1 = self.page_bitmap@;
                proof {
                    assert(page_marked(bm1, page as int) == page_marked(bm0, page as int));
                    lemma_set_bit(w, bit_idx, bit_idx);
                }
                if (w & mask) == 0 {
                    self.page_bitmap.set(word_idx, w | mask);
                    is_first = true;
                    proof {
                        assert forall|p: int| #![trigger page_marked(self.page_bitmap@, p)]
                            0 <= p < bm0.len() * 64 implies (page_marked(self.page_bitmap@, p) == (page_marked(
                            bm0,
                            p,
                        ) || (page_start <= p < page + 1 && p < pc))) by {
                            assert(page_marked(bm1, p) == (page_marked(bm0, p) || (page_start <= p < page && p
                                < pc)));
                            if p / 64 == word_idx {
                                lemma_set_bit(w, bit_idx, (p % 64) as u64);
                            }
                        }
                    }
                }
            }
            proof {
                assert(is_first == exists|p: int| page_start <= p < page + 1 && p < pc && !page_marked(bm0, p)) by {
                    if !is_first {
                        assert forall|p: int| page_start <= p < page + 1 && p < pc implies page_marked(bm0, p) by {
                            if p < page {
                            } else {
                                assert(page_marked(self.page_bitmap@, p));
                            }
                        }
                    }
                }
            }
            page = page + 1;
        }
        is_first
    }

    /// Captures a sample slower than the threshold (or counts it as overflow when the
    /// ring is full), and remembers whether this sample was captured.
    pub fn record_tail_sample(
        &mut self,
        latency: u64,
        seq: u64,
        m0: u64,
        offset: usize,
        batch_pos: usize,
        batch_size: usize,
        first_touch: bool,
        is_hb_eos: bool,
    )
        requires
            latency > CAPTURE_THRESHOLD_CYCLES && old(self).records@.len() >= CAPTURE_RING_SIZE
                ==> old(self).overflow_count < u64::MAX,
        ensures
            final(self).page_bitmap == old(self).page_bitmap,
            final(self).page_count == old(self).page_count,
            final(self).last_was_capture == (latency > CAPTURE_THRESHOLD_CYCLES),
            latency <= CAPTURE_THRESHOLD_CYCLES ==> final(self).records@ == old(self).records@
                && final(self).overflow_count == old(self).overflow_count,
            latency > CAPTURE_THRESHOLD_CYCLES && old(self).records@.len() >= CAPTURE_RING_SIZE
                ==> final(self).records@ == old(self).records@ && final(self).overflow_count
                == old(self).overflow_count + 1,
            latency > CAPTURE_THRESHOLD_CYCLES && old(self).records@.len() < CAPTURE_RING_SIZE ==> {
                &&& final(self).overflow_count == old(self).overflow_count
                &&& final(self).records@ == old(self).records@.push(
                    TailRecord {
                        latency: if latency > u32::MAX as u64 {
                            u32::MAX
                        } else {
                            latency as u32
                        },
                        seq,
                        m0_stamp: m0,
                        input_offset: offset as u32,
                        batch_pos: batch_pos as u16,
                        batch_size: batch_size as u16,
                        flags: (if first_touch {
                            FLAG_FIRST_TOUCH
                        } else {
                            0
                        }) | (if batch_pos == 0 {
                            FLAG_BATCH_LEADER
                        } else {
                            0
                        }) | (if old(self).last_was_capture {
                            FLAG_PREV_CAPTURE
                        } else {
                            0
                        }) | (if is_hb_eos {
                            FLAG_HB_EOS
                        } else {
                            0
                        }),
                        reserved: 0,
                    },
                )
            },
    {
        if latency > CAPTURE_THRESHOLD_CYCLES {
            if self.records.len() < CAPTURE_RING_SIZE {
                let f1: u16 = if first_touch {
                    FLAG_FIRST_TOUCH
                } else {
                    0
                };
                let f2: u16 = if batch_pos == 0 {
                    FLAG_BATCH_LEADER
                } else {
                    0
                };
                let f3: u16 = if self.last_was_capture {
                    FLAG_PREV_CAPTURE
                } else {
                    0
                };
                let f4: u16 = if is_hb_eos {
                    FLAG_HB_EOS
                } else {
                    0
                };
                let lat: u32 = if latency > u32::MAX as u64 {
                    u32::MAX
                } else {
                    latency as u32
                };
                self.records.push(
                    TailRecord {
                        latency: lat,
                        seq,
                        m0_stamp: m0,
                        input_offset: offset as u32,
                        batch_pos: batch_pos as u16,
                        batch_size: batch_size as u16,
                        flags: f1 | f2 | f3 | f4,
                        reserved: 0,
                    },
                );
            } else {
                self.overflow_count = self.overflow_count + 1;
            }
            self.last_was_capture = true;
        } else {
            self.last_was_capture = false;
        }
    }
}

#[derive(Debug, Clone, Copy, PartialEq, Eq, Structural)]
pub struct TaxonomyBreakdown {
    pub total_samples: usize,
    pub first_touch: usize,
    pub prev_capture: usize,
    pub inter_msg_gap: usize,
    pub batch_boundary: usize,
    pub epoch_event: usize,
    pub hb_eos: usize,
    pub render_charge: usize,
    pub unknown: usize,
}

impl Default for TaxonomyBreakdown {
    fn default() -> (r: Self)
        ensures
            r == zero_breakdown(),
    {
        TaxonomyBreakdown {
            total_samples: 0,
            first_touch: 0,
            prev_capture: 0,
            inter_msg_gap: 0,
            batch_boundary: 0,
            epoch_event: 0,
            hb_eos: 0,
            render_charge: 0,
            unknown: 0,
        }
    }
}

/// The empty breakdown.
pub open spec fn zero_breakdown() -> TaxonomyBreakdown {
    TaxonomyBreakdown {
        total_samples: 0,
        first_touch: 0,
        prev_capture: 0,
        inter_msg_gap: 0,
        batch_boundary: 0,
        epoch_event: 0,
        hb_eos: 0,
        render_charge: 0,
        unknown: 0,
    }
}

/// The cause a sample is attributed to, first match wins: 0 first touch, 1 previous
/// sample captured, 2 inter-message gap over 2000 cycles, 3 batch boundary, 4 heartbeat
/// or end of session, 5 epoch event, 6 unknown.
pub open spec fn tail_cause(rec: TailRecord, gap: u64) -> int {
    if rec.flags & FLAG_FIRST_TOUCH != 0 {
        0
    } else if rec.flags & FLAG_PREV_CAPTURE != 0 {
        1
    } else if gap > 2000 {
        2
    } else if rec.batch_pos == 0 || rec.batch_size == 1 {
        3
    } else if rec.flags & FLAG_HB_EOS != 0 {
        4
    } else if rec.flags & FLAG_EPOCH_EVENT != 0 {
        5
    } else {
        6
    }
}

/// `b` with one more sample, attributed to `cause`.
pub open spec fn tally_cause(b: TaxonomyBreakdown, cause: int) -> TaxonomyBreakdown {
    let t = TaxonomyBreakdown { total_samples: (b.total_samples + 1) as usize, ..b };
    if cause == 0 {
        TaxonomyBreakdown { first_touch: (b.first_touch + 1) as usize, ..t }
    } else if cause == 1 {
        TaxonomyBreakdown { prev_capture: (b.prev_capture + 1) as usize, ..t }
    } else if cause == 2 {
        TaxonomyBreakdown { inter_msg_gap: (b.inter_msg_gap + 1) as usize, ..t }
    } else if cause == 3 {
        TaxonomyBreakdown { batch_boundary: (b.batch_boundary + 1) as usize, ..t }
    } else if cause == 4 {
        TaxonomyBreakdown { hb_eos: (b.hb_eos + 1) as usize, ..t }
    } else if cause == 5 {
        TaxonomyBreakdown { epoch_event: (b.epoch_event + 1) as usize, ..t }
    } else {
        TaxonomyBreakdown { unknown: (b.unknown + 1) as usize, ..t }
    }
}

/// The gap since the previous sample's stamp (0 for the first sample or a stamp that
/// does not advance).
pub open spec fn stamp_gap(prev_m0: u64, m0: u64) -> u64 {
    if prev_m0 > 0 && m0 > prev_m0 {
        (m0 - prev_m0) as u64
    } else {
        0
    }
}

/// Classifying the first `i` records: the breakdown of all of them, the breakdown of
/// those at or above `p99_threshold`, and the last stamp seen.
pub open spec fn classify_upto(records: Seq<TailRecord>, p99_threshold: u64, i: int) -> (TaxonomyBreakdown, TaxonomyBreakdown, u64)
    decreases i,
{
    if i <= 0 {
        (zero_breakdown(), zero_breakdown(), 0)
    } else {
        let prev = classify_upto(records, p99_threshold, i - 1);
        let rec = records[i - 1];
        let cause = tail_cause(rec, stamp_gap(prev.2, rec.m0_stamp));
        (
            tally_cause(prev.0, cause),
            if rec.latency >= p99_threshold {
                tally_cause(prev.1, cause)
            } else {
                prev.1
            },
            rec.m0_stamp,
        )
    }
}

/// Every count of `b` is at most `n`.
pub open spec fn counts_within(b: TaxonomyBreakdown, n: int) -> bool {
    &&& b.total_samples <= n
    &&& b.first_touch <= n
    &&& b.prev_capture <= n
    &&& b.inter_msg_gap <= n
    &&& b.batch_boundary <= n
    &&& b.epoch_event <= n
    &&& b.hb_eos <= n
    &&& b.render_charge <= n
    &&& b.unknown <= n
}

/// Adds one sample attributed to `cause` to `b`.
fn tally(b: &mut TaxonomyBreakdown, cause: u8, Ghost(n): Ghost<int>)
    requires
        counts_within(*old(b), n),
        n < usize::MAX,
    ensures
        *final(b) == tally_cause(*old(b), cause as int),
        counts_within(*final(b), n + 1),
{
    b.total_samples = b.total_samples + 1;
    if cause == 0 {
        b.first_touch = b.first_touch + 1;
    } else if cause == 1 {
        b.prev_capture = b.prev_capture + 1;
    } else if cause == 2 {
        b.inter_msg_gap = b.inter_msg_gap + 1;
    } else if cause == 3 {
        b.batch_boundary = b.batch_boundary + 1;
    } else if cause == 4 {
        b.hb_eos = b.hb_eos + 1;
    } else if cause == 5 {
        b.epoch_event = b.epoch_event + 1;
    } else {
        b.unknown = b.unknown + 1;
    }
}

impl TaxonomyBreakdown {
    /// Attributes each captured sample to a cause (see [`tail_cause`]); returns the
    /// breakdown of all samples and of those at or above `p99_threshold` cycles.
    pub fn classify(records: &[TailRecord], p99_threshold: u64) -> (r: (Self, Self))
        ensures
            (r.0, r.1) == ({
                let c = classify_upto(records@, p99_threshold, records@.len() as int);
                (c.0, c.1)
            }),
    {
        let mut above_p90 = TaxonomyBreakdown::default();
        let mut above_p99 = TaxonomyBreakdown::default();
        let mut prev_m0: u64 = 0;
        let mut i: usize = 0;
        while i < records.len()
            invariant
                i <= records@.len(),
                counts_within(above_p90, i as int),
                counts_within(above_p99, i as int),
                (above_p90, above_p99, prev_m0) == classify_upto(records@, p99_threshold, i as int),
            decreases records.len() - i,
        {
            let rec = records[i];
            let lat = rec.latency as u64;
            let gap: u64 = if prev_m0 > 0 && rec.m0_stamp > prev_m0 {
                rec.m0_stamp - prev_m0
            } else {
                0
            };
            prev_m0 = rec.m0_stamp;
            let cause: u8 = if (rec.flags & FLAG_FIRST_TOUCH) != 0 {
                0
            } else if (rec.flags & FLAG_PREV_CAPTURE) != 0 {
                1
            } else if gap > 2000 {
                2
            } else if rec.batch_pos == 0 || rec.batch_size == 1 {
                3
            } else if (rec.flags & FLAG_HB_EOS) != 0 {
                4
            } else if (rec.flags & FLAG_EPOCH_EVENT) != 0 {
                5
            } else {
                6
            };
            assert(cause as int == tail_cause(rec, gap));
            tally(&mut above_p90, cause, Ghost(i as int));
            if lat >= p99_threshold {
                tally(&mut above_p99, cause, Ghost(i as int));
            }
            i = i + 1;
        }
        (above_p90, above_p99)
    }
}

/// Keeps `x` alive so that the reads that produced it are not optimized away.
#[verifier::external_body]
fn keep_alive(x: u8) {
    std::hint::black_box(x);
}

/// Reads the first byte of every 4096-byte page of `buf`, faulting its pages in.
pub fn prefault_buffer(buf: &[u8]) {
    let mut sum: u8 = 0;
    let mut pos: usize = 0;
    while pos < buf.len()
        invariant
            pos <= buf@.len() + 4095,
        decreases buf@.len() + 4096 - pos,
    {
        sum = sum.wrapping_add(buf[pos]);
        if buf.len() - pos <= 4096 {
            pos = buf.len();
        } else {
            pos = pos + 4096;
        }
    }
    keep_alive(sum);
}

} // verus!
