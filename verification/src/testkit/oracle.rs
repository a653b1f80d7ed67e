//! The verdict on a sequencer run checked against the independent arbitrator of the
//! testkit: same watermark, message count and output hash, and a run that emitted as
//! many messages as the ground truth holds hashes to the ground truth's golden hash.

use vstd::prelude::*;

verus! {

/// Where a run departs from the reference or the ground truth.
#[derive(Debug, Clone, Copy, PartialEq, Eq, Structural)]
pub enum Divergence {
    Watermark { seq: u64, reference: u64 },
    Count { seq: u64, reference: usize },
    Hash { seq: u64, reference: u64 },
    GoldenHash { seq: u64, golden: u64 },
}

/// The verdict on a run: the first divergence found, checking the watermark, the count,
/// the hash against the reference and then the golden hash of a complete run; otherwise
/// the run's watermarks, count and hash.
pub open spec fn spec_verdict(
    seq_wm: u64,
    ref_wm: u64,
    seq_count: u64,
    ref_count: usize,
    seq_hash: u64,
    ref_hash: u64,
    gt_count: u64,
    gt_hash: u64,
) -> Result<(u64, u64, u64, u64), Divergence> {
    if seq_wm != ref_wm {
        Err(Divergence::Watermark { seq: seq_wm, reference: ref_wm })
    } else if seq_count as usize != ref_count {
        Err(Divergence::Count { seq: seq_count, reference: ref_count })
    } else if seq_hash != ref_hash {
        Err(Divergence::Hash { seq: seq_hash, reference: ref_hash })
    } else if seq_count == gt_count && seq_hash != gt_hash {
        Err(Divergence::GoldenHash { seq: seq_hash, golden: gt_hash })
    } else {
        Ok((seq_wm, ref_wm, seq_count, seq_hash))
    }
}

/// Judges a run of the sequencer against the reference arbitrator and the ground truth.
pub fn differential_verdict(
    seq_wm: u64,
    ref_wm: u64,
    seq_count: u64,
    ref_count: usize,
    seq_hash: u64,
    ref_hash: u64,
    gt_count: u64,
    gt_hash: u64,
) -> (r: Result<(u64, u64, u64, u64), Divergence>)
    ensures
        r == spec_verdict(seq_wm, ref_wm, seq_count, ref_count, seq_hash, ref_hash, gt_count, gt_hash),
{
    if seq_wm != ref_wm {
        return Err(Divergence::Watermark { seq: seq_wm, reference: ref_wm });
    }
    if seq_count as usize != ref_count {
        return Err(Divergence::Count { seq: seq_count, reference: ref_count });
    }
    if seq_hash != ref_hash {
        return Err(Divergence::Hash { seq: seq_hash, reference: ref_hash });
    }
    if seq_count == gt_count && seq_hash != gt_hash {
        return Err(Divergence::GoldenHash { seq: seq_hash, golden: gt_hash });
    }
    Ok((seq_wm, ref_wm, seq_count, seq_hash))
}

} // verus!
