//! Performance gate thresholds and the verdicts machine assertion derives from them.

use vstd::prelude::*;

verus! {

pub const PR1_MIN_SUSTAINED_MSG_PER_SEC: u64 = 10_000_000;
/// Strict reference-hardware targets.
pub const PR2_TARGET_P50_CYCLES: u64 = 60;
pub const PR2_TARGET_P99_CYCLES: u64 = 150;
/// Virtualized CI margin envelope.
pub const PR2_TIER2_VM_P50_CYCLES: u64 = 130;
pub const PR2_TIER2_VM_P99_CYCLES: u64 = 185;
pub const PR3_MAX_ALLOC_DELTA: u64 = 0;
pub const SAMPLING_INTERVAL: usize = 256;

#[derive(Debug, Clone, Copy, PartialEq, Eq, Structural)]
pub enum GateVerdict {
    Pass,
    Fail,
}

/// The verdict that a condition yields.
pub open spec fn verdict(pass: bool) -> GateVerdict {
    if pass {
        GateVerdict::Pass
    } else {
        GateVerdict::Fail
    }
}

impl GateVerdict {
    /// The verdict's name as printed in reports.
    pub fn as_str(&self) -> (s: &'static str)
        ensures
            *self == GateVerdict::Pass ==> s@ == "PASS"@,
            *self == GateVerdict::Fail ==> s@ == "FAIL"@,
    {
        match self {
            GateVerdict::Pass => "PASS",
            GateVerdict::Fail => "FAIL",
        }
    }
}

/// Sustained throughput gate: passes at or above ten million messages per second.
pub fn evaluate_pr1(sustained_rate: u64) -> (v: GateVerdict)
    ensures
        v == verdict(sustained_rate >= PR1_MIN_SUSTAINED_MSG_PER_SEC),
{
    if sustained_rate >= PR1_MIN_SUSTAINED_MSG_PER_SEC {
        GateVerdict::Pass
    } else {
        GateVerdict::Fail
    }
}

/// Median latency gate on reference hardware: passes strictly below 60 cycles.
pub fn evaluate_pr2_p50(p50_cycles: u64) -> (v: GateVerdict)
    ensures
        v == verdict(p50_cycles < PR2_TARGET_P50_CYCLES),
{
    if p50_cycles < PR2_TARGET_P50_CYCLES {
        GateVerdict::Pass
    } else {
        GateVerdict::Fail
    }
}

/// Tail latency gate on reference hardware: passes strictly below 150 cycles.
pub fn evaluate_pr2_p99(p99_cycles: u64) -> (v: GateVerdict)
    ensures
        v == verdict(p99_cycles < PR2_TARGET_P99_CYCLES),
{
    if p99_cycles < PR2_TARGET_P99_CYCLES {
        GateVerdict::Pass
    } else {
        GateVerdict::Fail
    }
}

/// Median latency gate on virtualized CI: passes strictly below 130 cycles.
pub fn evaluate_pr2_tier2_p50(p50_cycles: u64) -> (v: GateVerdict)
    ensures
        v == verdict(p50_cycles < PR2_TIER2_VM_P50_CYCLES),
{
    if p50_cycles < PR2_TIER2_VM_P50_CYCLES {
        GateVerdict::Pass
    } else {
        GateVerdict::Fail
    }
}

/// Tail latency gate on virtualized CI: passes strictly below 185 cycles.
pub fn evaluate_pr2_tier2_p99(p99_cycles: u64) -> (v: GateVerdict)
    ensures
        v == verdict(p99_cycles < PR2_TIER2_VM_P99_CYCLES),
{
    if p99_cycles < PR2_TIER2_VM_P99_CYCLES {
        GateVerdict::Pass
    } else {
        GateVerdict::Fail
    }
}

/// Allocation gate: passes only when no allocation happened in the window.
pub fn evaluate_pr3(alloc_delta: u64) -> (v: GateVerdict)
    ensures
        v == verdict(alloc_delta == PR3_MAX_ALLOC_DELTA),
{
    if alloc_delta == PR3_MAX_ALLOC_DELTA {
        GateVerdict::Pass
    } else {
        GateVerdict::Fail
    }
}

} // verus!
