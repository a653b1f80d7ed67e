//! Recovery intent generation: when to ask for a retransmission, and of what range.

use vstd::prelude::*;
use crate::arbitrator::counters::{inc, Counters};
use crate::arbitrator::types::RecoveryIntent;

verus! {

pub const TIME_TRIGGER_NS: u64 = 250_000;
pub const HB_TRIGGER_NS: u64 = 250_000;
pub const RESUGGEST_WINDOW_NS: u64 = 250_000;
pub const HWM_STAGED_THRESHOLD: u64 = 512;
pub const MAX_WIRE_REQUEST: u64 = 65535;

/// The trigger target, if any: staged messages far enough ahead of `w` (T-HWM) or left
/// waiting long enough since the last progress (T-TIME) target `max_staged`; otherwise a
/// heartbeat beyond `w` seen long enough ago (T-HB) targets the heartbeat's sequence number.
pub open spec fn intent_target(
    w: u64,
    max_staged: u64,
    staged_count: u32,
    progress_vt: u64,
    hb_seq: u64,
    hb_vt: u64,
    now_ns: u64,
) -> Option<u64> {
    if (max_staged > w && max_staged - w >= HWM_STAGED_THRESHOLD) || (staged_count > 0
        && now_ns.saturating_sub(progress_vt) >= TIME_TRIGGER_NS) {
        Some(max_staged)
    } else if hb_seq > w && now_ns.saturating_sub(hb_vt) >= HB_TRIGGER_NS {
        Some(hb_seq)
    } else {
        None
    }
}

/// Re-suggesting the pending target once the re-suggest window has passed since the last
/// intent.
pub open spec fn resuggest_effect(
    w: u64,
    pending_to: Option<u64>,
    last_intent_vt: u64,
    now_ns: u64,
    counters: Counters,
) -> (Option<RecoveryIntent>, Option<u64>, u64, Counters) {
    match pending_to {
        Some(p) => if now_ns.saturating_sub(last_intent_vt) >= RESUGGEST_WINDOW_NS {
            (
                Some(RecoveryIntent { from: w, to_excl: p }),
                pending_to,
                now_ns,
                Counters { intents_issued: inc(counters.intents_issued), ..counters },
            )
        } else {
            (None, pending_to, last_intent_vt, counters)
        },
        None => (None, pending_to, last_intent_vt, counters),
    }
}

/// Effect of evaluating recovery intent: the intent issued (if any), the new pending
/// target, the new time of the last intent, and the counters. A trigger target is
/// clamped to one wire request past `w` and issued if it extends the pending target;
/// otherwise a pending target is re-suggested once per window.
pub open spec fn intent_effect(
    w: u64,
    max_staged: u64,
    staged_count: u32,
    progress_vt: u64,
    hb_seq: u64,
    hb_vt: u64,
    pending_to: Option<u64>,
    last_intent_vt: u64,
    now_ns: u64,
    counters: Counters,
) -> (Option<RecoveryIntent>, Option<u64>, u64, Counters) {
    match intent_target(w, max_staged, staged_count, progress_vt, hb_seq, hb_vt, now_ns) {
        Some(t0) => {
            let cap = w.wrapping_add(MAX_WIRE_REQUEST);
            let t = if t0 < cap { t0 } else { cap };
            let should_emit = match pending_to {
                None => true,
                Some(p) => t > p,
            };
            if should_emit {
                (
                    Some(RecoveryIntent { from: w, to_excl: t }),
                    Some(t),
                    now_ns,
                    Counters { intents_issued: inc(counters.intents_issued), ..counters },
                )
            } else {
                resuggest_effect(w, pending_to, last_intent_vt, now_ns, counters)
            }
        },
        None => resuggest_effect(w, pending_to, last_intent_vt, now_ns, counters),
    }
}

/// Generates a recovery intent on a gap trigger (T-HWM, T-TIME, T-HB) that extends the
/// pending target, or re-suggests the pending target when its re-suggest window has
/// elapsed.
pub fn check_recovery_intent(
    w: u64,
    max_staged: u64,
    staged_count: u32,
    progress_vt: u64,
    hb_seq: u64,
    hb_vt: u64,
    pending_to: &mut Option<u64>,
    last_intent_vt: &mut u64,
    now_ns: u64,
    counters: &mut Counters,
) -> (r: Option<RecoveryIntent>)
    ensures
        (r, *final(pending_to), *final(last_intent_vt), *final(counters)) == intent_effect(
            w,
            max_staged,
            staged_count,
            progress_vt,
            hb_seq,
            hb_vt,
            *old(pending_to),
            *old(last_intent_vt),
            now_ns,
            *old(counters),
        ),
{
    let mut target: Option<u64> = None;
    if (max_staged > w && (max_staged - w) >= HWM_STAGED_THRESHOLD) || (staged_count > 0
        && now_ns.saturating_sub(progress_vt) >= TIME_TRIGGER_NS) {
        target = Some(max_staged);
    } else if hb_seq > w && now_ns.saturating_sub(hb_vt) >= HB_TRIGGER_NS {
        target = Some(hb_seq);
    }
    if let Some(t0) = target {
        let cap = w.wrapping_add(MAX_WIRE_REQUEST);
        let t = if t0 < cap { t0 } else { cap };
        let should_emit = match *pending_to {
            None => true,
            Some(prev_p) => t > prev_p,
        };
        if should_emit {
            *pending_to = Some(t);
            *last_intent_vt = now_ns;
            counters.intents_issued = counters.intents_issued.wrapping_add(1);
            return Some(RecoveryIntent { from: w, to_excl: t });
        }
    }
    if let Some(p) = *pending_to {
        if now_ns.saturating_sub(*last_intent_vt) >= RESUGGEST_WINDOW_NS {
            *last_intent_vt = now_ns;
            counters.intents_issued = counters.intents_issued.wrapping_add(1);
            return Some(RecoveryIntent { from: w, to_excl: p });
        }
    }
    None
}

} // verus!
