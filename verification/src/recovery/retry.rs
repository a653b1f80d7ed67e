//! When the engine loop gives up on recovery: the same pending range requested again and
//! again without progress.

use vstd::prelude::*;
use crate::arbitrator::types::RecoveryIntent;

verus! {

/// How many times in a row one pending range may be re-requested before recovery gives up.
pub const MAX_RETRIES: u32 = 4;

#[derive(Debug, Clone, Copy, PartialEq, Eq, Structural)]
pub enum RetryDecision {
    /// Publish the intent to the recovery client.
    Publish,
    /// Recovery of this range is exhausted: seal the session.
    Exhausted,
}

/// Tracks the end of the range last requested and how many times in a row it was
/// requested again.
#[derive(Debug, Clone, Copy, PartialEq, Eq, Structural)]
pub struct RetryTracker {
    pub last_pending_to: Option<u64>,
    pub retry_count: u32,
}

impl RetryTracker {
    pub fn new() -> (r: Self)
        ensures
            r == (RetryTracker { last_pending_to: None, retry_count: 0 }),
    {
        RetryTracker { last_pending_to: None, retry_count: 0 }
    }

    /// Decides on a new recovery intent: a range ending elsewhere than the last one
    /// starts over and is published; the same range again counts a retry, and the
    /// `MAX_RETRIES`-th retry exhausts recovery.
    pub fn on_intent(&mut self, intent: RecoveryIntent) -> (r: RetryDecision)
        requires
            old(self).retry_count < MAX_RETRIES,
        ensures
            old(self).last_pending_to != Some(intent.to_excl) ==> r == RetryDecision::Publish && *final(self)
                == (RetryTracker { last_pending_to: Some(intent.to_excl), retry_count: 0 }),
            old(self).last_pending_to == Some(intent.to_excl) ==> final(self).last_pending_to
                == old(self).last_pending_to && final(self).retry_count == old(self).retry_count + 1 && r == (
            if final(self).retry_count >= MAX_RETRIES {
                RetryDecision::Exhausted
            } else {
                RetryDecision::Publish
            }),
            r == RetryDecision::Publish ==> final(self).retry_count < MAX_RETRIES,
    {
        if self.last_pending_to != Some(intent.to_excl) {
            self.last_pending_to = Some(intent.to_excl);
            self.retry_count = 0;
            RetryDecision::Publish
        } else {
            self.retry_count = self.retry_count + 1;
            if self.retry_count >= MAX_RETRIES {
                RetryDecision::Exhausted
            } else {
                RetryDecision::Publish
            }
        }
    }
}

impl Default for RetryTracker {
    fn default() -> (r: Self)
        ensures
            r == (RetryTracker { last_pending_to: None, retry_count: 0 }),
    {
        Self::new()
    }
}

} // verus!
