//! The command a recovery intent is published as: the intent, the session it belongs
//! to, and whether it is live.

use vstd::prelude::*;
use crate::arbitrator::types::RecoveryIntent;

verus! {

#[derive(Debug, Clone, Copy, PartialEq, Eq)]
pub struct CmdPayload {
    pub intent: RecoveryIntent,
    pub session: [u8; 10],
    pub valid: bool,
}

impl CmdPayload {
    /// A live command for `intent` in `session`.
    pub fn publish(intent: RecoveryIntent, session: [u8; 10]) -> (p: Self)
        ensures
            p.intent == intent,
            p.session == session,
            p.valid,
    {
        CmdPayload { intent, session, valid: true }
    }

    /// The cleared command for `session`: an empty intent, not live.
    pub fn cleared(session: [u8; 10]) -> (p: Self)
        ensures
            p.intent == (RecoveryIntent { from: 0, to_excl: 0 }),
            p.session == session,
            !p.valid,
    {
        CmdPayload { intent: RecoveryIntent { from: 0, to_excl: 0 }, session, valid: false }
    }
}

impl Default for CmdPayload {
    fn default() -> (p: Self)
        ensures
            p.intent == (RecoveryIntent { from: 0, to_excl: 0 }),
            p.session@ == Seq::new(10, |i: int| 0u8),
            !p.valid,
    {
        let z = [0u8; 10];
        assert(z@ =~= Seq::new(10, |i: int| 0u8));
        CmdPayload::cleared(z)
    }
}

} // verus!
