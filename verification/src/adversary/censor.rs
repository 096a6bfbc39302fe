//! A proposer that disseminates normally but never includes a specific transaction.

use crate::chorus::ProposerBehavior;
use vstd::prelude::*;

verus! {

pub fn censor(payload_without_target: Vec<u64>) -> (b: ProposerBehavior)
    ensures
        b == (ProposerBehavior::Censor { payload: payload_without_target }),
{
    ProposerBehavior::Censor { payload: payload_without_target }
}

} // verus!
