//! A proposer that sends `payload_a` to one group of validators and `payload_b` to the rest.

use crate::chorus::ProposerBehavior;
use crate::types::ValidatorId;
use vstd::prelude::*;

verus! {

pub fn equivocate(payload_a: Vec<u64>, payload_b: Vec<u64>, split_a: Vec<ValidatorId>) -> (b: ProposerBehavior)
    ensures
        b == (ProposerBehavior::Equivocate { payload_a, payload_b, split_a }),
{
    ProposerBehavior::Equivocate { payload_a, payload_b, split_a }
}

/// The canonical split: the first half of `validators`, in the given order.
pub fn half_split(validators: &[ValidatorId]) -> (r: Vec<ValidatorId>)
    ensures
        r@ == validators@.take(validators@.len() as int / 2),
{
    let half = validators.len() / 2;
    let mut r: Vec<ValidatorId> = Vec::new();
    let mut i: usize = 0;
    while i < half
        invariant
            i <= half,
            half == validators@.len() / 2,
            r@ == validators@.take(i as int),
        decreases half - i,
    {
        r.push(validators[i]);
        i = i + 1;
        assert(r@ =~= validators@.take(i as int));
    }
    r
}

} // verus!
