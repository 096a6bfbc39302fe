//! Byzantine-silent validators: which ones go dark.

use crate::types::ValidatorId;
use vstd::prelude::*;

verus! {

/// The first `f` validators (all of them, if there are fewer).
pub fn offline_set(validators: &[ValidatorId], f: usize) -> (r: Vec<ValidatorId>)
    ensures
        r@ == validators@.take(if f < validators@.len() {
            f as int
        } else {
            validators@.len() as int
        }),
{
    let n = if f < validators.len() {
        f
    } else {
        validators.len()
    };
    let mut r: Vec<ValidatorId> = Vec::new();
    let mut i: usize = 0;
    while i < n
        invariant
            i <= n,
            n <= validators@.len(),
            r@ == validators@.take(i as int),
        decreases n - i,
    {
        r.push(validators[i]);
        i = i + 1;
        assert(r@ =~= validators@.take(i as int));
    }
    r
}

} // verus!
