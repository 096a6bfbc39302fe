//! Multiple concurrent proposers: the slot's proposer set. Every validator computes the
//! same set locally; only the proposals themselves stay hidden until the deadline.

use crate::pipeline::ConductorConfig;
use crate::types::{ProposerId, Slot};
use vstd::prelude::*;

verus! {

/// A deterministic rotating window of up to `k` consecutive validators (wrapping around),
/// starting at position `slot` mod n.
pub fn k_proposers_for_slot(cfg: &ConductorConfig, slot: Slot, k: usize) -> (r: Vec<ProposerId>)
    ensures
        r@.len() == if k < cfg.validators@.len() {
            k as int
        } else {
            cfg.validators@.len() as int
        },
        forall|i: int|
            0 <= i < r@.len() ==> #[trigger] r@[i] == cfg.validators@[((slot as usize) as int + i)
                % cfg.validators@.len() as int],
{
    let n = cfg.validators.len();
    let k = if k < n {
        k
    } else {
        n
    };
    let mut r: Vec<ProposerId> = Vec::new();
    let mut i: usize = 0;
    while i < k
        invariant
            i <= k,
            k <= n,
            n == cfg.validators@.len(),
            r@.len() == i,
            forall|j: int|
                0 <= j < i ==> #[trigger] r@[j] == cfg.validators@[((slot as usize) as int + j) % n as int],
        decreases k - i,
    {
        let base = (slot as usize) % n;
        let idx = if i < n - base {
            base + i
        } else {
            i - (n - base)
        };
        proof {
            assert(idx as int == ((slot as usize) as int + i) % n as int) by (nonlinear_arith)
                requires
                    base as int == (slot as usize) as int % n as int,
                    i < n,
                    idx == if i < n - base { base + i } else { i - (n - base) },
                    n > 0,
            ;
        }
        r.push(cfg.validators[idx]);
        i = i + 1;
    }
    r
}

} // verus!
