//! Speculative finality, typed: whether a validator speculated, and whether full
//! finalization confirmed or reverted its speculative view; and the equivocation proof
//! that alone can justify a revert.

use crate::chorus::validator::ChorusValidator;
use crate::chorus::EquivocationProof;
use crate::types::{Entry, MetaBlock, ProposerId};
use vstd::prelude::*;

verus! {

#[derive(Debug, Clone, PartialEq, Eq)]
pub enum SpeculativeOutcome {
    /// No speculative view was formed (still waiting on a round-1 quorum for some proposer).
    NoSpeculation,
    /// Speculated, not yet fully finalized.
    Pending { speculative: MetaBlock },
    /// Full finalization agreed with the speculative view.
    Confirmed { meta_block: MetaBlock },
    /// Full finalization diverged from the speculative view.
    Reverted { speculative: MetaBlock, finalized: MetaBlock },
}

/// Where a validator's speculative view stands against its finalization.
pub open spec fn outcome_spec(
    speculative: Option<(u64, Seq<(ProposerId, Entry)>)>,
    finalized: Option<(u64, Seq<(ProposerId, Entry)>)>,
    r: SpeculativeOutcome,
) -> bool {
    match speculative {
        None => r == SpeculativeOutcome::NoSpeculation,
        Some(sp) => match finalized {
            None => r matches SpeculativeOutcome::Pending { speculative } && speculative@ == sp,
            Some(fin) => if sp == fin {
                r matches SpeculativeOutcome::Confirmed { meta_block } && meta_block@ == fin
            } else {
                r matches SpeculativeOutcome::Reverted { speculative, finalized } && speculative@ == sp
                    && finalized@ == fin
            },
        },
    }
}

pub fn outcome(instance: &ChorusValidator) -> (r: SpeculativeOutcome)
    ensures
        outcome_spec(
            match instance.spec_speculative() {
                Some(s) => Some(s.meta_block@),
                None => None,
            },
            match instance.spec_finalized() {
                Some(f) => Some(f.meta_block@),
                None => None,
            },
            r,
        ),
{
    match (instance.speculative_slot(), instance.finalized_slot()) {
        (Some(spec), Some(fin)) => {
            if spec.meta_block.same_as(&fin.meta_block) {
                SpeculativeOutcome::Confirmed { meta_block: fin.meta_block.duplicate() }
            } else {
                SpeculativeOutcome::Reverted {
                    speculative: spec.meta_block.duplicate(),
                    finalized: fin.meta_block.duplicate(),
                }
            }
        },
        (Some(spec), None) => SpeculativeOutcome::Pending { speculative: spec.meta_block.duplicate() },
        (None, _) => SpeculativeOutcome::NoSpeculation,
    }
}

/// Whether, at some position within both, `a` names proposer `p` and the entry there
/// differs between `a` and `b` (only the entries are compared, not the proposers).
pub open spec fn entry_changed(a: Seq<(ProposerId, Entry)>, b: Seq<(ProposerId, Entry)>, p: ProposerId) -> bool {
    exists|k: int| 0 <= k < a.len() && k < b.len() && a[k].1 != b[k].1 && #[trigger] a[k].0 == p
}

/// The first proof, in order, that names a proposer whose entry changed between the
/// speculative and the final view: the proof that justifies the revert, if any.
pub fn justifying_proof<'a>(
    proofs: &'a [EquivocationProof],
    speculative: &MetaBlock,
    finalized: &MetaBlock,
) -> (r: Option<&'a EquivocationProof>)
    ensures
        match r {
            Some(pr) => exists|i: int|
                0 <= i < proofs@.len() && proofs@[i] == *pr && entry_changed(
                    speculative.entries@,
                    finalized.entries@,
                    pr.proposer,
                ) && forall|j: int|
                    0 <= j < i ==> !entry_changed(
                        speculative.entries@,
                        finalized.entries@,
                        #[trigger] proofs@[j].proposer,
                    ),
            None => forall|i: int|
                0 <= i < proofs@.len() ==> !entry_changed(
                    speculative.entries@,
                    finalized.entries@,
                    #[trigger] proofs@[i].proposer,
                ),
        },
{
    let ghost a = speculative.entries@;
    let ghost b = finalized.entries@;
    let n = if speculative.entries.len() < finalized.entries.len() {
        speculative.entries.len()
    } else {
        finalized.entries.len()
    };
    let mut changed: Vec<ProposerId> = Vec::new();
    let mut k: usize = 0;
    while k < n
        invariant
            k <= n,
            n <= a.len(),
            n <= b.len(),
            n == a.len() || n == b.len(),
            a == speculative.entries@,
            b == finalized.entries@,
            forall|p: ProposerId| #[trigger] changed@.contains(p) <==> exists|m: int|
                0 <= m < k && a[m].1 != b[m].1 && #[trigger] a[m].0 == p,
        decreases n - k,
    {
        let (p, e) = speculative.entries[k];
        let (_, g) = finalized.entries[k];
        let ghost before = changed@;
        if e != g {
            changed.push(p);
            proof {
                assert(a[k as int].1 != b[k as int].1);
                assert forall|pp: ProposerId| #[trigger] changed@.contains(pp) <==> exists|m: int|
                    0 <= m < k + 1 && a[m].1 != b[m].1 && #[trigger] a[m].0 == pp by {
                    if changed@.contains(pp) {
                        let i = choose|i: int| 0 <= i < changed@.len() && changed@[i] == pp;
                        if i < before.len() {
                            assert(before[i] == pp);
                            assert(before.contains(pp));
                        }
                    }
                    if exists|m: int| 0 <= m < k + 1 && a[m].1 != b[m].1 && #[trigger] a[m].0 == pp {
                        let m = choose|m: int| 0 <= m < k + 1 && a[m].1 != b[m].1 && #[trigger] a[m].0 == pp;
                        if m < k {
                            assert(before.contains(pp));
                            let i = choose|i: int| 0 <= i < before.len() && before[i] == pp;
                            assert(changed@[i] == pp);
                        } else {
                            assert(changed@[before.len() as int] == pp);
                        }
                    }
                }
            }
        } else {
            proof {
                assert(a[k as int].1 == b[k as int].1);
                assert forall|pp: ProposerId| #[trigger] changed@.contains(pp) <==> exists|m: int|
                    0 <= m < k + 1 && a[m].1 != b[m].1 && #[trigger] a[m].0 == pp by {
                    if exists|m: int| 0 <= m < k + 1 && a[m].1 != b[m].1 && #[trigger] a[m].0 == pp {
                        let m = choose|m: int| 0 <= m < k + 1 && a[m].1 != b[m].1 && #[trigger] a[m].0 == pp;
                        assert(m != k);
                    }
                }
            }
        }
        k = k + 1;
    }
    proof {
        assert forall|p: ProposerId| #[trigger] changed@.contains(p) <==> entry_changed(a, b, p) by {
            if entry_changed(a, b, p) {
                let m = choose|m: int| 0 <= m < a.len() && m < b.len() && a[m].1 != b[m].1 && #[trigger] a[m].0 == p;
                assert(m < n);
            }
        }
    }
    let mut i: usize = 0;
    while i < proofs.len()
        invariant
            i <= proofs@.len(),
            forall|p: ProposerId| #[trigger] changed@.contains(p) <==> entry_changed(a, b, p),
            forall|j: int| 0 <= j < i ==> !entry_changed(a, b, #[trigger] proofs@[j].proposer),
            a == speculative.entries@,
            b == finalized.entries@,
        decreases proofs@.len() - i,
    {
        if crate::types::contains_u64(&changed, proofs[i].proposer) {
            return Some(&proofs[i]);
        }
        i = i + 1;
    }
    None
}

} // verus!
