//! Pure tallies over collected votes: per-digest support, the fallback vote with its
//! equivocation check, and the fallback leader's decision rule.

use crate::certifier::{certified_at, collect_voters, lemma_voters_of_props, sort_ids, vote_count, VoteValue};
use crate::chorus::{EquivocationProof, RoundVote};
use crate::idmap::{has_key, keys_distinct, IdMap};
use crate::types::{copy_u64s, sorted_by_key, lemma_sort_by_key_props, Digest, Entry, MetaBlock, ProposerId, Slot, ValidatorId};
use vstd::prelude::*;

verus! {

/// The digest a vote says yes to, if it is a yes vote.
pub open spec fn yes_digest(v: RoundVote) -> Option<Digest> {
    match v@ {
        Some((d, _)) => Some(d),
        None => None,
    }
}

/// How many of the votes in `s` say yes to digest `d`.
pub open spec fn digest_support(s: Seq<(ValidatorId, RoundVote)>, d: Digest) -> nat
    decreases s.len(),
{
    if s.len() == 0 {
        0
    } else {
        digest_support(s.drop_last(), d) + if yes_digest(s.last().1) == Some(d) {
            1nat
        } else {
            0nat
        }
    }
}

/// The validators whose votes in `s` say yes to `d`, in vote order.
pub open spec fn digest_witnesses(s: Seq<(ValidatorId, RoundVote)>, d: Digest) -> Seq<ValidatorId>
    decreases s.len(),
{
    if s.len() == 0 {
        Seq::empty()
    } else if yes_digest(s.last().1) == Some(d) {
        digest_witnesses(s.drop_last(), d).push(s.last().0)
    } else {
        digest_witnesses(s.drop_last(), d)
    }
}


pub open spec fn ascending(s: Seq<u64>) -> bool {
    forall|i: int, j: int| 0 <= i < j < s.len() ==> s[i] < s[j]
}

proof fn lemma_support_positive(s: Seq<(ValidatorId, RoundVote)>, d: Digest)
    ensures
        digest_support(s, d) > 0 <==> exists|i: int| 0 <= i < s.len() && #[trigger] yes_digest(s[i].1) == Some(d),
        digest_witnesses(s, d).len() == digest_support(s, d),
    decreases s.len(),
{
    if s.len() > 0 {
        let t = s.drop_last();
        lemma_support_positive(t, d);
        if exists|i: int| 0 <= i < t.len() && #[trigger] yes_digest(t[i].1) == Some(d) {
            let i = choose|i: int| 0 <= i < t.len() && #[trigger] yes_digest(t[i].1) == Some(d);
            assert(s[i] == t[i]);
        }
        if exists|i: int| 0 <= i < s.len() && #[trigger] yes_digest(s[i].1) == Some(d) {
            let i = choose|i: int| 0 <= i < s.len() && #[trigger] yes_digest(s[i].1) == Some(d);
            if i < s.len() - 1 {
                assert(t[i] == s[i]);
            }
        }
    }
}

proof fn lemma_witness_props(s: Seq<(ValidatorId, RoundVote)>, d: Digest)
    requires
        keys_distinct(s),
    ensures
        digest_witnesses(s, d).no_duplicates(),
        forall|w: ValidatorId|
            #[trigger] digest_witnesses(s, d).contains(w) ==> exists|i: int|
                0 <= i < s.len() && s[i].0 == w && yes_digest(s[i].1) == Some(d),
    decreases s.len(),
{
    if s.len() > 0 {
        let t = s.drop_last();
        lemma_witness_props(t, d);
        let wt = digest_witnesses(t, d);
        assert forall|w: ValidatorId| #[trigger] digest_witnesses(s, d).contains(w) implies exists|i: int|
            0 <= i < s.len() && s[i].0 == w && yes_digest(s[i].1) == Some(d) by {
            let ws = digest_witnesses(s, d);
            let m = choose|m: int| 0 <= m < ws.len() && ws[m] == w;
            if m < wt.len() {
                assert(wt[m] == w);
                assert(wt.contains(w));
                let i = choose|i: int| 0 <= i < t.len() && t[i].0 == w && yes_digest(t[i].1) == Some(d);
                assert(s[i] == t[i]);
            } else {
                assert(s[s.len() - 1].0 == w);
            }
        }
        if yes_digest(s.last().1) == Some(d) {
            let last = s.last().0;
            if wt.contains(last) {
                let i = choose|i: int| 0 <= i < t.len() && t[i].0 == last && yes_digest(t[i].1) == Some(d);
                assert(s[i].0 == s[s.len() - 1].0);
            }
            assert forall|a: int, b: int| 0 <= a < b < wt.push(last).len() implies wt.push(last)[a]
                != wt.push(last)[b] by {
                if b == wt.len() {
                    assert(wt.contains(wt[a]));
                }
            }
        }
    }
}

/// The voters whose votes say yes to `d`, in vote order.
pub fn witnesses_of(votes: &IdMap<RoundVote>, d: Digest) -> (r: Vec<ValidatorId>)
    ensures
        r@ == digest_witnesses(votes@, d),
{
    let mut r: Vec<ValidatorId> = Vec::new();
    let mut j: usize = 0;
    while j < votes.len()
        invariant
            j <= votes@.len(),
            r@ == digest_witnesses(votes@.take(j as int), d),
        decreases votes@.len() - j,
    {
        assert(votes@.take(j as int + 1).drop_last() =~= votes@.take(j as int));
        match votes.value_at(j) {
            RoundVote::Yes { digest, .. } => {
                if *digest == d {
                    r.push(votes.key_at(j));
                }
            },
            RoundVote::No => {},
        }
        j = j + 1;
    }
    assert(votes@.take(votes@.len() as int) =~= votes@);
    r
}

/// Position `i` holds the earliest yes vote for `d` whose whole value (digest and
/// payload) is cast by at least `t` voters.
pub open spec fn first_certified_yes(s: Seq<(ValidatorId, RoundVote)>, d: Digest, t: nat, i: int) -> bool {
    &&& 0 <= i < s.len()
    &&& yes_digest(s[i].1) == Some(d)
    &&& certified_at(s, i, t)
    &&& forall|j: int| 0 <= j < i ==> !(yes_digest(s[j].1) == Some(d) && #[trigger] certified_at(s, j, t))
}

/// The payload of the earliest yes vote for `d` whose whole value `threshold` voters
/// cast, if there is one.
pub fn certified_payload_of(votes: &IdMap<RoundVote>, d: Digest, threshold: usize) -> (r: Option<Vec<u64>>)
    ensures
        match r {
            Some(p) => exists|i: int| #[trigger] first_certified_yes(votes@, d, threshold as nat, i) && votes@[i].1@ == Some((d, p@)),
            None => forall|i: int|
                0 <= i < votes@.len() && yes_digest(votes@[i].1) == Some(d) ==> !#[trigger] certified_at(votes@, i, threshold as nat),
        },
{
    proof {
        use_type_invariant(votes);
    }
    let mut i: usize = 0;
    while i < votes.len()
        invariant
            votes.wf(),
            i <= votes@.len(),
            forall|j: int| 0 <= j < i ==> !(yes_digest(votes@[j].1) == Some(d) && #[trigger] certified_at(votes@, j, threshold as nat)),
        decreases votes@.len() - i,
    {
        match votes.value_at(i) {
            RoundVote::Yes { digest, payload } => {
                if *digest == d {
                    let signers = collect_voters(votes, i);
                    proof {
                        lemma_voters_of_props(votes@, votes@[i as int].1@);
                    }
                    if signers.len() >= threshold {
                        let p = copy_u64s(payload);
                        proof {
                            assert(first_certified_yes(votes@, d, threshold as nat, i as int));
                        }
                        return Some(p);
                    }
                }
            },
            RoundVote::No => {},
        }
        i = i + 1;
    }
    None
}

/// The distinct digests that at least `threshold` votes say yes to, ascending.
pub fn strong_digests(votes: &IdMap<RoundVote>, threshold: usize) -> (r: Vec<Digest>)
    requires
        threshold >= 1,
    ensures
        ascending(r@),
        forall|d: Digest| #[trigger] r@.contains(d) <==> digest_support(votes@, d) >= threshold,
{
    let mut all: Vec<u64> = Vec::new();
    let mut j: usize = 0;
    while j < votes.len()
        invariant
            j <= votes@.len(),
            forall|d: Digest| #[trigger] all@.contains(d) <==> exists|i: int|
                0 <= i < j && #[trigger] yes_digest(votes@[i].1) == Some(d),
        decreases votes@.len() - j,
    {
        let ghost before = all@;
        match votes.value_at(j) {
            RoundVote::Yes { digest, .. } => {
                all.push(*digest);
                proof {
                    assert forall|d: Digest| #[trigger] all@.contains(d) <==> exists|i: int|
                        0 <= i < j + 1 && #[trigger] yes_digest(votes@[i].1) == Some(d) by {
                        if all@.contains(d) {
                            let m = choose|m: int| 0 <= m < all@.len() && all@[m] == d;
                            if m < before.len() {
                                assert(before[m] == d);
                                assert(before.contains(d));
                            } else {
                                assert(yes_digest(votes@[j as int].1) == Some(d));
                            }
                        }
                        if exists|i: int| 0 <= i < j + 1 && #[trigger] yes_digest(votes@[i].1) == Some(d) {
                            let i = choose|i: int| 0 <= i < j + 1 && #[trigger] yes_digest(votes@[i].1) == Some(d);
                            if i < j {
                                assert(before.contains(d));
                                let m = choose|m: int| 0 <= m < before.len() && before[m] == d;
                                assert(all@[m] == d);
                            } else {
                                assert(all@[before.len() as int] == d);
                            }
                        }
                    }
                }
            },
            RoundVote::No => {
                proof {
                    assert forall|d: Digest| #[trigger] all@.contains(d) <==> exists|i: int|
                        0 <= i < j + 1 && #[trigger] yes_digest(votes@[i].1) == Some(d) by {
                        if exists|i: int| 0 <= i < j + 1 && #[trigger] yes_digest(votes@[i].1) == Some(d) {
                            let i = choose|i: int| 0 <= i < j + 1 && #[trigger] yes_digest(votes@[i].1) == Some(d);
                            assert(i != j);
                        }
                    }
                }
            },
        }
        j = j + 1;
    }
    let sorted = sort_ids(&all);
    proof {
        lemma_sort_by_key_props(all@.map_values(|x: u64| (x, ())));
    }
    let mut r: Vec<u64> = Vec::new();
    let mut k: usize = 0;
    while k < sorted.len()
        invariant
            k <= sorted@.len(),
            k == 0 ==> r@.len() == 0,
            sorted_by_key(sorted@.map_values(|x: u64| (x, ()))),
            forall|d: Digest| #[trigger] sorted@.contains(d) <==> all@.contains(d),
            ascending(r@),
            k > 0 && r@.len() > 0 ==> r@.last() <= sorted@[k - 1],
            forall|d: Digest| #[trigger] r@.contains(d) ==> digest_support(votes@, d) >= threshold,
            forall|m: int|
                0 <= m < k && digest_support(votes@, #[trigger] sorted@[m]) >= threshold ==> r@.contains(
                    sorted@[m],
                ),
        decreases sorted@.len() - k,
    {
        let d = sorted[k];
        let witnesses = witnesses_of(votes, d);
        proof {
            lemma_support_positive(votes@, d);
        }
        let ghost before = r@;
        if witnesses.len() >= threshold && !crate::types::contains_u64(&r, d) {
            proof {
                if before.len() > 0 {
                    assert(k > 0);
                    let m = sorted@.map_values(|x: u64| (x, ()));
                    assert(m[k - 1].0 <= m[k as int].0);
                }
            }
            r.push(d);
            proof {
                assert forall|a: int, b: int| 0 <= a < b < r@.len() implies r@[a] < r@[b] by {
                    if b == before.len() && a < b {
                        assert(before.contains(before[a]));
                        assert(r@[a] == before[a]);
                        assert(before[a] <= before.last());
                    }
                }
                assert forall|dd: Digest| #[trigger] r@.contains(dd) implies digest_support(votes@, dd) >= threshold by {
                    let m = choose|m: int| 0 <= m < r@.len() && r@[m] == dd;
                    if m < before.len() {
                        assert(before[m] == dd);
                        assert(before.contains(dd));
                    }
                }
                assert forall|m: int| 0 <= m < k + 1 && digest_support(votes@, #[trigger] sorted@[m]) >= threshold
                    implies r@.contains(sorted@[m]) by {
                    if m < k {
                        assert(before.contains(sorted@[m]));
                        let q = choose|q: int| 0 <= q < before.len() && before[q] == sorted@[m];
                        assert(r@[q] == sorted@[m]);
                    } else {
                        assert(r@[before.len() as int] == d);
                    }
                }
            }
        } else {
            proof {
                if k > 0 && r@.len() > 0 {
                    let m = sorted@.map_values(|x: u64| (x, ()));
                    assert(m[k - 1].0 <= m[k as int].0);
                }
            }
        }
        k = k + 1;
    }
    proof {
        assert forall|d: Digest| #[trigger] r@.contains(d) <==> digest_support(votes@, d) >= threshold by {
            if digest_support(votes@, d) >= threshold {
                lemma_support_positive(votes@, d);
                let i = choose|i: int| 0 <= i < votes@.len() && #[trigger] yes_digest(votes@[i].1) == Some(d);
                assert(all@.contains(d));
                assert(sorted@.contains(d));
                let m = choose|m: int| 0 <= m < sorted@.len() && sorted@[m] == d;
            }
        }
    }
    r
}


/// Whether `d` has at least `t` supporting votes in `s`.
pub open spec fn strong(s: Seq<(ValidatorId, RoundVote)>, d: Digest, t: nat) -> bool {
    digest_support(s, d) >= t
}

/// An equivocation proof read off the votes `s` on `proposer`: two different digests,
/// each with its complete list of yes-voters, each list at least `t` long.
pub open spec fn proof_genuine(
    p: EquivocationProof,
    s: Seq<(ValidatorId, RoundVote)>,
    slot: Slot,
    proposer: ProposerId,
    t: nat,
) -> bool {
    &&& p.slot == slot
    &&& p.proposer == proposer
    &&& p.digest_a < p.digest_b
    &&& p.witnesses_a@ == digest_witnesses(s, p.digest_a)
    &&& p.witnesses_b@ == digest_witnesses(s, p.digest_b)
    &&& p.witnesses_a@.len() >= t
    &&& p.witnesses_b@.len() >= t
}

/// The fallback vote on one proposer, given the round-1 votes `s` on it and the
/// threshold `t` (f+1). When several digests have `t` supporters: no, together with an
/// equivocation proof naming the two least. When exactly one has: the value (that digest
/// and a payload) that `t` voters cast, the earliest such; no if none does. When none
/// has: no.
pub open spec fn fallback_vote_spec(
    s: Seq<(ValidatorId, RoundVote)>,
    slot: Slot,
    proposer: ProposerId,
    t: nat,
    r: (RoundVote, Option<EquivocationProof>),
) -> bool {
    match r.1 {
        Some(p) => {
            &&& r.0@ is None
            &&& proof_genuine(p, s, slot, proposer, t)
            &&& forall|d: Digest|
                #[trigger] strong(s, d, t) ==> d == p.digest_a || d == p.digest_b || d > p.digest_b
        },
        None => match r.0@ {
            Some((d, payload)) => {
                &&& strong(s, d, t)
                &&& forall|d2: Digest| #[trigger] strong(s, d2, t) ==> d2 == d
                &&& exists|i: int| #[trigger] first_certified_yes(s, d, t, i) && s[i].1@ == Some((d, payload))
            },
            None => forall|d: Digest|
                #[trigger] strong(s, d, t) ==> (forall|d2: Digest| #[trigger] strong(s, d2, t) ==> d2 == d) && (forall|
                    i: int,
                |
                    0 <= i < s.len() && yes_digest(s[i].1) == Some(d) ==> !#[trigger] certified_at(s, i, t)),
        },
    }
}

/// Computes the fallback vote on `proposer` from the round-1 votes on it.
pub fn fallback_vote(votes: &IdMap<RoundVote>, slot: Slot, proposer: ProposerId, threshold: usize) -> (r: (
    RoundVote,
    Option<EquivocationProof>,
))
    requires
        threshold >= 1,
    ensures
        fallback_vote_spec(votes@, slot, proposer, threshold as nat, r),
{
    let strong_list = strong_digests(votes, threshold);
    proof {
        lemma_support_positive(votes@, 0);
    }
    if strong_list.len() >= 2 {
        let a = strong_list[0];
        let b = strong_list[1];
        let wa = witnesses_of(votes, a);
        let wb = witnesses_of(votes, b);
        proof {
            lemma_support_positive(votes@, a);
            lemma_support_positive(votes@, b);
            assert(strong_list@.contains(a));
            assert(strong_list@.contains(b));
            assert forall|d: Digest| #[trigger] strong(votes@, d, threshold as nat) implies d == a || d == b
                || d > b by {
                assert(strong_list@.contains(d));
                let k = choose|k: int| 0 <= k < strong_list@.len() && strong_list@[k] == d;
                if k >= 2 {
                    assert(strong_list@[1] < strong_list@[k]);
                }
            }
        }
        let proof_obj = EquivocationProof {
            slot,
            proposer,
            digest_a: a,
            witnesses_a: wa,
            digest_b: b,
            witnesses_b: wb,
        };
        (RoundVote::No, Some(proof_obj))
    } else if strong_list.len() == 1 {
        let d = strong_list[0];
        proof {
            assert(strong_list@.contains(d));
            assert forall|d2: Digest| #[trigger] strong(votes@, d2, threshold as nat) implies d2 == d by {
                assert(strong_list@.contains(d2));
            }
        }
        match certified_payload_of(votes, d, threshold) {
            Some(payload) => (RoundVote::Yes { digest: d, payload }, None),
            None => (RoundVote::No, None),
        }
    } else {
        proof {
            assert forall|d: Digest| !#[trigger] strong(votes@, d, threshold as nat) by {
                if strong(votes@, d, threshold as nat) {
                    assert(strong_list@.contains(d));
                }
            }
        }
        (RoundVote::No, None)
    }
}

/// The two witness groups of a genuine proof share no validator: each validator casts
/// one round-1 vote per proposer, which says yes to at most one digest.
pub proof fn law_equivocation_witnesses_are_disjoint(
    p: EquivocationProof,
    s: Seq<(ValidatorId, RoundVote)>,
    slot: Slot,
    proposer: ProposerId,
    t: nat,
    w: ValidatorId,
)
    requires
        keys_distinct(s),
        proof_genuine(p, s, slot, proposer, t),
    ensures
        !(p.witnesses_a@.contains(w) && p.witnesses_b@.contains(w)),
{
    lemma_witness_props(s, p.digest_a);
    lemma_witness_props(s, p.digest_b);
    if p.witnesses_a@.contains(w) && p.witnesses_b@.contains(w) {
        let i = choose|i: int| 0 <= i < s.len() && s[i].0 == w && yes_digest(s[i].1) == Some(p.digest_a);
        let j = choose|j: int| 0 <= j < s.len() && s[j].0 == w && yes_digest(s[j].1) == Some(p.digest_b);
        assert(i != j);
    }
}

// ---------------------------------------------------------------------------------------
// The fallback leader's decision rule
// ---------------------------------------------------------------------------------------

/// Lexicographic order on texts by character, a proper prefix coming first. On the
/// UTF-8 bytes of two strings it is the order `String` compares them by.
pub open spec fn text_lt(a: Seq<char>, b: Seq<char>) -> bool
    decreases a.len(),
{
    if a.len() == 0 {
        b.len() > 0
    } else if b.len() == 0 {
        false
    } else if a[0] == b[0] {
        text_lt(a.drop_first(), b.drop_first())
    } else {
        a[0] < b[0]
    }
}

proof fn lemma_text_lt_order(a: Seq<char>, b: Seq<char>, c: Seq<char>)
    ensures
        text_lt(a, b) ==> !text_lt(b, a),
        text_lt(a, b) && text_lt(b, c) ==> text_lt(a, c),
        !text_lt(a, a),
    decreases a.len(),
{
    if a.len() > 0 && b.len() > 0 {
        let c1 = if c.len() > 0 {
            c.drop_first()
        } else {
            c
        };
        lemma_text_lt_order(a.drop_first(), b.drop_first(), c1);
    }
    if a.len() > 0 {
        lemma_text_lt_order(a.drop_first(), a.drop_first(), a.drop_first());
    }
}

/// Whether text `a` comes before text `b`, character by character.
pub fn text_lt_exec(a: &String, b: &String) -> (r: bool)
    ensures
        r == text_lt(a@, b@),
{
    let sa = a.as_str();
    let sb = b.as_str();
    let la = sa.unicode_len();
    let lb = sb.unicode_len();
    let mut i: usize = 0;
    assert(a@.skip(0) =~= a@);
    assert(b@.skip(0) =~= b@);
    while i < la && i < lb
        invariant
            sa@ == a@,
            sb@ == b@,
            la == a@.len(),
            lb == b@.len(),
            i <= la,
            i <= lb,
            text_lt(a@, b@) == text_lt(a@.skip(i as int), b@.skip(i as int)),
        decreases la - i,
    {
        let x = sa.get_char(i);
        let y = sb.get_char(i);
        let ghost ta = a@.skip(i as int);
        let ghost tb = b@.skip(i as int);
        assert(ta[0] == x && tb[0] == y);
        if x != y {
            return x < y;
        }
        assert(ta.drop_first() =~= a@.skip(i as int + 1));
        assert(tb.drop_first() =~= b@.skip(i as int + 1));
        i = i + 1;
    }
    i < lb
}

/// The text `format!("{:?}", meta_block)` gives for a meta-block with view `v`: its
/// derived `Debug` form, a function of the value alone.
pub uninterp spec fn meta_block_debug(v: (Slot, Seq<(ProposerId, Entry)>)) -> Seq<char>;

/// Calls `format!("{:?}", meta_block)`; the text is named, not stated.
#[verifier::external_body]
fn meta_block_text(meta_block: &MetaBlock) -> (s: String)
    ensures
        s@ == meta_block_debug(meta_block@),
{
    format!("{:?}", meta_block)
}

/// How many votes are for the value at position `i`, counted over all of `s`.
pub open spec fn support_at<V: View>(s: Seq<(ValidatorId, V)>, i: int) -> nat {
    vote_count(s, s[i].1@)
}

/// `a` comes before `b` in the order the fallback leader breaks ties by: their `Debug`
/// texts, character by character.
pub open spec fn debug_lt(a: (Slot, Seq<(ProposerId, Entry)>), b: (Slot, Seq<(ProposerId, Entry)>)) -> bool {
    text_lt(meta_block_debug(a), meta_block_debug(b))
}

/// The fallback leader's decision: a proposal of greatest multiplicity, ties going to the
/// one whose `Debug` text is least.
pub open spec fn decision_spec(s: Seq<(ValidatorId, MetaBlock)>, r: MetaBlock) -> bool {
    exists|b: int|
        0 <= b < s.len() && r@ == #[trigger] s[b].1@ && forall|j: int|
            0 <= j < s.len() ==> support_at(s, j) <= support_at(s, b) && (support_at(s, j) == support_at(
                s,
                b,
            ) ==> !debug_lt(s[j].1@, s[b].1@))
}

proof fn lemma_two_counts(s: Seq<(ValidatorId, MetaBlock)>, v: (Slot, Seq<(ProposerId, Entry)>), w: (Slot, Seq<(ProposerId, Entry)>))
    requires
        v != w,
    ensures
        vote_count(s, v) + vote_count(s, w) <= s.len(),
        vote_count(s, v) > 0 ==> exists|j: int| 0 <= j < s.len() && #[trigger] s[j].1@ == v,
    decreases s.len(),
{
    if s.len() > 0 {
        lemma_two_counts(s.drop_last(), v, w);
        if vote_count(s.drop_last(), v) > 0 {
            let j = choose|j: int| 0 <= j < s.drop_last().len() && #[trigger] s.drop_last()[j].1@ == v;
            assert(s[j].1@ == v);
        }
        if s.last().1@ == v {
            assert(s[s.len() - 1].1@ == v);
        }
    }
}

/// A meta-block that more than half of the proposals carry is the fallback leader's
/// decision.
pub proof fn law_majority_decides(s: Seq<(ValidatorId, MetaBlock)>, r: MetaBlock, v: (Slot, Seq<(ProposerId, Entry)>))
    requires
        decision_spec(s, r),
        2 * vote_count(s, v) > s.len(),
    ensures
        r@ == v,
{
    let b = choose|b: int|
        0 <= b < s.len() && r@ == #[trigger] s[b].1@ && forall|j: int|
            0 <= j < s.len() ==> support_at(s, j) <= support_at(s, b) && (support_at(s, j) == support_at(
                s,
                b,
            ) ==> !debug_lt(s[j].1@, s[b].1@));
    if r@ != v {
        lemma_two_counts(s, v, r@);
        let j = choose|j: int| 0 <= j < s.len() && #[trigger] s[j].1@ == v;
        assert(support_at(s, j) <= support_at(s, b));
    }
}

pub fn pick_decision(proposals: &IdMap<MetaBlock>) -> (r: MetaBlock)
    requires
        proposals@.len() > 0,
    ensures
        decision_spec(proposals@, r),
{
    let first = collect_voters(proposals, 0);
    proof {
        use_type_invariant(proposals);
        lemma_voters_of_props(proposals@, proposals@[0].1@);
    }
    let mut best: usize = 0;
    let mut best_count: usize = first.len();
    let mut best_text = meta_block_text(proposals.value_at(0));
    proof {
        lemma_text_lt_order(best_text@, best_text@, best_text@);
    }
    let mut i: usize = 1;
    while i < proposals.len()
        invariant
            proposals.wf(),
            1 <= i <= proposals@.len(),
            best < i,
            best_count == support_at(proposals@, best as int),
            best_text@ == meta_block_debug(proposals@[best as int].1@),
            forall|j: int|
                0 <= j < i ==> support_at(proposals@, j) <= support_at(proposals@, best as int) && (
                support_at(proposals@, j) == support_at(proposals@, best as int) ==> !debug_lt(
                    proposals@[j].1@,
                    proposals@[best as int].1@,
                )),
        decreases proposals@.len() - i,
    {
        let voters = collect_voters(proposals, i);
        proof {
            lemma_voters_of_props(proposals@, proposals@[i as int].1@);
        }
        let c = voters.len();
        if c > best_count || c == best_count {
            let text = meta_block_text(proposals.value_at(i));
            let beats = c > best_count || text_lt_exec(&text, &best_text);
            if beats {
                proof {
                    let s = proposals@;
                    assert forall|j: int|
                        0 <= j < i + 1 implies support_at(s, j) <= support_at(s, i as int) && (support_at(s, j)
                        == support_at(s, i as int) ==> !debug_lt(s[j].1@, s[i as int].1@)) by {
                        lemma_text_lt_order(
                            meta_block_debug(s[j].1@),
                            meta_block_debug(s[i as int].1@),
                            meta_block_debug(s[best as int].1@),
                        );
                        lemma_text_lt_order(
                            meta_block_debug(s[i as int].1@),
                            meta_block_debug(s[i as int].1@),
                            meta_block_debug(s[i as int].1@),
                        );
                        lemma_text_lt_order(
                            meta_block_debug(s[i as int].1@),
                            meta_block_debug(s[best as int].1@),
                            meta_block_debug(s[i as int].1@),
                        );
                    }
                }
                best = i;
                best_count = c;
                best_text = text;
            }
        }
        i = i + 1;
    }
    proposals.value_at(best).duplicate()
}

/// The validators that cast a vote on any proposer.
pub open spec fn voter_union(s: Seq<(ProposerId, IdMap<RoundVote>)>) -> Set<ValidatorId> {
    Set::new(|v: ValidatorId| exists|p: int| 0 <= p < s.len() && has_key(#[trigger] s[p].1@, v))
}

/// How many distinct validators cast a round-1 vote on some proposer.
pub fn count_distinct_voters(votes: &IdMap<IdMap<RoundVote>>) -> (r: usize)
    ensures
        r == voter_union(votes@).len(),
{
    let mut seen: IdMap<()> = IdMap::new();
    let mut p: usize = 0;
    while p < votes.len()
        invariant
            p <= votes@.len(),
            forall|v: ValidatorId| #[trigger] has_key(seen@, v) <==> exists|q: int|
                0 <= q < p && has_key(#[trigger] votes@[q].1@, v),
        decreases votes@.len() - p,
    {
        let inner = votes.value_at(p);
        let mut j: usize = 0;
        while j < inner.len()
            invariant
                j <= inner@.len(),
                *inner == votes@[p as int].1,
                forall|v: ValidatorId| #[trigger] has_key(seen@, v) <==> (exists|q: int|
                    0 <= q < p && has_key(#[trigger] votes@[q].1@, v)) || exists|k: int|
                    0 <= k < j && #[trigger] inner@[k].0 == v,
            decreases inner@.len() - j,
        {
            let v = inner.key_at(j);
            let ghost before = seen@;
            proof {
                use_type_invariant(&seen);
                crate::idmap::lemma_store_props(before, v, ());
            }
            seen.insert(v, ());
            proof {
                assert forall|w: ValidatorId| #[trigger] has_key(seen@, w) <==> (exists|q: int|
                    0 <= q < p && has_key(#[trigger] votes@[q].1@, w)) || exists|k: int|
                    0 <= k < j + 1 && #[trigger] inner@[k].0 == w by {
                    if exists|k: int| 0 <= k < j + 1 && #[trigger] inner@[k].0 == w {
                        let k = choose|k: int| 0 <= k < j + 1 && #[trigger] inner@[k].0 == w;
                        if k < j {
                            assert(has_key(before, w));
                        }
                    }
                    if w == v {
                        assert(inner@[j as int].0 == w);
                    }
                }
            }
            j = j + 1;
        }
        proof {
            assert forall|v: ValidatorId| #[trigger] has_key(seen@, v) <==> exists|q: int|
                0 <= q < p + 1 && has_key(#[trigger] votes@[q].1@, v) by {
                if exists|k: int| 0 <= k < inner@.len() && #[trigger] inner@[k].0 == v {
                    let k = choose|k: int| 0 <= k < inner@.len() && #[trigger] inner@[k].0 == v;
                    assert(has_key(votes@[p as int].1@, v));
                }
                if has_key(votes@[p as int].1@, v) {
                    let k = choose|k: int| 0 <= k < inner@.len() && #[trigger] inner@[k].0 == v;
                }
                if exists|q: int| 0 <= q < p + 1 && has_key(#[trigger] votes@[q].1@, v) {
                    let q = choose|q: int| 0 <= q < p + 1 && has_key(#[trigger] votes@[q].1@, v);
                    if q == p {
                        let k = choose|k: int| 0 <= k < inner@.len() && #[trigger] inner@[k].0 == v;
                    }
                }
            }
        }
        p = p + 1;
    }
    let ghost keys = seen@.map_values(|e: (u64, ())| e.0);
    proof {
        use_type_invariant(&seen);
        assert(keys.no_duplicates()) by {
            assert forall|a: int, b: int| 0 <= a < keys.len() && 0 <= b < keys.len() && a != b implies keys[a]
                != keys[b] by {
                assert(seen@[a].0 != seen@[b].0);
            }
        }
        keys.unique_seq_to_set();
        assert forall|v: ValidatorId| #[trigger] keys.to_set().contains(v) <==> voter_union(votes@).contains(v) by {
            if keys.to_set().contains(v) {
                assert(keys.contains(v));
                let k = choose|k: int| 0 <= k < keys.len() && keys[k] == v;
                assert(seen@[k].0 == v);
                assert(has_key(seen@, v));
            }
            if voter_union(votes@).contains(v) {
                assert(has_key(seen@, v));
                let k = choose|k: int| 0 <= k < seen@.len() && #[trigger] seen@[k].0 == v;
                assert(keys[k] == v);
                assert(keys.contains(v));
            }
        }
        assert(keys.to_set() =~= voter_union(votes@));
    }
    seen.len()
}

} // verus!
