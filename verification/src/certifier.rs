//! Mock certification: a certificate is the set of validators whose votes back a value,
//! counted against a threshold. There is no real signing anywhere.

use crate::idmap::{keys_distinct, IdMap};
use crate::types::{sort_by_key, sort_pairs_by_key, sorted_by_key, lemma_sort_by_key_props, ValidatorId};
use vstd::prelude::*;

verus! {

/// A value that validators vote on: it can be compared and copied by its view.
pub trait VoteValue: View + Sized {
    fn same_value(&self, other: &Self) -> (r: bool)
        ensures
            r == (self@ == other@),
    ;

    fn duplicate(&self) -> (r: Self)
        ensures
            r@ == self@,
    ;
}

#[derive(Debug, Clone, PartialEq, Eq)]
pub struct Certificate<V> {
    pub value: V,
    pub signers: Vec<ValidatorId>,
}

/// How many of the votes in `s` are for `v`.
pub open spec fn vote_count<V: View>(s: Seq<(u64, V)>, v: V::V) -> nat
    decreases s.len(),
{
    if s.len() == 0 {
        0
    } else {
        vote_count(s.drop_last(), v) + if s.last().1@ == v {
            1nat
        } else {
            0nat
        }
    }
}

/// The voters of `v` in `s`, in vote order.
pub open spec fn voters_of<V: View>(s: Seq<(u64, V)>, v: V::V) -> Seq<u64>
    decreases s.len(),
{
    if s.len() == 0 {
        Seq::empty()
    } else if s.last().1@ == v {
        voters_of(s.drop_last(), v).push(s.last().0)
    } else {
        voters_of(s.drop_last(), v)
    }
}

/// Whether the vote at position `i` is for a value backed by at least `t` votes.
pub open spec fn certified_at<V: View>(s: Seq<(u64, V)>, i: int, t: nat) -> bool {
    vote_count(s, s[i].1@) >= t
}

/// Some vote in `s` is for a value backed by at least `t` votes.
pub open spec fn some_certified<V: View>(s: Seq<(u64, V)>, t: nat) -> bool {
    exists|i: int| 0 <= i < s.len() && #[trigger] certified_at(s, i, t)
}

/// `v` is the value of the earliest vote in `s` whose value is backed by at least `t` votes.
pub open spec fn first_certified<V: View>(s: Seq<(u64, V)>, t: nat, v: V::V) -> bool {
    exists|i: int|
        0 <= i < s.len() && #[trigger] certified_at(s, i, t) && s[i].1@ == v && forall|j: int|
            0 <= j < i ==> !certified_at(s, j, t)
}

pub open spec fn strictly_increasing(s: Seq<u64>) -> bool {
    forall|i: int, j: int| 0 <= i < j < s.len() ==> s[i] < s[j]
}

/// What `certify` returns for the votes `s` and threshold `t`: the value of the earliest
/// vote whose value reaches `t`, signed by exactly that value's voters in ascending order.
pub open spec fn certify_result<V: View>(s: Seq<(u64, V)>, t: nat, r: Option<Certificate<V>>) -> bool {
    match r {
        None => forall|i: int| 0 <= i < s.len() ==> !certified_at(s, i, t),
        Some(c) => exists|i: int|
            0 <= i < s.len() && #[trigger] certified_at(s, i, t) && c.value@ == s[i].1@ && (forall|
                j: int,
            |
                0 <= j < i ==> !certified_at(s, j, t)) && vote_count(s, c.value@) >= t
                && c.signers@.len() == vote_count(s, c.value@) && strictly_increasing(c.signers@)
                && (forall|k: u64|
                #[trigger] c.signers@.contains(k) <==> voters_of(s, c.value@).contains(k)),
    }
}

pub proof fn lemma_voters_of_props<V: View>(s: Seq<(u64, V)>, v: V::V)
    requires
        keys_distinct(s),
    ensures
        voters_of(s, v).len() == vote_count(s, v),
        forall|i: int, j: int|
            0 <= i < j < voters_of(s, v).len() ==> voters_of(s, v)[i] != voters_of(s, v)[j],
        forall|k: u64|
            #[trigger] voters_of(s, v).contains(k) <==> exists|i: int|
                0 <= i < s.len() && s[i].0 == k && s[i].1@ == v,
    decreases s.len(),
{
    if s.len() > 0 {
        let d = s.drop_last();
        lemma_voters_of_props(d, v);
        let w = voters_of(d, v);
        assert forall|k: u64|
            #[trigger] voters_of(s, v).contains(k) <==> exists|i: int|
                0 <= i < s.len() && s[i].0 == k && s[i].1@ == v by {
            if voters_of(s, v).contains(k) {
                let m = choose|m: int| 0 <= m < voters_of(s, v).len() && voters_of(s, v)[m] == k;
                if m < w.len() {
                    assert(w[m] == k);
                    assert(w.contains(k));
                    let i = choose|i: int| 0 <= i < d.len() && d[i].0 == k && d[i].1@ == v;
                    assert(s[i] == d[i]);
                } else {
                    assert(s[s.len() - 1].0 == k);
                }
            }
            if exists|i: int| 0 <= i < s.len() && s[i].0 == k && s[i].1@ == v {
                let i = choose|i: int| 0 <= i < s.len() && s[i].0 == k && s[i].1@ == v;
                if i < s.len() - 1 {
                    assert(d[i] == s[i]);
                    assert(w.contains(k));
                    let m = choose|m: int| 0 <= m < w.len() && w[m] == k;
                    if s.last().1@ == v {
                        assert(w.push(s.last().0)[m] == k);
                    }
                } else {
                    assert(w.push(s.last().0)[w.len() as int] == k);
                }
            }
        }
        if s.last().1@ == v {
            assert forall|i: int, j: int|
                0 <= i < j < voters_of(s, v).len() implies voters_of(s, v)[i] != voters_of(s, v)[j] by {
                if j == w.len() {
                    assert(w.contains(w[i]));
                    let m = choose|m: int| 0 <= m < d.len() && d[m].0 == w[i] && d[m].1@ == v;
                    assert(s[m].0 != s[s.len() - 1].0);
                }
            }
        }
    }
}

/// Two different values never share a vote: their counts add up to at most the number
/// of votes cast.
pub proof fn law_distinct_values_split_votes<V: View>(s: Seq<(u64, V)>, a: V::V, b: V::V)
    requires
        a != b,
    ensures
        vote_count(s, a) + vote_count(s, b) <= s.len(),
    decreases s.len(),
{
    if s.len() > 0 {
        law_distinct_values_split_votes(s.drop_last(), a, b);
    }
}

proof fn lemma_vote_count_remove<V: View>(s: Seq<(u64, V)>, i: int, v: V::V)
    requires
        0 <= i < s.len(),
    ensures
        vote_count(s, v) == vote_count(s.remove(i), v) + if s[i].1@ == v {
            1nat
        } else {
            0nat
        },
    decreases s.len(),
{
    if i < s.len() - 1 {
        lemma_vote_count_remove(s.drop_last(), i, v);
        assert(s.remove(i).drop_last() =~= s.drop_last().remove(i));
        assert(s.remove(i).last() == s.last());
    } else {
        assert(s.remove(i) =~= s.drop_last());
    }
}

proof fn lemma_vote_count_multiset<V: View>(s1: Seq<(u64, V)>, s2: Seq<(u64, V)>, v: V::V)
    requires
        s1.to_multiset() == s2.to_multiset(),
    ensures
        vote_count(s1, v) == vote_count(s2, v),
    decreases s1.len(),
{
    broadcast use vstd::seq_lib::group_to_multiset_ensures;

    vstd::seq_lib::to_multiset_len(s1);
    vstd::seq_lib::to_multiset_len(s2);
    if s1.len() > 0 {
        let x = s1.last();
        vstd::seq_lib::to_multiset_contains(s1, x);
        vstd::seq_lib::to_multiset_contains(s2, x);
        assert(s1.contains(x));
        let i = choose|i: int| 0 <= i < s2.len() && s2[i] == x;
        let r = s2.remove(i);
        assert(s1.drop_last().push(x) =~= s1);
        assert(s1.drop_last().to_multiset() =~= r.to_multiset()) by {
            broadcast use vstd::multiset::group_multiset_axioms;

            assert(s1.drop_last().push(x).to_multiset() == s1.drop_last().to_multiset().insert(x));
            assert(r.to_multiset() == s2.to_multiset().remove(x));
            assert(s1.drop_last().to_multiset().insert(x).remove(x) =~= s1.drop_last().to_multiset());
        }
        lemma_vote_count_multiset(s1.drop_last(), r, v);
        lemma_vote_count_remove(s2, i, v);
    }
}

proof fn lemma_vote_count_positive<V: View>(s: Seq<(u64, V)>, v: V::V)
    requires
        vote_count(s, v) > 0,
    ensures
        exists|i: int| 0 <= i < s.len() && #[trigger] s[i].1@ == v,
    decreases s.len(),
{
    if s.last().1@ == v {
        assert(s[s.len() - 1].1@ == v);
    } else {
        lemma_vote_count_positive(s.drop_last(), v);
        let i = choose|i: int| 0 <= i < s.drop_last().len() && #[trigger] s.drop_last()[i].1@ == v;
        assert(s[i].1@ == v);
    }
}

/// When more than half of the votes are needed, the certificate does not depend on the
/// order the votes came in: two tallies of the same votes certify the same value, or both
/// none.
pub proof fn law_certify_ignores_order<V: View>(
    s1: Seq<(u64, V)>,
    s2: Seq<(u64, V)>,
    t: nat,
    r1: Option<Certificate<V>>,
    r2: Option<Certificate<V>>,
)
    requires
        certify_result(s1, t, r1),
        certify_result(s2, t, r2),
        s1.to_multiset() == s2.to_multiset(),
        2 * t > s1.len(),
    ensures
        r1 is Some <==> r2 is Some,
        r1 is Some && r2 is Some ==> r1->0.value@ == r2->0.value@,
{
    match r1 {
        Some(c1) => {
            lemma_vote_count_multiset(s1, s2, c1.value@);
            lemma_vote_count_positive(s2, c1.value@);
            let j = choose|j: int| 0 <= j < s2.len() && #[trigger] s2[j].1@ == c1.value@;
            assert(certified_at(s2, j, t));
            match r2 {
                Some(c2) => {
                    lemma_vote_count_multiset(s1, s2, c2.value@);
                    if c1.value@ != c2.value@ {
                        law_distinct_values_split_votes(s1, c1.value@, c2.value@);
                    }
                },
                None => {},
            }
        },
        None => {
            match r2 {
                Some(c2) => {
                    lemma_vote_count_multiset(s1, s2, c2.value@);
                    lemma_vote_count_positive(s1, c2.value@);
                    let j = choose|j: int| 0 <= j < s1.len() && #[trigger] s1[j].1@ == c2.value@;
                    assert(certified_at(s1, j, t));
                },
                None => {},
            }
        },
    }
}

/// With at most 3f+1 votes, no two different values can each gather 2f+1 of them: a
/// 2f+1 certificate, when one exists, is for a single value.
pub proof fn law_quorum_certificate_is_unique<V: View>(s: Seq<(u64, V)>, f: nat, a: V::V, b: V::V)
    requires
        s.len() <= 3 * f + 1,
        vote_count(s, a) >= 2 * f + 1,
        vote_count(s, b) >= 2 * f + 1,
    ensures
        a == b,
{
    if a != b {
        law_distinct_values_split_votes(s, a, b);
    }
}

/// Any two sets of at least 2f+1 validators drawn from n = 3f+1 share at least f+1 of
/// them, so two quorums always overlap in at least one honest validator.
pub proof fn law_quorums_intersect(all: Set<u64>, q1: Set<u64>, q2: Set<u64>, f: nat)
    requires
        all.finite(),
        all.len() == 3 * f + 1,
        q1.subset_of(all),
        q2.subset_of(all),
        q1.len() >= 2 * f + 1,
        q2.len() >= 2 * f + 1,
    ensures
        q1.intersect(q2).len() >= f + 1,
{
    vstd::set_lib::lemma_len_subset(q1, all);
    vstd::set_lib::lemma_len_subset(q2, all);
    vstd::set_lib::lemma_len_subset(q1 + q2, all);
    vstd::set_lib::lemma_set_intersect_union_lens(q1, q2);
}

/// Two vote tallies that record every shared voter's vote alike (as when each validator
/// casts one vote and every recipient records that vote), over validators drawn from at
/// most 3f+1, cannot certify different values at 2f+1: the two quorums share a voter.
pub proof fn law_consistent_quorums_agree<V: View>(
    s1: Seq<(u64, V)>,
    s2: Seq<(u64, V)>,
    all: Set<u64>,
    f: nat,
    a: V::V,
    b: V::V,
)
    requires
        keys_distinct(s1),
        keys_distinct(s2),
        all.finite(),
        all.len() <= 3 * f + 1,
        forall|i: int| 0 <= i < s1.len() ==> all.contains(#[trigger] s1[i].0),
        forall|j: int| 0 <= j < s2.len() ==> all.contains(#[trigger] s2[j].0),
        forall|i: int, j: int|
            0 <= i < s1.len() && 0 <= j < s2.len() && #[trigger] s1[i].0 == #[trigger] s2[j].0 ==> s1[i].1@ == s2[j].1@,
        vote_count(s1, a) >= 2 * f + 1,
        vote_count(s2, b) >= 2 * f + 1,
    ensures
        a == b,
{
    lemma_voters_of_props(s1, a);
    lemma_voters_of_props(s2, b);
    let w1 = voters_of(s1, a);
    let w2 = voters_of(s2, b);
    assert(w1.no_duplicates());
    assert(w2.no_duplicates());
    w1.unique_seq_to_set();
    w2.unique_seq_to_set();
    let q1 = w1.to_set();
    let q2 = w2.to_set();
    assert(q1.subset_of(all)) by {
        assert forall|k: u64| q1.contains(k) implies all.contains(k) by {
            assert(w1.contains(k));
            let i = choose|i: int| 0 <= i < s1.len() && s1[i].0 == k && s1[i].1@ == a;
            assert(all.contains(s1[i].0));
        }
    }
    assert(q2.subset_of(all)) by {
        assert forall|k: u64| q2.contains(k) implies all.contains(k) by {
            assert(w2.contains(k));
            let j = choose|j: int| 0 <= j < s2.len() && s2[j].0 == k && s2[j].1@ == b;
            assert(all.contains(s2[j].0));
        }
    }
    vstd::set_lib::lemma_len_subset(q1 + q2, all);
    vstd::set_lib::lemma_set_intersect_union_lens(q1, q2);
    assert(q1.intersect(q2).len() > 0);
    let v = q1.intersect(q2).choose();
    assert(q1.intersect(q2).contains(v)) by {
        vstd::set::axiom_set_choose_len(q1.intersect(q2));
    }
    assert(w1.contains(v));
    assert(w2.contains(v));
    let i = choose|i: int| 0 <= i < s1.len() && s1[i].0 == v && s1[i].1@ == a;
    let j = choose|j: int| 0 <= j < s2.len() && s2[j].0 == v && s2[j].1@ == b;
    assert(s1[i].0 == s2[j].0);
}

/// The ids of `v` in ascending order.
pub open spec fn ascending_ids(v: Seq<u64>) -> Seq<u64> {
    sort_by_key(v.map_values(|x: u64| (x, ()))).map_values(|p: (u64, ())| p.0)
}

/// `v` sorted ascending.
pub fn sort_ids(v: &Vec<u64>) -> (r: Vec<u64>)
    ensures
        r@ == ascending_ids(v@),
        r@.len() == v@.len(),
        sorted_by_key(r@.map_values(|x: u64| (x, ()))),
        forall|k: u64| #[trigger] r@.contains(k) <==> v@.contains(k),
{
    let mut pairs: Vec<(u64, ())> = Vec::new();
    let mut i: usize = 0;
    while i < v.len()
        invariant
            i <= v.len(),
            pairs@ == v@.take(i as int).map_values(|x: u64| (x, ())),
        decreases v.len() - i,
    {
        pairs.push((v[i], ()));
        i = i + 1;
        assert(pairs@ =~= v@.take(i as int).map_values(|x: u64| (x, ())));
    }
    assert(v@.take(v.len() as int) =~= v@);
    let sorted = sort_pairs_by_key(&pairs);
    proof {
        lemma_sort_by_key_props(pairs@);
    }
    let mut r: Vec<u64> = Vec::new();
    let mut j: usize = 0;
    while j < sorted.len()
        invariant
            j <= sorted.len(),
            r@ == sorted@.take(j as int).map_values(|p: (u64, ())| p.0),
        decreases sorted.len() - j,
    {
        r.push(sorted[j].0);
        j = j + 1;
        assert(r@ =~= sorted@.take(j as int).map_values(|p: (u64, ())| p.0));
    }
    assert(sorted@.take(sorted.len() as int) =~= sorted@);
    assert(pairs@ =~= v@.map_values(|x: u64| (x, ())));
    assert forall|m: int| 0 <= m < sorted@.len() implies r@.map_values(|x: u64| (x, ()))[m]
        == sorted@[m] by {
        let p = sorted@[m];
        let u: () = p.1;
        assert(r@[m] == p.0);
        assert(p == (p.0, u));
    }
    assert(r@.map_values(|x: u64| (x, ())) =~= sorted@);
    assert forall|k: u64| #[trigger] r@.contains(k) <==> v@.contains(k) by {
        if r@.contains(k) {
            let m = choose|m: int| 0 <= m < r@.len() && r@[m] == k;
            assert(sorted@[m] == (k, ()));
            assert(sorted@.contains((k, ())));
            assert(pairs@.contains((k, ())));
            let n = choose|n: int| 0 <= n < pairs@.len() && pairs@[n] == (k, ());
            assert(v@[n] == k);
        }
        if v@.contains(k) {
            let n = choose|n: int| 0 <= n < v@.len() && v@[n] == k;
            assert(pairs@[n] == (k, ()));
            assert(pairs@.contains((k, ())));
            assert(sorted@.contains((k, ())));
            let m = choose|m: int| 0 <= m < sorted@.len() && sorted@[m] == (k, ());
            assert(r@[m] == k);
        }
    }
    r
}

/// The voters of the value at position `i`, and their number.
pub fn collect_voters<V: VoteValue>(votes: &IdMap<V>, i: usize) -> (r: Vec<u64>)
    requires
        i < votes@.len(),
    ensures
        r@ == voters_of(votes@, votes@[i as int].1@),
{
    let target = votes.value_at(i);
    let mut r: Vec<u64> = Vec::new();
    let mut j: usize = 0;
    while j < votes.len()
        invariant
            j <= votes@.len(),
            *target == votes@[i as int].1,
            r@ == voters_of(votes@.take(j as int), target@),
        decreases votes@.len() - j,
    {
        assert(votes@.take(j as int + 1).drop_last() =~= votes@.take(j as int));
        if votes.value_at(j).same_value(target) {
            r.push(votes.key_at(j));
        }
        j = j + 1;
    }
    assert(votes@.take(votes@.len() as int) =~= votes@);
    r
}

pub trait Certifier {
    spec fn spec_n(&self) -> nat;

    spec fn spec_f(&self) -> nat;

    fn n(&self) -> (r: usize)
        ensures
            r == self.spec_n(),
    ;

    fn f(&self) -> (r: usize)
        ensures
            r == self.spec_f(),
    ;

    /// 2f+1 (saturating at `usize::MAX`).
    fn quorum_2f_plus_1(&self) -> (q: usize)
        ensures
            q == if 2 * self.spec_f() + 1 <= usize::MAX {
                (2 * self.spec_f() + 1) as usize
            } else {
                usize::MAX
            },
    {
        let f = self.f();
        if f > (usize::MAX - 1) / 2 {
            usize::MAX
        } else {
            2 * f + 1
        }
    }

    /// f+1 (saturating at `usize::MAX`).
    fn quorum_f_plus_1(&self) -> (q: usize)
        ensures
            q == if self.spec_f() + 1 <= usize::MAX {
                (self.spec_f() + 1) as usize
            } else {
                usize::MAX
            },
    {
        let f = self.f();
        if f == usize::MAX {
            usize::MAX
        } else {
            f + 1
        }
    }

    /// Looks for a value with at least `threshold` distinct signers among `votes`. Votes
    /// are scanned in order, and the first value that reaches the threshold is certified.
    fn certify<V: VoteValue>(&self, votes: &IdMap<V>, threshold: usize) -> (r: Option<Certificate<V>>)
        ensures
            certify_result(votes@, threshold as nat, r),
    {
        proof {
            use_type_invariant(votes);
        }
        let mut i: usize = 0;
        while i < votes.len()
            invariant
                votes.wf(),
                i <= votes@.len(),
                forall|j: int| 0 <= j < i ==> !certified_at(votes@, j, threshold as nat),
            decreases votes@.len() - i,
        {
            let signers = collect_voters(votes, i);
            proof {
                lemma_voters_of_props(votes@, votes@[i as int].1@);
            }
            if signers.len() >= threshold {
                let sorted = sort_ids(&signers);
                let value = votes.value_at(i).duplicate();
                proof {
                    assert(certified_at(votes@, i as int, threshold as nat));
                    assert forall|a: int, b: int| 0 <= a < b < sorted@.len() implies sorted@[a]
                        < sorted@[b] by {
                        let m = sorted@.map_values(|x: u64| (x, ()));
                        assert(m[a].0 <= m[b].0);
                        assert(sorted@.contains(sorted@[a]));
                        assert(sorted@.contains(sorted@[b]));
                        // distinct: both come from the duplicate-free voter list
                        if sorted@[a] == sorted@[b] {
                            assert(sorted@.no_duplicates()) by {
                                sorted_distinct_from_source(signers@, sorted@);
                            }
                        }
                    }
                }
                let c = Certificate { value, signers: sorted };
                return Some(c);
            }
            i = i + 1;
        }
        None
    }
}

/// A reordering of a duplicate-free sequence with the same length and members is
/// duplicate-free.
proof fn sorted_distinct_from_source(src: Seq<u64>, out: Seq<u64>)
    requires
        src.no_duplicates(),
        out.len() == src.len(),
        forall|k: u64| #[trigger] out.contains(k) <==> src.contains(k),
    ensures
        out.no_duplicates(),
{
    src.unique_seq_to_set();
    assert(out.to_set() =~= src.to_set());
    if !out.no_duplicates() {
        out.lemma_no_dup_set_cardinality();
    }
}

/// The mock certifier: n validators tolerating f faults.
pub struct ThresholdCertifier {
    pub n: usize,
    pub f: usize,
}

impl Certifier for ThresholdCertifier {
    open spec fn spec_n(&self) -> nat {
        self.n as nat
    }

    open spec fn spec_f(&self) -> nat {
        self.f as nat
    }

    fn n(&self) -> (r: usize) {
        self.n
    }

    fn f(&self) -> (r: usize) {
        self.f
    }
}

} // verus!
