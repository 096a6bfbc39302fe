//! Core value types: proposals, per-proposer meta-block entries, meta-blocks and the merged
//! block a finalized slot yields, together with the deterministic ordering and merge rules.

use std::collections::hash_map::DefaultHasher;
use std::hash::{Hash, Hasher};
use vstd::prelude::*;
use vstd::std_specs::hash::DefaultHasherAdditionalSpecFns;

verus! {

pub type ValidatorId = u64;

pub type ProposerId = ValidatorId;

pub type Slot = u64;

/// Stand-in for the Merkle root over a proposal: a deterministic hash of the payload.
pub type Digest = u64;

// ---------------------------------------------------------------------------------------
// Hashing
// ---------------------------------------------------------------------------------------

/// The byte strings that `<[u64] as Hash>::hash` writes into a hasher for `payload`.
pub uninterp spec fn slice_hash_writes(payload: Seq<u64>) -> Seq<Seq<u8>>;

/// Calls `<[u64] as std::hash::Hash>::hash` on a `DefaultHasher`.
/// Claimed: the call only appends to the hasher's write history, and what it appends is
/// determined by the payload alone (a length prefix followed by the elements' bytes, in
/// the machine's byte order; that byte order is fixed for any one build).
#[verifier::external_body]
fn hash_payload_into(payload: &[u64], state: &mut DefaultHasher)
    ensures
        final(state)@ == old(state)@ + slice_hash_writes(payload@),
{
    payload.hash(state)
}

/// The digest that `digest_of` computes for a payload.
pub open spec fn spec_digest(payload: Seq<u64>) -> Digest {
    DefaultHasher::spec_finish(slice_hash_writes(payload))
}

/// Deterministic hash of a payload: equal payloads always get equal digests.
pub fn digest_of(payload: &[u64]) -> (d: Digest)
    ensures
        d == spec_digest(payload@),
{
    let mut h = DefaultHasher::new();
    hash_payload_into(payload, &mut h);
    assert(h@ == Seq::<Seq<u8>>::empty() + slice_hash_writes(payload@));
    assert(Seq::<Seq<u8>>::empty() + slice_hash_writes(payload@) =~= slice_hash_writes(payload@));
    h.finish()
}

#[derive(Debug, Clone, PartialEq, Eq)]
pub struct Proposal {
    pub slot: Slot,
    pub proposer: ProposerId,
    pub payload: Vec<u64>,
}

impl Proposal {
    pub fn digest(&self) -> (d: Digest)
        ensures
            d == spec_digest(self.payload@),
    {
        digest_of(self.payload.as_slice())
    }
}

/// A fresh vector with the same contents.
pub fn copy_u64s(v: &Vec<u64>) -> (r: Vec<u64>)
    ensures
        r@ == v@,
{
    let mut r: Vec<u64> = Vec::new();
    let mut i: usize = 0;
    while i < v.len()
        invariant
            i <= v.len(),
            r@ == v@.take(i as int),
        decreases v.len() - i,
    {
        r.push(v[i]);
        i = i + 1;
        assert(r@ =~= v@.take(i as int));
    }
    assert(v@.take(v.len() as int) =~= v@);
    r
}

/// Element-wise equality of two vectors.
pub fn same_u64s(a: &Vec<u64>, b: &Vec<u64>) -> (r: bool)
    ensures
        r == (a@ == b@),
{
    if a.len() != b.len() {
        return false;
    }
    let mut i: usize = 0;
    while i < a.len()
        invariant
            i <= a.len(),
            a.len() == b.len(),
            forall|j: int| 0 <= j < i ==> a@[j] == b@[j],
        decreases a.len() - i,
    {
        if a[i] != b[i] {
            return false;
        }
        i = i + 1;
    }
    assert(a@ =~= b@);
    true
}

// ---------------------------------------------------------------------------------------
// Stable ordering by a u64 key
// ---------------------------------------------------------------------------------------

/// Inserts `x` after every trailing element whose key is larger than `x`'s key: the
/// insertion step of a stable insertion sort.
pub open spec fn insert_by_key<T>(s: Seq<(u64, T)>, x: (u64, T)) -> Seq<(u64, T)>
    decreases s.len(),
{
    if s.len() == 0 {
        seq![x]
    } else if s.last().0 <= x.0 {
        s.push(x)
    } else {
        insert_by_key(s.drop_last(), x).push(s.last())
    }
}

/// The stable sort of `s` by ascending key: elements with equal keys keep their order.
pub open spec fn sort_by_key<T>(s: Seq<(u64, T)>) -> Seq<(u64, T)>
    decreases s.len(),
{
    if s.len() == 0 {
        s
    } else {
        insert_by_key(sort_by_key(s.drop_last()), s.last())
    }
}

pub open spec fn sorted_by_key<T>(s: Seq<(u64, T)>) -> bool {
    forall|i: int, j: int| 0 <= i <= j < s.len() ==> s[i].0 <= s[j].0
}

/// `insert_by_key` is a splice at the position found by scanning back over larger keys.
pub proof fn lemma_insert_by_key_splice<T>(s: Seq<(u64, T)>, x: (u64, T), i: int)
    requires
        0 <= i <= s.len(),
        forall|j: int| i <= j < s.len() ==> s[j].0 > x.0,
        i > 0 ==> s[i - 1].0 <= x.0,
    ensures
        insert_by_key(s, x) == s.take(i).push(x) + s.skip(i),
    decreases s.len(),
{
    if s.len() == 0 {
        assert(s.take(i).push(x) + s.skip(i) =~= seq![x]);
    } else if s.last().0 <= x.0 {
        assert(i == s.len());
        assert(s.take(i).push(x) + s.skip(i) =~= s.push(x));
    } else {
        lemma_insert_by_key_splice(s.drop_last(), x, i);
        assert(s.drop_last().take(i) =~= s.take(i));
        assert(s.take(i).push(x) + s.skip(i) =~= (s.drop_last().take(i).push(x) + s.drop_last().skip(
            i,
        )).push(s.last()));
    }
}

pub proof fn lemma_insert_by_key_len_contains<T>(s: Seq<(u64, T)>, x: (u64, T))
    ensures
        insert_by_key(s, x).len() == s.len() + 1,
        forall|y: (u64, T)| #[trigger] insert_by_key(s, x).contains(y) <==> (s.contains(y) || y == x),
    decreases s.len(),
{
    if s.len() == 0 {
        assert forall|y: (u64, T)| insert_by_key(s, x).contains(y) <==> (s.contains(y) || y == x) by {
            if y == x {
                assert(insert_by_key(s, x)[0] == x);
            }
        }
    } else if s.last().0 <= x.0 {
        assert forall|y: (u64, T)| insert_by_key(s, x).contains(y) <==> (s.contains(y) || y == x) by {
            if s.contains(y) {
                let k = choose|k: int| 0 <= k < s.len() && s[k] == y;
                assert(s.push(x)[k] == y);
            }
            if y == x {
                assert(s.push(x)[s.len() as int] == y);
            }
            if s.push(x).contains(y) {
                let k = choose|k: int| 0 <= k < s.push(x).len() && s.push(x)[k] == y;
                if k < s.len() {
                    assert(s[k] == y);
                }
            }
        }
    } else {
        let d = s.drop_last();
        lemma_insert_by_key_len_contains(d, x);
        let r = insert_by_key(d, x);
        assert forall|y: (u64, T)| insert_by_key(s, x).contains(y) <==> (s.contains(y) || y == x) by {
            if s.contains(y) {
                let k = choose|k: int| 0 <= k < s.len() && s[k] == y;
                if k == s.len() - 1 {
                    assert(r.push(s.last())[r.len() as int] == y);
                } else {
                    assert(d[k] == y);
                    assert(d.contains(y));
                    assert(r.contains(y));
                    let m = choose|m: int| 0 <= m < r.len() && r[m] == y;
                    assert(r.push(s.last())[m] == y);
                }
            }
            if y == x {
                assert(d.contains(y) || y == x);
                assert(r.contains(y));
                let m = choose|m: int| 0 <= m < r.len() && r[m] == y;
                assert(r.push(s.last())[m] == y);
            }
            if r.push(s.last()).contains(y) {
                let k = choose|k: int| 0 <= k < r.push(s.last()).len() && r.push(s.last())[k] == y;
                if k == r.len() {
                    assert(s[s.len() - 1] == y);
                } else {
                    assert(r[k] == y);
                    assert(r.contains(y));
                    if y != x {
                        assert(d.contains(y));
                        let m = choose|m: int| 0 <= m < d.len() && d[m] == y;
                        assert(s[m] == y);
                    }
                }
            }
        }
    }
}

pub proof fn lemma_insert_by_key_sorted<T>(s: Seq<(u64, T)>, x: (u64, T))
    requires
        sorted_by_key(s),
    ensures
        sorted_by_key(insert_by_key(s, x)),
    decreases s.len(),
{
    lemma_insert_by_key_len_contains(s, x);
    if s.len() == 0 {
    } else if s.last().0 <= x.0 {
    } else {
        let d = s.drop_last();
        lemma_insert_by_key_sorted(d, x);
        lemma_insert_by_key_len_contains(d, x);
        let r = insert_by_key(d, x);
        assert forall|k: int| 0 <= k < r.len() implies r[k].0 <= s.last().0 by {
            let y = r[k];
            assert(r.contains(y));
            assert(d.contains(y) || y == x);
            if y != x {
                assert(d.contains(y));
                let m = choose|m: int| 0 <= m < d.len() && d[m] == y;
                assert(s[m] == d[m]);
                assert(s[m].0 <= s[s.len() - 1].0);
            }
        }
    }
}

pub proof fn lemma_sort_by_key_props<T>(s: Seq<(u64, T)>)
    ensures
        sort_by_key(s).len() == s.len(),
        sorted_by_key(sort_by_key(s)),
        forall|y: (u64, T)| #[trigger] sort_by_key(s).contains(y) <==> s.contains(y),
    decreases s.len(),
{
    if s.len() > 0 {
        let d = s.drop_last();
        lemma_sort_by_key_props(d);
        lemma_insert_by_key_len_contains(sort_by_key(d), s.last());
        lemma_insert_by_key_sorted(sort_by_key(d), s.last());
        assert forall|y: (u64, T)| sort_by_key(s).contains(y) <==> s.contains(y) by {
            if s.contains(y) {
                let k = choose|k: int| 0 <= k < s.len() && s[k] == y;
                if k < s.len() - 1 {
                    assert(d[k] == y);
                }
            }
            if d.contains(y) {
                let k = choose|k: int| 0 <= k < d.len() && d[k] == y;
                assert(s[k] == y);
            }
        }
    }
}

/// Sorting an already sorted sequence changes nothing.
pub proof fn lemma_sort_by_key_of_sorted<T>(s: Seq<(u64, T)>)
    requires
        sorted_by_key(s),
    ensures
        sort_by_key(s) == s,
    decreases s.len(),
{
    if s.len() > 0 {
        let d = s.drop_last();
        lemma_sort_by_key_of_sorted(d);
        if d.len() > 0 {
            assert(d.last().0 <= s.last().0);
        }
        assert(d.push(s.last()) =~= s);
    }
}

/// Sorting commutes with any map that keeps each element's key.
pub proof fn lemma_sort_by_key_map<A, B>(s: Seq<(u64, A)>, f: spec_fn((u64, A)) -> (u64, B))
    requires
        forall|e: (u64, A)| #[trigger] f(e).0 == e.0,
    ensures
        sort_by_key(s.map_values(f)) == sort_by_key(s).map_values(f),
    decreases s.len(),
{
    if s.len() > 0 {
        let d = s.drop_last();
        lemma_sort_by_key_map(d, f);
        assert(s.map_values(f).drop_last() =~= d.map_values(f));
        lemma_insert_by_key_map(sort_by_key(d), s.last(), f);
    }
}

proof fn lemma_insert_by_key_map<A, B>(
    s: Seq<(u64, A)>,
    x: (u64, A),
    f: spec_fn((u64, A)) -> (u64, B),
)
    requires
        forall|e: (u64, A)| #[trigger] f(e).0 == e.0,
    ensures
        insert_by_key(s.map_values(f), f(x)) == insert_by_key(s, x).map_values(f),
    decreases s.len(),
{
    if s.len() == 0 {
        assert(seq![f(x)] =~= seq![x].map_values(f));
    } else {
        assert(s.map_values(f).last() == f(s.last()));
        assert(f(s.last()).0 == s.last().0);
        assert(f(x).0 == x.0);
        if s.last().0 <= x.0 {
            assert(s.map_values(f).push(f(x)) =~= s.push(x).map_values(f));
        } else {
            lemma_insert_by_key_map(s.drop_last(), x, f);
            assert(s.map_values(f).drop_last() =~= s.drop_last().map_values(f));
            assert(insert_by_key(s.drop_last(), x).map_values(f).push(f(s.last())) =~= insert_by_key(
                s.drop_last(),
                x,
            ).push(s.last()).map_values(f));
        }
    }
}

/// Inserts `x` into `v` at the place `insert_by_key` puts it.
fn insert_by_key_exec<T: Copy>(v: &mut Vec<(u64, T)>, x: (u64, T))
    ensures
        final(v)@ == insert_by_key(old(v)@, x),
{
    let mut i = v.len();
    while i > 0 && v[i - 1].0 > x.0
        invariant
            i <= v.len(),
            v@ == old(v)@,
            forall|j: int| i <= j < v.len() ==> v@[j].0 > x.0,
        decreases i,
    {
        i = i - 1;
    }
    proof {
        lemma_insert_by_key_splice(v@, x, i as int);
    }
    v.insert(i, x);
    assert(v@ =~= old(v)@.take(i as int).push(x) + old(v)@.skip(i as int));
}

/// Stable sort by key (insertion sort).
pub fn sort_pairs_by_key<T: Copy>(v: &Vec<(u64, T)>) -> (r: Vec<(u64, T)>)
    ensures
        r@ == sort_by_key(v@),
{
    let mut r: Vec<(u64, T)> = Vec::new();
    let mut k: usize = 0;
    while k < v.len()
        invariant
            k <= v.len(),
            r@ == sort_by_key(v@.take(k as int)),
        decreases v.len() - k,
    {
        assert(v@.take(k as int + 1).drop_last() =~= v@.take(k as int));
        insert_by_key_exec(&mut r, v[k]);
        k = k + 1;
    }
    assert(v@.take(v.len() as int) =~= v@);
    r
}

// ---------------------------------------------------------------------------------------
// Meta-blocks
// ---------------------------------------------------------------------------------------

/// One entry per proposer in a meta-block: a certified digest, or bottom.
#[derive(Debug, Clone, Copy, PartialEq, Eq, Hash, Structural)]
pub enum Entry {
    Included(Digest),
    Excluded,
}

/// The object Chorus agrees on: one entry per proposer of the slot.
#[derive(Debug, Clone, PartialEq, Eq, Hash)]
pub struct MetaBlock {
    pub slot: Slot,
    pub entries: Vec<(ProposerId, Entry)>,
}

impl View for MetaBlock {
    type V = (Slot, Seq<(ProposerId, Entry)>);

    open spec fn view(&self) -> (Slot, Seq<(ProposerId, Entry)>) {
        (self.slot, self.entries@)
    }
}

impl MetaBlock {
    /// Canonical form: entries stably ordered by ascending proposer, so two meta-blocks
    /// with the same entries collected in different orders compare equal.
    pub fn canonical(self) -> (r: Self)
        ensures
            r.slot == self.slot,
            r.entries@ == sort_by_key(self.entries@),
    {
        let entries = sort_pairs_by_key(&self.entries);
        MetaBlock { slot: self.slot, entries }
    }

    /// A copy with the same view.
    pub fn duplicate(&self) -> (r: Self)
        ensures
            r@ == self@,
    {
        let mut entries: Vec<(ProposerId, Entry)> = Vec::new();
        let mut i: usize = 0;
        while i < self.entries.len()
            invariant
                i <= self.entries.len(),
                entries@ == self.entries@.take(i as int),
            decreases self.entries.len() - i,
        {
            entries.push(self.entries[i]);
            i = i + 1;
            assert(entries@ =~= self.entries@.take(i as int));
        }
        assert(self.entries@.take(self.entries.len() as int) =~= self.entries@);
        MetaBlock { slot: self.slot, entries }
    }

    /// Structural equality of two meta-blocks.
    pub fn same_as(&self, other: &MetaBlock) -> (r: bool)
        ensures
            r == (self@ == other@),
    {
        if self.slot != other.slot || self.entries.len() != other.entries.len() {
            assert(self.entries@.len() != other.entries@.len() ==> self.entries@ != other.entries@);
            return false;
        }
        let mut i: usize = 0;
        while i < self.entries.len()
            invariant
                i <= self.entries.len(),
                self.entries.len() == other.entries.len(),
                forall|j: int| 0 <= j < i ==> self.entries@[j] == other.entries@[j],
            decreases self.entries.len() - i,
        {
            let (p, e) = self.entries[i];
            let (q, g) = other.entries[i];
            if p != q || e != g {
                assert(self.entries@[i as int] != other.entries@[i as int]);
                return false;
            }
            i = i + 1;
        }
        assert(self.entries@ =~= other.entries@);
        true
    }
}

/// The merged block of a finalized slot: an ordered, deduplicated list of transactions.
#[derive(Debug, Clone, PartialEq, Eq)]
pub struct Block {
    pub slot: Slot,
    pub txs: Vec<u64>,
}

// ---------------------------------------------------------------------------------------
// The MCP merge rule
// ---------------------------------------------------------------------------------------

pub open spec fn opt_payload_view(p: Option<Vec<u64>>) -> Option<Seq<u64>> {
    match p {
        Some(v) => Some(v@),
        None => None,
    }
}

pub open spec fn recovered_view(r: Seq<(ProposerId, Option<Vec<u64>>)>) -> Seq<
    (ProposerId, Option<Seq<u64>>),
> {
    r.map_values(|e: (ProposerId, Option<Vec<u64>>)| (e.0, opt_payload_view(e.1)))
}

pub open spec fn payload_or_empty(p: Option<Seq<u64>>) -> Seq<u64> {
    match p {
        Some(s) => s,
        None => Seq::empty(),
    }
}

/// All included payloads concatenated in sequence order; excluded entries contribute nothing.
pub open spec fn concat_payloads(s: Seq<(ProposerId, Option<Seq<u64>>)>) -> Seq<u64>
    decreases s.len(),
{
    if s.len() == 0 {
        Seq::empty()
    } else {
        concat_payloads(s.drop_last()) + payload_or_empty(s.last().1)
    }
}

/// `s` with every repeated value removed, keeping its first occurrence.
pub open spec fn dedup_keep_first(s: Seq<u64>) -> Seq<u64>
    decreases s.len(),
{
    if s.len() == 0 {
        s
    } else {
        let d = dedup_keep_first(s.drop_last());
        if d.contains(s.last()) {
            d
        } else {
            d.push(s.last())
        }
    }
}

/// The transactions of the block merged from a slot's recovered proposals.
pub open spec fn merged_txs(recovered: Seq<(ProposerId, Option<Seq<u64>>)>) -> Seq<u64> {
    dedup_keep_first(concat_payloads(sort_by_key(recovered)))
}

spec fn pick_entry(
    rv: Seq<(ProposerId, Option<Seq<u64>>)>,
    e: (u64, usize),
) -> (ProposerId, Option<Seq<u64>>) {
    (e.0, rv[e.1 as int].1)
}

pub fn contains_u64(v: &Vec<u64>, x: u64) -> (r: bool)
    ensures
        r == v@.contains(x),
{
    let mut i: usize = 0;
    while i < v.len()
        invariant
            i <= v.len(),
            forall|j: int| 0 <= j < i ==> v@[j] != x,
        decreases v.len() - i,
    {
        if v[i] == x {
            assert(v@[i as int] == x);
            return true;
        }
        i = i + 1;
    }
    false
}

/// Merges a finalized meta-block's recovered proposals into the slot's block: included
/// proposals are concatenated in proposer order (stable for equal proposers), and
/// transactions are deduplicated keeping their first occurrence.
pub fn merge_block(slot: Slot, recovered: &[(ProposerId, Option<Vec<u64>>)]) -> (b: Block)
    ensures
        b.slot == slot,
        b.txs@ == merged_txs(recovered_view(recovered@)),
{
    let ghost rv = recovered_view(recovered@);
    let mut keys: Vec<(u64, usize)> = Vec::new();
    let mut i: usize = 0;
    while i < recovered.len()
        invariant
            i <= recovered.len(),
            keys@.len() == i,
            forall|j: int| 0 <= j < i ==> #[trigger] keys@[j] == (recovered@[j].0, j as usize),
        decreases recovered.len() - i,
    {
        keys.push((recovered[i].0, i));
        i = i + 1;
    }
    let order = sort_pairs_by_key(&keys);
    let ghost pick = |e: (u64, usize)| pick_entry(rv, e);
    proof {
        assert forall|e: (u64, usize)| #[trigger] pick(e).0 == e.0 by {}
        lemma_sort_by_key_map(keys@, pick);
        assert(keys@.map_values(pick) =~= rv);
        lemma_sort_by_key_props(keys@);
    }
    let ghost sorted = sort_by_key(rv);
    assert(sorted == order@.map_values(pick));
    assert forall|j: int| 0 <= j < order@.len() implies order@[j].1 < recovered@.len() by {
        let e = order@[j];
        assert(order@.contains(e));
        assert(keys@.contains(e));
        let m = choose|m: int| 0 <= m < keys@.len() && keys@[m] == e;
        assert(keys@[m] == (recovered@[m].0, m as usize));
    }
    let mut txs: Vec<u64> = Vec::new();
    let mut k: usize = 0;
    while k < order.len()
        invariant
            k <= order.len(),
            order@.len() == recovered@.len(),
            sorted == order@.map_values(pick),
            forall|e: (u64, usize)| #[trigger] pick(e) == pick_entry(rv, e),
            sorted.len() == order@.len(),
            forall|j: int| 0 <= j < order@.len() ==> order@[j].1 < recovered@.len(),
            rv == recovered_view(recovered@),
            txs@ == dedup_keep_first(concat_payloads(sorted.take(k as int))),
        decreases order.len() - k,
    {
        let idx = order[k].1;
        assert(sorted[k as int] == pick(order@[k as int]));
        assert(pick(order@[k as int]) == pick_entry(rv, order@[k as int]));
        assert(idx as int == order@[k as int].1 as int);
        let ghost before = concat_payloads(sorted.take(k as int));
        assert(sorted.take(k as int + 1).drop_last() =~= sorted.take(k as int));
        assert(sorted.take(k as int + 1).last() == sorted[k as int]);
        assert(sorted[k as int].1 == rv[idx as int].1);
        match &recovered[idx].1 {
            Some(payload) => {
                assert(rv[idx as int].1 == Some(payload@));
                let mut j: usize = 0;
                while j < payload.len()
                    invariant
                        j <= payload.len(),
                        txs@ == dedup_keep_first(before + payload@.take(j as int)),
                    decreases payload.len() - j,
                {
                    let tx = payload[j];
                    assert((before + payload@.take(j as int + 1)).drop_last() =~= before
                        + payload@.take(j as int));
                    assert((before + payload@.take(j as int + 1)).last() == tx);
                    if !contains_u64(&txs, tx) {
                        txs.push(tx);
                    }
                    j = j + 1;
                }
                assert(payload@.take(payload.len() as int) =~= payload@);
            },
            None => {
                assert(rv[idx as int].1 == None::<Seq<u64>>);
                assert(before + Seq::<u64>::empty() =~= before);
            },
        }
        k = k + 1;
    }
    assert(sorted.take(order.len() as int) =~= sorted);
    Block { slot, txs }
}


// ---------------------------------------------------------------------------------------
// Laws of the merge rule and of the canonical form
// ---------------------------------------------------------------------------------------

pub open spec fn no_duplicates(s: Seq<u64>) -> bool {
    forall|i: int, j: int| 0 <= i < j < s.len() ==> s[i] != s[j]
}

proof fn lemma_dedup_props(s: Seq<u64>)
    ensures
        no_duplicates(dedup_keep_first(s)),
        forall|x: u64| #[trigger] dedup_keep_first(s).contains(x) <==> s.contains(x),
    decreases s.len(),
{
    if s.len() > 0 {
        let d0 = s.drop_last();
        lemma_dedup_props(d0);
        let d = dedup_keep_first(d0);
        assert forall|x: u64| #[trigger] dedup_keep_first(s).contains(x) <==> s.contains(x) by {
            assert(d.contains(x) <==> d0.contains(x));
            if s.contains(x) {
                let k = choose|k: int| 0 <= k < s.len() && s[k] == x;
                if k < s.len() - 1 {
                    assert(d0[k] == x);
                    assert(d0.contains(x));
                }
            }
            if d0.contains(x) {
                let k = choose|k: int| 0 <= k < d0.len() && d0[k] == x;
                assert(s[k] == x);
            }
            if !d.contains(s.last()) {
                assert(d.push(s.last())[d.len() as int] == s.last());
                if d.push(s.last()).contains(x) {
                    let k = choose|k: int| 0 <= k < d.len() + 1 && d.push(s.last())[k] == x;
                    if k < d.len() {
                        assert(d[k] == x);
                    }
                }
                if d.contains(x) {
                    let k = choose|k: int| 0 <= k < d.len() && d[k] == x;
                    assert(d.push(s.last())[k] == x);
                }
            }
        }
    }
}

proof fn lemma_concat_payloads_contains(s: Seq<(ProposerId, Option<Seq<u64>>)>, tx: u64)
    ensures
        concat_payloads(s).contains(tx) <==> exists|i: int|
            0 <= i < s.len() && #[trigger] payload_or_empty(s[i].1).contains(tx),
    decreases s.len(),
{
    if s.len() > 0 {
        let d = s.drop_last();
        lemma_concat_payloads_contains(d, tx);
        let a = concat_payloads(d);
        let b = payload_or_empty(s.last().1);
        if (a + b).contains(tx) {
            let k = choose|k: int| 0 <= k < (a + b).len() && (a + b)[k] == tx;
            if k < a.len() {
                assert(a[k] == tx);
                assert(a.contains(tx));
                let i = choose|i: int| 0 <= i < d.len() && #[trigger] payload_or_empty(d[i].1).contains(tx);
                assert(s[i] == d[i]);
            } else {
                assert(b[k - a.len()] == tx);
                assert(payload_or_empty(s[s.len() - 1].1).contains(tx));
            }
        }
        if exists|i: int| 0 <= i < s.len() && #[trigger] payload_or_empty(s[i].1).contains(tx) {
            let i = choose|i: int| 0 <= i < s.len() && #[trigger] payload_or_empty(s[i].1).contains(tx);
            if i < s.len() - 1 {
                assert(d[i] == s[i]);
                assert(a.contains(tx));
                let k = choose|k: int| 0 <= k < a.len() && a[k] == tx;
                assert((a + b)[k] == tx);
            } else {
                assert(b.contains(tx));
                let k = choose|k: int| 0 <= k < b.len() && b[k] == tx;
                assert((a + b)[a.len() + k] == tx);
            }
        }
    }
}

/// A merged block never holds a transaction twice.
pub proof fn law_merged_block_has_no_duplicates(recovered: Seq<(ProposerId, Option<Seq<u64>>)>)
    ensures
        no_duplicates(merged_txs(recovered)),
{
    lemma_dedup_props(concat_payloads(sort_by_key(recovered)));
}

/// `x` first occurs in `s` at position `i`.
pub open spec fn first_at(s: Seq<u64>, x: u64, i: int) -> bool {
    &&& 0 <= i < s.len()
    &&& s[i] == x
    &&& forall|j: int| 0 <= j < i ==> s[j] != x
}

/// A value that occurs in a sequence has a first occurrence there.
pub proof fn lemma_first_at_exists(s: Seq<u64>, x: u64)
    requires
        s.contains(x),
    ensures
        exists|i: int| #[trigger] first_at(s, x, i),
    decreases s.len(),
{
    let d = s.drop_last();
    if d.contains(x) {
        lemma_first_at_exists(d, x);
        let i = choose|i: int| #[trigger] first_at(d, x, i);
        assert forall|j: int| 0 <= j < i implies s[j] != x by {
            assert(d[j] == s[j]);
        }
        assert(first_at(s, x, i));
    } else {
        let n = s.len() - 1;
        assert forall|j: int| 0 <= j < n implies s[j] != x by {
            assert(d[j] == s[j]);
        }
        let k = choose|k: int| 0 <= k < s.len() && s[k] == x;
        if k < n {
            assert(d[k] == x);
        }
        assert(first_at(s, x, n));
    }
}

/// Removing repeats keeps the first occurrences, in the order they occur.
proof fn lemma_dedup_first_order(s: Seq<u64>)
    ensures
        forall|a: int, b: int, i: int, j: int|
            #![trigger first_at(s, dedup_keep_first(s)[a], i), first_at(s, dedup_keep_first(s)[b], j)]
            0 <= a < b < dedup_keep_first(s).len() && first_at(s, dedup_keep_first(s)[a], i) && first_at(
                s,
                dedup_keep_first(s)[b],
                j,
            ) ==> i < j,
    decreases s.len(),
{
    if s.len() > 0 {
        let s0 = s.drop_last();
        let d0 = dedup_keep_first(s0);
        let d = dedup_keep_first(s);
        lemma_dedup_first_order(s0);
        lemma_dedup_props(s0);
        lemma_dedup_props(s);
        assert forall|a: int, b: int, i: int, j: int|
            #![trigger first_at(s, d[a], i), first_at(s, d[b], j)]
            0 <= a < b < d.len() && first_at(s, d[a], i) && first_at(s, d[b], j) implies i < j by {
            assert(d0.contains(d[a])) by {
                if d0.contains(s.last()) {
                    assert(d == d0);
                    assert(d0[a] == d[a]);
                } else {
                    assert(d == d0.push(s.last()));
                    assert(d0[a] == d[a]);
                }
            }
            assert(s0.contains(d[a]));
            let ia = choose|k: int| 0 <= k < s0.len() && s0[k] == d[a];
            assert(i <= ia) by {
                if ia < i {
                    assert(s[ia] == d[a]);
                }
            }
            assert(i < s0.len());
            assert(first_at(s0, d[a], i)) by {
                assert forall|q: int| 0 <= q < i implies s0[q] != d[a] by {
                    assert(s[q] == s0[q]);
                }
            }
            if j == s.len() - 1 {
            } else {
                assert(first_at(s0, d[b], j)) by {
                    assert forall|q: int| 0 <= q < j implies s0[q] != d[b] by {
                        assert(s[q] == s0[q]);
                    }
                }
                if d0.contains(s.last()) || b < d0.len() {
                    assert(b < d0.len());
                    assert(d[a] == d0[a]);
                    assert(d[b] == d0[b]);
                    assert(first_at(s0, d0[a], i) && first_at(s0, d0[b], j));
                } else {
                    assert(d[b] == s.last());
                    assert(s0[j] == s.last());
                    assert(s0.contains(s.last()));
                }
            }
        }
    }
}

/// The merged block lists transactions in the order of their first occurrence in the
/// included payloads concatenated in ascending proposer order (each payload in its own
/// order): every transaction of the block first occurs somewhere there, and of two
/// transactions of the block, the one that first occurs earlier comes first.
pub proof fn law_merge_keeps_first_occurrence_order(recovered: Seq<(ProposerId, Option<Seq<u64>>)>)
    ensures
        forall|a: int|
            0 <= a < merged_txs(recovered).len() ==> concat_payloads(sort_by_key(recovered)).contains(
                #[trigger] merged_txs(recovered)[a],
            ),
        forall|a: int, b: int, i: int, j: int|
            #![trigger first_at(concat_payloads(sort_by_key(recovered)), merged_txs(recovered)[a], i), first_at(concat_payloads(sort_by_key(recovered)), merged_txs(recovered)[b], j)]
            0 <= a < b < merged_txs(recovered).len() && first_at(
                concat_payloads(sort_by_key(recovered)),
                merged_txs(recovered)[a],
                i,
            ) && first_at(concat_payloads(sort_by_key(recovered)), merged_txs(recovered)[b], j) ==> i < j,
{
    let c = concat_payloads(sort_by_key(recovered));
    let m = merged_txs(recovered);
    assert(m == dedup_keep_first(c));
    lemma_dedup_first_order(c);
    lemma_dedup_props(c);
    assert forall|a: int| 0 <= a < m.len() implies c.contains(#[trigger] m[a]) by {
        assert(m.contains(m[a]));
    }
}

proof fn lemma_concat_payloads_append(
    a: Seq<(ProposerId, Option<Seq<u64>>)>,
    b: Seq<(ProposerId, Option<Seq<u64>>)>,
)
    ensures
        concat_payloads(a + b) == concat_payloads(a) + concat_payloads(b),
    decreases b.len(),
{
    if b.len() == 0 {
        assert(a + b =~= a);
        assert(concat_payloads(a) + concat_payloads(b) =~= concat_payloads(a));
    } else {
        lemma_concat_payloads_append(a, b.drop_last());
        assert((a + b).drop_last() =~= a + b.drop_last());
        assert((a + b).last() == b.last());
        assert(concat_payloads(a + b) =~= concat_payloads(a) + concat_payloads(b));
    }
}

proof fn lemma_concat_payloads_take_step(s: Seq<(ProposerId, Option<Seq<u64>>)>, k: int)
    requires
        0 <= k < s.len(),
    ensures
        concat_payloads(s.take(k + 1)) == concat_payloads(s.take(k)) + payload_or_empty(s[k].1),
{
    assert(s.take(k + 1).drop_last() =~= s.take(k));
    assert(s.take(k + 1).last() == s[k]);
}

/// Whatever segment an index of the concatenation falls in, later entries' segments start
/// no earlier than where entry `k1`'s ends.
proof fn lemma_concat_payloads_segments_ordered(s: Seq<(ProposerId, Option<Seq<u64>>)>, k1: int, k2: int)
    requires
        0 <= k1 < k2 <= s.len(),
    ensures
        concat_payloads(s.take(k1 + 1)).len() <= concat_payloads(s.take(k2)).len(),
{
    let t = s.take(k2);
    assert(t =~= t.take(k1 + 1) + t.skip(k1 + 1));
    assert(t.take(k1 + 1) =~= s.take(k1 + 1));
    lemma_concat_payloads_append(t.take(k1 + 1), t.skip(k1 + 1));
}

/// Each index of the concatenation falls in the segment of one entry: the value there is
/// that entry's payload at the index's offset from where the segment starts.
proof fn lemma_concat_payloads_locate(s: Seq<(ProposerId, Option<Seq<u64>>)>, q: int)
    requires
        0 <= q < concat_payloads(s).len(),
    ensures
        exists|k: int|
            0 <= k < s.len() && concat_payloads(s.take(k)).len() <= q && q - concat_payloads(s.take(k)).len()
                < #[trigger] payload_or_empty(s[k].1).len() && payload_or_empty(s[k].1)[q - concat_payloads(
                s.take(k),
            ).len()] == concat_payloads(s)[q],
    decreases s.len(),
{
    let d = s.drop_last();
    let cd = concat_payloads(d);
    let pl = payload_or_empty(s.last().1);
    assert(concat_payloads(s) == cd + pl);
    if q < cd.len() {
        lemma_concat_payloads_locate(d, q);
        let k = choose|k: int|
            0 <= k < d.len() && concat_payloads(d.take(k)).len() <= q && q - concat_payloads(d.take(k)).len()
                < #[trigger] payload_or_empty(d[k].1).len() && payload_or_empty(d[k].1)[q - concat_payloads(
                d.take(k),
            ).len()] == cd[q];
        assert(d.take(k) =~= s.take(k));
        assert(d[k] == s[k]);
        assert(concat_payloads(s)[q] == cd[q]);
        assert(payload_or_empty(s[k].1).len() == payload_or_empty(d[k].1).len());
    } else {
        let k = s.len() - 1;
        assert(s.take(k) =~= d);
        assert(concat_payloads(s)[q] == pl[q - cd.len()]);
        assert(payload_or_empty(s[k].1).len() == pl.len());
    }
}

/// Entry `k` of `s` puts its payload's element `u` at offset `u` of its segment, which ends
/// where entry `k + 1`'s begins.
proof fn lemma_concat_payloads_at(s: Seq<(ProposerId, Option<Seq<u64>>)>, k: int, u: int)
    requires
        0 <= k < s.len(),
        0 <= u < payload_or_empty(s[k].1).len(),
    ensures
        concat_payloads(s.take(k)).len() + u < concat_payloads(s.take(k + 1)).len(),
        concat_payloads(s.take(k)).len() + u < concat_payloads(s).len(),
        concat_payloads(s)[concat_payloads(s.take(k)).len() + u] == payload_or_empty(s[k].1)[u],
{
    lemma_concat_payloads_take_step(s, k);
    assert(s =~= s.take(k + 1) + s.skip(k + 1));
    lemma_concat_payloads_append(s.take(k + 1), s.skip(k + 1));
}

/// Proposals are merged in ascending proposer order: a transaction that an included
/// proposer `recovered[i].0` proposed comes before any transaction that only proposers with
/// larger identifiers proposed.
pub proof fn law_merge_follows_proposer_order(
    recovered: Seq<(ProposerId, Option<Seq<u64>>)>,
    i: int,
    x: u64,
    y: u64,
)
    requires
        0 <= i < recovered.len(),
        payload_or_empty(recovered[i].1).contains(x),
        forall|j: int|
            0 <= j < recovered.len() && #[trigger] payload_or_empty(recovered[j].1).contains(y) ==> recovered[j].0
                > recovered[i].0,
    ensures
        merged_txs(recovered).contains(x),
        forall|a: int, b: int|
            0 <= a < merged_txs(recovered).len() && 0 <= b < merged_txs(recovered).len() && #[trigger] merged_txs(
                recovered,
            )[a] == x && #[trigger] merged_txs(recovered)[b] == y ==> a < b,
{
    let s = sort_by_key(recovered);
    let c = concat_payloads(s);
    let m = merged_txs(recovered);
    lemma_sort_by_key_props(recovered);
    lemma_dedup_props(c);
    lemma_dedup_first_order(c);
    // Where entry `i` went in the sorted order, and where `x` lies in its segment.
    assert(s.contains(recovered[i]));
    let k1 = choose|k: int| 0 <= k < s.len() && s[k] == recovered[i];
    let pay = payload_or_empty(s[k1].1);
    let t = choose|t: int| 0 <= t < pay.len() && pay[t] == x;
    let start = concat_payloads(s.take(k1)).len();
    lemma_concat_payloads_at(s, k1, t);
    assert(c.contains(x));
    assert(m.contains(x));
    lemma_first_at_exists(c, x);
    let ix = choose|ix: int| first_at(c, x, ix);
    assert(ix <= start + t) by {
        if ix > start + t {
            assert(c[start + t] == x);
        }
    }
    assert forall|a: int, b: int|
        0 <= a < m.len() && 0 <= b < m.len() && #[trigger] m[a] == x && #[trigger] m[b] == y implies a < b by {
        assert(m.contains(y));
        assert(c.contains(y));
        lemma_first_at_exists(c, y);
        let iy = choose|iy: int| first_at(c, y, iy);
        lemma_concat_payloads_locate(s, iy);
        let k2 = choose|k: int|
            0 <= k < s.len() && concat_payloads(s.take(k)).len() <= iy && iy - concat_payloads(s.take(k)).len()
                < #[trigger] payload_or_empty(s[k].1).len() && payload_or_empty(s[k].1)[iy - concat_payloads(
                s.take(k),
            ).len()] == c[iy];
        assert(payload_or_empty(s[k2].1).contains(y));
        assert(s.contains(s[k2]));
        assert(recovered.contains(s[k2]));
        let j = choose|j: int| 0 <= j < recovered.len() && recovered[j] == s[k2];
        assert(payload_or_empty(recovered[j].1).contains(y));
        assert(s[k2].0 > s[k1].0);
        assert(k1 < k2);
        lemma_concat_payloads_segments_ordered(s, k1, k2);
        assert(ix < iy);
        if b < a {
            assert(first_at(c, dedup_keep_first(c)[b], iy) && first_at(c, dedup_keep_first(c)[a], ix));
        }
    }
}

/// Each proposal keeps its own order: of two transactions at positions `u < v` of an
/// included proposal, the earlier comes first in the merged block, provided the later one
/// does not occur earlier in that proposal, and every other proposal holding it comes from
/// a proposer with a larger identifier.
pub proof fn law_merge_keeps_proposal_order(
    recovered: Seq<(ProposerId, Option<Seq<u64>>)>,
    i: int,
    u: int,
    v: int,
)
    requires
        0 <= i < recovered.len(),
        0 <= u < v < payload_or_empty(recovered[i].1).len(),
        forall|w: int|
            0 <= w < v ==> #[trigger] payload_or_empty(recovered[i].1)[w] != payload_or_empty(recovered[i].1)[v],
        forall|j: int|
            0 <= j < recovered.len() && j != i && #[trigger] payload_or_empty(recovered[j].1).contains(
                payload_or_empty(recovered[i].1)[v],
            ) ==> recovered[j].0 > recovered[i].0,
    ensures
        merged_txs(recovered).contains(payload_or_empty(recovered[i].1)[u]),
        merged_txs(recovered).contains(payload_or_empty(recovered[i].1)[v]),
        forall|a: int, b: int|
            0 <= a < merged_txs(recovered).len() && 0 <= b < merged_txs(recovered).len() && #[trigger] merged_txs(
                recovered,
            )[a] == payload_or_empty(recovered[i].1)[u] && #[trigger] merged_txs(recovered)[b] == payload_or_empty(
                recovered[i].1,
            )[v] ==> a < b,
{
    let s = sort_by_key(recovered);
    let c = concat_payloads(s);
    let m = merged_txs(recovered);
    let pi = payload_or_empty(recovered[i].1);
    let x = pi[u];
    let y = pi[v];
    lemma_sort_by_key_props(recovered);
    lemma_dedup_props(c);
    lemma_dedup_first_order(c);
    assert(s.contains(recovered[i]));
    let k0 = choose|k: int| 0 <= k < s.len() && s[k] == recovered[i];
    lemma_concat_payloads_at(s, k0, u);
    lemma_concat_payloads_at(s, k0, v);
    assert(c.contains(x));
    assert(c.contains(y));
    assert(m.contains(x));
    assert(m.contains(y));
    lemma_first_at_exists(c, y);
    let iy = choose|iy: int| first_at(c, y, iy);
    lemma_concat_payloads_locate(s, iy);
    let k2 = choose|k: int|
        0 <= k < s.len() && concat_payloads(s.take(k)).len() <= iy && iy - concat_payloads(s.take(k)).len()
            < #[trigger] payload_or_empty(s[k].1).len() && payload_or_empty(s[k].1)[iy - concat_payloads(
            s.take(k),
        ).len()] == c[iy];
    let off = iy - concat_payloads(s.take(k2)).len();
    assert(payload_or_empty(s[k2].1).contains(y));
    assert(s.contains(s[k2]));
    assert(recovered.contains(s[k2]));
    let j = choose|j: int| 0 <= j < recovered.len() && recovered[j] == s[k2];
    assert(payload_or_empty(recovered[j].1).contains(y));
    // The segment holding the first `y` starts after `x` has appeared.
    let kx = if j == i { k2 } else { k0 };
    let sx = concat_payloads(s.take(kx)).len();
    assert(sx + u < iy) by {
        if j == i {
            assert(payload_or_empty(s[k2].1) == pi);
            lemma_concat_payloads_at(s, k2, u);
            assert(off >= v) by {
                if off < v {
                    assert(pi[off] == y);
                }
            }
        } else {
            assert(s[k2].0 > s[k0].0);
            assert(k0 < k2);
            lemma_concat_payloads_segments_ordered(s, k0, k2);
        }
    }
    lemma_concat_payloads_at(s, kx, u);
    lemma_first_at_exists(c, x);
    let ix = choose|ix: int| first_at(c, x, ix);
    assert(ix <= sx + u) by {
        if ix > sx + u {
            assert(c[sx + u] == x);
        }
    }
    assert forall|a: int, b: int|
        0 <= a < m.len() && 0 <= b < m.len() && #[trigger] m[a] == x && #[trigger] m[b] == y implies a < b by {
        if b <= a {
            if b == a {
                assert(x == y);
                assert(first_at(c, x, ix) && first_at(c, y, iy));
            } else {
                assert(first_at(c, dedup_keep_first(c)[b], iy) && first_at(c, dedup_keep_first(c)[a], ix));
            }
        }
    }
}

/// A transaction is in the merged block exactly when some recovered proposal holds it: no
/// included proposer's transaction is lost (so one correct proposer suffices to include a
/// transaction, whatever the others propose), and nothing else is added.
pub proof fn law_merged_block_is_union_of_proposals(
    recovered: Seq<(ProposerId, Option<Seq<u64>>)>,
    tx: u64,
)
    ensures
        merged_txs(recovered).contains(tx) <==> exists|i: int|
            0 <= i < recovered.len() && #[trigger] payload_or_empty(recovered[i].1).contains(tx),
{
    let sorted = sort_by_key(recovered);
    lemma_dedup_props(concat_payloads(sorted));
    lemma_concat_payloads_contains(sorted, tx);
    lemma_sort_by_key_props(recovered);
    if exists|i: int| 0 <= i < sorted.len() && #[trigger] payload_or_empty(sorted[i].1).contains(tx) {
        let i = choose|i: int| 0 <= i < sorted.len() && #[trigger] payload_or_empty(sorted[i].1).contains(tx);
        assert(sorted.contains(sorted[i]));
        assert(recovered.contains(sorted[i]));
        let j = choose|j: int| 0 <= j < recovered.len() && recovered[j] == sorted[i];
        assert(payload_or_empty(recovered[j].1).contains(tx));
    }
    if exists|i: int| 0 <= i < recovered.len() && #[trigger] payload_or_empty(recovered[i].1).contains(tx) {
        let i = choose|i: int| 0 <= i < recovered.len() && #[trigger] payload_or_empty(recovered[i].1).contains(tx);
        assert(recovered.contains(recovered[i]));
        assert(sorted.contains(recovered[i]));
        let j = choose|j: int| 0 <= j < sorted.len() && sorted[j] == recovered[i];
        assert(payload_or_empty(sorted[j].1).contains(tx));
    }
}

proof fn lemma_insert_by_key_multiset<T>(s: Seq<(u64, T)>, x: (u64, T))
    ensures
        insert_by_key(s, x).to_multiset() == s.to_multiset().insert(x),
    decreases s.len(),
{
    broadcast use vstd::seq_lib::group_to_multiset_ensures;

    if s.len() > 0 && s.last().0 > x.0 {
        lemma_insert_by_key_multiset(s.drop_last(), x);
        assert(s.drop_last().push(s.last()) =~= s);
    }
}

proof fn lemma_sort_by_key_multiset<T>(s: Seq<(u64, T)>)
    ensures
        sort_by_key(s).to_multiset() == s.to_multiset(),
    decreases s.len(),
{
    broadcast use vstd::seq_lib::group_to_multiset_ensures;

    if s.len() > 0 {
        lemma_sort_by_key_multiset(s.drop_last());
        lemma_insert_by_key_multiset(sort_by_key(s.drop_last()), s.last());
        assert(s.drop_last().push(s.last()) =~= s);
    }
}

/// Two sequences sorted by key, with the same elements counted with multiplicity, in
/// which elements with equal keys are equal, are the same sequence.
proof fn lemma_sorted_same_multiset_equal<T>(a: Seq<(u64, T)>, b: Seq<(u64, T)>)
    requires
        sorted_by_key(a),
        sorted_by_key(b),
        a.to_multiset() == b.to_multiset(),
        forall|x: (u64, T), y: (u64, T)| a.contains(x) && a.contains(y) && x.0 == y.0 ==> x == y,
    ensures
        a == b,
    decreases a.len(),
{
    broadcast use vstd::seq_lib::group_to_multiset_ensures;

    vstd::seq_lib::to_multiset_len(a);
    vstd::seq_lib::to_multiset_len(b);
    if a.len() == 0 {
        assert(b.len() == 0);
        assert(a =~= b);
    } else {
        assert(b.len() == a.len());
        let x = a.last();
        let y = b.last();
        assert(a.contains(x));
        assert(b.contains(y));
        vstd::seq_lib::to_multiset_contains(a, x);
        vstd::seq_lib::to_multiset_contains(b, x);
        vstd::seq_lib::to_multiset_contains(a, y);
        vstd::seq_lib::to_multiset_contains(b, y);
        assert(b.contains(x));
        assert(a.contains(y));
        let i = choose|i: int| 0 <= i < b.len() && b[i] == x;
        let j = choose|j: int| 0 <= j < a.len() && a[j] == y;
        assert(b[i].0 <= y.0);
        assert(a[j].0 <= x.0);
        assert(x == y);
        let a1 = a.drop_last();
        let b1 = b.drop_last();
        assert(a1.push(x) =~= a);
        assert(b1.push(x) =~= b);
        assert(a1.to_multiset() =~= b1.to_multiset()) by {
            broadcast use vstd::multiset::group_multiset_axioms;

            assert(a1.push(x).to_multiset() == a1.to_multiset().insert(x));
            assert(b1.push(x).to_multiset() == b1.to_multiset().insert(x));
            assert(a1.to_multiset().insert(x).remove(x) =~= a1.to_multiset());
            assert(b1.to_multiset().insert(x).remove(x) =~= b1.to_multiset());
        }
        assert forall|p: (u64, T), q: (u64, T)| a1.contains(p) && a1.contains(q) && p.0 == q.0 implies p == q by {
            let k1 = choose|k: int| 0 <= k < a1.len() && a1[k] == p;
            let k2 = choose|k: int| 0 <= k < a1.len() && a1[k] == q;
            assert(a1.len() == a.len() - 1);
            assert(a[k1] == p);
            assert(a[k2] == q);
            assert(a.contains(p));
            assert(a.contains(q));
        }
        lemma_sorted_same_multiset_equal(a1, b1);
    }
}

/// The canonical form depends only on which entries there are, not on the order they
/// came in, when each proposer has one entry.
pub proof fn law_canonical_ignores_order(a: Seq<(ProposerId, Entry)>, b: Seq<(ProposerId, Entry)>)
    requires
        a.to_multiset() == b.to_multiset(),
        forall|i: int, j: int| 0 <= i < j < a.len() ==> a[i].0 != a[j].0,
    ensures
        sort_by_key(a) == sort_by_key(b),
{
    broadcast use vstd::seq_lib::group_to_multiset_ensures;

    lemma_sort_by_key_props(a);
    lemma_sort_by_key_props(b);
    lemma_sort_by_key_multiset(a);
    lemma_sort_by_key_multiset(b);
    let sa = sort_by_key(a);
    assert forall|x: (ProposerId, Entry), y: (ProposerId, Entry)| sa.contains(x) && sa.contains(y) && x.0 == y.0 implies x
        == y by {
        assert(a.contains(x));
        assert(a.contains(y));
        let i = choose|i: int| 0 <= i < a.len() && a[i] == x;
        let j = choose|j: int| 0 <= j < a.len() && a[j] == y;
        if i < j {
            assert(a[i].0 != a[j].0);
        } else if j < i {
            assert(a[j].0 != a[i].0);
        }
    }
    lemma_sorted_same_multiset_equal(sa, sort_by_key(b));
}

/// The canonical form is ordered by proposer, holds exactly the given entries, and
/// taking it twice gives the same meta-block as taking it once.
pub proof fn law_canonical_is_sorted_and_idempotent(entries: Seq<(ProposerId, Entry)>)
    ensures
        sorted_by_key(sort_by_key(entries)),
        sort_by_key(entries).len() == entries.len(),
        forall|e: (ProposerId, Entry)| #[trigger] sort_by_key(entries).contains(e) <==> entries.contains(e),
        sort_by_key(sort_by_key(entries)) == sort_by_key(entries),
{
    lemma_sort_by_key_props(entries);
    lemma_sort_by_key_of_sorted(sort_by_key(entries));
}

} // verus!
