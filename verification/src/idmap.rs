//! A small insertion-ordered map keyed by validator (or proposer) id. Each key occurs at
//! most once; iteration follows first-insertion order, which keeps every walk over the
//! votes deterministic.
//!
//! The tallies read their entries in order: the earliest vote whose value reaches a
//! quorum is the one certified, and the first fast vote held is the one proposed to the
//! fallback agreement. A `HashMap` walks its entries in an order its hasher seeds afresh
//! in every process, so with one the outcome of a run would depend on the process; here
//! it depends only on the order messages arrived in, and the contracts can state it.

use vstd::prelude::*;

verus! {

pub open spec fn keys_distinct<V>(s: Seq<(u64, V)>) -> bool {
    forall|i: int, j: int| 0 <= i < s.len() && 0 <= j < s.len() && i != j ==> s[i].0 != s[j].0
}

pub open spec fn has_key<V>(s: Seq<(u64, V)>, k: u64) -> bool {
    exists|i: int| 0 <= i < s.len() && #[trigger] s[i].0 == k
}

/// The position of key `k` (meaningful when `has_key(s, k)`).
pub open spec fn key_index<V>(s: Seq<(u64, V)>, k: u64) -> int {
    choose|i: int| 0 <= i < s.len() && #[trigger] s[i].0 == k
}

/// The value stored under `k`, if any.
pub open spec fn lookup<V>(s: Seq<(u64, V)>, k: u64) -> Option<V> {
    if has_key(s, k) {
        Some(s[key_index(s, k)].1)
    } else {
        None
    }
}

/// `s` after storing `v` under `k`: in place if `k` is present, appended otherwise.
pub open spec fn store<V>(s: Seq<(u64, V)>, k: u64, v: V) -> Seq<(u64, V)> {
    if has_key(s, k) {
        s.update(key_index(s, k), (k, v))
    } else {
        s.push((k, v))
    }
}

pub proof fn lemma_key_index_unique<V>(s: Seq<(u64, V)>, k: u64, i: int)
    requires
        keys_distinct(s),
        0 <= i < s.len(),
        s[i].0 == k,
    ensures
        has_key(s, k),
        key_index(s, k) == i,
{
    assert(has_key(s, k));
}

/// Storing under `k` leaves `k` present.
pub proof fn lemma_store_has_key<V>(s: Seq<(u64, V)>, k: u64, v: V)
    ensures
        has_key(store(s, k, v), k),
{
    let t = store(s, k, v);
    if has_key(s, k) {
        assert(t[key_index(s, k)].0 == k);
    } else {
        assert(t[s.len() as int].0 == k);
    }
}

pub proof fn lemma_store_props<V>(s: Seq<(u64, V)>, k: u64, v: V)
    requires
        keys_distinct(s),
    ensures
        keys_distinct(store(s, k, v)),
        lookup(store(s, k, v), k) == Some(v),
        forall|q: u64| q != k ==> #[trigger] lookup(store(s, k, v), q) == lookup(s, q),
        forall|q: u64| #[trigger] has_key(store(s, k, v), q) <==> (has_key(s, q) || q == k),
{
    let t = store(s, k, v);
    if has_key(s, k) {
        let i = key_index(s, k);
        assert(t.len() == s.len());
        assert(t[i].0 == k);
        lemma_key_index_unique(t, k, i);
        assert forall|q: u64| q != k implies #[trigger] lookup(t, q) == lookup(s, q) by {
            if has_key(s, q) {
                let j = key_index(s, q);
                assert(t[j] == s[j]);
                lemma_key_index_unique(t, q, j);
            }
            if has_key(t, q) {
                let j = key_index(t, q);
                assert(s[j] == t[j]);
            }
        }
        assert forall|q: u64| #[trigger] has_key(t, q) <==> (has_key(s, q) || q == k) by {
            if has_key(s, q) {
                let j = key_index(s, q);
                if j != i {
                    assert(t[j] == s[j]);
                }
            }
            if has_key(t, q) {
                let j = key_index(t, q);
                if j != i {
                    assert(s[j] == t[j]);
                }
            }
        }
    } else {
        let n = s.len() as int;
        assert(t[n].0 == k);
        lemma_key_index_unique(t, k, n);
        assert forall|q: u64| q != k implies #[trigger] lookup(t, q) == lookup(s, q) by {
            if has_key(s, q) {
                let j = key_index(s, q);
                assert(t[j] == s[j]);
                lemma_key_index_unique(t, q, j);
            }
            if has_key(t, q) {
                let j = key_index(t, q);
                assert(j < n);
                assert(s[j] == t[j]);
            }
        }
        assert forall|q: u64| #[trigger] has_key(t, q) <==> (has_key(s, q) || q == k) by {
            if has_key(s, q) {
                let j = key_index(s, q);
                assert(t[j] == s[j]);
            }
            if has_key(t, q) {
                let j = key_index(t, q);
                if j < n {
                    assert(s[j] == t[j]);
                }
            }
        }
    }
}

pub proof fn lemma_update_value_props<V>(s: Seq<(u64, V)>, i: int, v: V)
    requires
        keys_distinct(s),
        0 <= i < s.len(),
    ensures
        keys_distinct(s.update(i, (s[i].0, v))),
        lookup(s.update(i, (s[i].0, v)), s[i].0) == Some(v),
        forall|q: u64| q != s[i].0 ==> #[trigger] lookup(s.update(i, (s[i].0, v)), q) == lookup(s, q),
        forall|q: u64| #[trigger] has_key(s.update(i, (s[i].0, v)), q) <==> has_key(s, q),
{
    let t = s.update(i, (s[i].0, v));
    lemma_key_index_unique(t, s[i].0, i);
    assert forall|q: u64| q != s[i].0 implies #[trigger] lookup(t, q) == lookup(s, q) by {
        if has_key(s, q) {
            let j = key_index(s, q);
            assert(t[j] == s[j]);
            lemma_key_index_unique(t, q, j);
        }
        if has_key(t, q) {
            let j = key_index(t, q);
            assert(s[j] == t[j]);
        }
    }
    assert forall|q: u64| #[trigger] has_key(t, q) <==> has_key(s, q) by {
        if has_key(s, q) {
            let j = key_index(s, q);
            assert(t[j].0 == s[j].0);
        }
        if has_key(t, q) {
            let j = key_index(t, q);
            assert(s[j].0 == t[j].0);
        }
    }
}

/// Insertion-ordered map from ids to values; each key occurs once.
pub struct IdMap<V> {
    entries: Vec<(u64, V)>,
}

impl<V> View for IdMap<V> {
    type V = Seq<(u64, V)>;

    closed spec fn view(&self) -> Seq<(u64, V)> {
        self.entries@
    }
}

impl<V> IdMap<V> {
    /// Each key occurs once: every map satisfies this.
    #[verifier::type_invariant]
    pub open spec fn wf(&self) -> bool {
        keys_distinct(self@)
    }

    pub fn new() -> (m: Self)
        ensures
            m@ == Seq::<(u64, V)>::empty(),
            m.wf(),
    {
        IdMap { entries: Vec::new() }
    }

    pub fn len(&self) -> (n: usize)
        ensures
            n == self@.len(),
    {
        self.entries.len()
    }

    pub fn key_at(&self, i: usize) -> (k: u64)
        requires
            i < self@.len(),
        ensures
            k == self@[i as int].0,
    {
        self.entries[i].0
    }

    pub fn value_at(&self, i: usize) -> (v: &V)
        requires
            i < self@.len(),
        ensures
            *v == self@[i as int].1,
    {
        &self.entries[i].1
    }

    /// Exchanges the value at position `i` with `*v`.
    pub fn swap_value_at(&mut self, i: usize, v: &mut V)
        requires
            i < old(self)@.len(),
        ensures
            final(self)@ == old(self)@.update(i as int, (old(self)@[i as int].0, *old(v))),
            *final(v) == old(self)@[i as int].1,
    {
        proof {
            use_type_invariant(&*self);
        }
        let mut entries: Vec<(u64, V)> = Vec::new();
        std::mem::swap(&mut entries, &mut self.entries);
        std::mem::swap(&mut entries[i].1, v);
        proof {
            assert forall|a: int, b: int| 0 <= a < entries@.len() && 0 <= b < entries@.len() && a != b implies entries@[a].0 != entries@[b].0 by {
                assert(entries@[a].0 == old(self)@[a].0);
                assert(entries@[b].0 == old(self)@[b].0);
            }
        }
        self.entries = entries;
        assert(self@ =~= old(self)@.update(i as int, (old(self)@[i as int].0, *old(v))));
    }

    /// The position of `k`, if present.
    pub fn find(&self, k: u64) -> (r: Option<usize>)
        ensures
            match r {
                Some(i) => i < self@.len() && self@[i as int].0 == k && key_index(self@, k) == i,
                None => !has_key(self@, k),
            },
    {
        proof {
            use_type_invariant(self);
        }
        let mut i: usize = 0;
        while i < self.entries.len()
            invariant
                i <= self.entries@.len(),
                self.wf(),
                self@ == self.entries@,
                forall|j: int| 0 <= j < i ==> self.entries@[j].0 != k,
            decreases self.entries.len() - i,
        {
            if self.entries[i].0 == k {
                proof {
                    lemma_key_index_unique(self@, k, i as int);
                }
                return Some(i);
            }
            i = i + 1;
        }
        None
    }

    pub fn contains_key(&self, k: u64) -> (b: bool)
        ensures
            b == has_key(self@, k),
    {
        self.find(k).is_some()
    }

    pub fn get(&self, k: u64) -> (r: Option<&V>)
        ensures
            match r {
                Some(v) => lookup(self@, k) == Some(*v),
                None => lookup(self@, k) == None::<V>,
            },
    {
        match self.find(k) {
            Some(i) => Some(&self.entries[i].1),
            None => None,
        }
    }

    /// Stores `v` under `k`, replacing any earlier value.
    pub fn insert(&mut self, k: u64, v: V)
        ensures
            final(self)@ == store(old(self)@, k, v),
            final(self).wf(),
    {
        proof {
            use_type_invariant(&*self);
            lemma_store_props(self@, k, v);
        }
        let found = self.find(k);
        let mut entries: Vec<(u64, V)> = Vec::new();
        std::mem::swap(&mut entries, &mut self.entries);
        match found {
            Some(i) => {
                entries.set(i, (k, v));
            },
            None => {
                entries.push((k, v));
            },
        }
        self.entries = entries;
    }

    /// The position of `k`, after storing `default` under it if it was absent.
    pub fn index_or_insert(&mut self, k: u64, default: V) -> (i: usize)
        ensures
            final(self).wf(),
            has_key(old(self)@, k) ==> final(self)@ == old(self)@,
            !has_key(old(self)@, k) ==> final(self)@ == old(self)@.push((k, default)),
            i < final(self)@.len(),
            final(self)@[i as int].0 == k,
            key_index(final(self)@, k) == i,
    {
        proof {
            use_type_invariant(&*self);
        }
        match self.find(k) {
            Some(i) => i,
            None => {
                proof {
                    lemma_store_props(self@, k, default);
                }
                let mut entries: Vec<(u64, V)> = Vec::new();
                std::mem::swap(&mut entries, &mut self.entries);
                entries.push((k, default));
                self.entries = entries;
                let i = self.entries.len() - 1;
                proof {
                    lemma_key_index_unique(self@, k, i as int);
                }
                i
            },
        }
    }
}

} // verus!
