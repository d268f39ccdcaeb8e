//! A small map from identifiers to values that keeps insertion order, so that
//! iteration (and thus every decision taken in iteration order) is
//! deterministic.

use vstd::prelude::*;

verus! {

/// Value stored under `key` among the first `n` entries (the first one found).
pub open spec fn entry_upto<V>(s: Seq<(u128, V)>, key: u128, n: int) -> Option<V>
    decreases n,
{
    if n <= 0 {
        None
    } else {
        match entry_upto(s, key, n - 1) {
            Some(v) => Some(v),
            None => if s[n - 1].0 == key {
                Some(s[n - 1].1)
            } else {
                None
            },
        }
    }
}

/// Position of `key` among the first `n` entries (the first one found).
pub open spec fn key_index_upto<V>(s: Seq<(u128, V)>, key: u128, n: int) -> Option<int>
    decreases n,
{
    if n <= 0 {
        None
    } else {
        match key_index_upto(s, key, n - 1) {
            Some(i) => Some(i),
            None => if s[n - 1].0 == key {
                Some(n - 1)
            } else {
                None
            },
        }
    }
}

pub open spec fn key_index<V>(s: Seq<(u128, V)>, key: u128) -> Option<int> {
    key_index_upto(s, key, s.len() as int)
}

/// Keys are distinct.
pub open spec fn distinct_keys<V>(s: Seq<(u128, V)>) -> bool {
    forall|i: int, j: int| 0 <= i < s.len() && 0 <= j < s.len() && i != j ==> #[trigger] s[i].0 != #[trigger] s[j].0
}

pub proof fn lemma_key_index<V>(s: Seq<(u128, V)>, key: u128, n: int, n2: int)
    requires
        0 <= n <= n2 <= s.len(),
    ensures
        key_index_upto(s, key, n) matches Some(x) ==> 0 <= x < n && s[x].0 == key && key_index_upto(s, key, n2)
            == Some(x) && entry_upto(s, key, n2) == Some(s[x].1),
        key_index_upto(s, key, n) is None ==> entry_upto(s, key, n) is None && forall|i: int|
            0 <= i < n ==> #[trigger] s[i].0 != key,
    decreases n2,
{
    if n2 > n {
        lemma_key_index(s, key, n, n2 - 1);
    } else if n > 0 {
        lemma_key_index(s, key, n - 1, n - 1);
    }
}

/// The entry of `key`, once we know where it is.
pub proof fn lemma_entry_at<V>(s: Seq<(u128, V)>, key: u128, i: int)
    requires
        distinct_keys(s),
        0 <= i < s.len(),
        s[i].0 == key,
    ensures
        key_index(s, key) == Some(i),
        entry_upto(s, key, s.len() as int) == Some(s[i].1),
{
    if key_index(s, key) is None {
        lemma_key_index(s, key, s.len() as int, s.len() as int);
    }
    lemma_key_index(s, key, s.len() as int, s.len() as int);
}

/// The first `n` entries whose key is listed in `keep`.
pub open spec fn kept_entries<V>(s: Seq<(u128, V)>, keep: Seq<u128>, n: int) -> Seq<(u128, V)>
    decreases n,
{
    if n <= 0 {
        Seq::empty()
    } else if keep.contains(s[n - 1].0) {
        kept_entries(s, keep, n - 1).push(s[n - 1])
    } else {
        kept_entries(s, keep, n - 1)
    }
}

pub proof fn lemma_kept_entries<V>(s: Seq<(u128, V)>, keep: Seq<u128>, n: int)
    requires
        0 <= n <= s.len(),
    ensures
        forall|x: int|
            0 <= x < kept_entries(s, keep, n).len() ==> exists|i: int|
                0 <= i < n && s[i] == #[trigger] kept_entries(s, keep, n)[x],
    decreases n,
{
    if n > 0 {
        lemma_kept_entries(s, keep, n - 1);
        let prev = kept_entries(s, keep, n - 1);
        let all = kept_entries(s, keep, n);
        assert forall|x: int| 0 <= x < all.len() implies exists|i: int| 0 <= i < n && s[i] == #[trigger] all[x] by {
            if x < prev.len() {
                assert(all[x] == prev[x]);
                let i = choose|i: int| 0 <= i < n - 1 && s[i] == prev[x];
            } else {
                assert(all[x] == s[n - 1]);
            }
        }
    }
}

pub proof fn lemma_kept_distinct<V>(s: Seq<(u128, V)>, keep: Seq<u128>, n: int)
    requires
        0 <= n <= s.len(),
        distinct_keys(s),
    ensures
        distinct_keys(kept_entries(s, keep, n)),
    decreases n,
{
    if n > 0 {
        lemma_kept_distinct(s, keep, n - 1);
        lemma_kept_entries(s, keep, n - 1);
        let prev = kept_entries(s, keep, n - 1);
        let all = kept_entries(s, keep, n);
        if keep.contains(s[n - 1].0) {
            assert forall|a: int, b: int| 0 <= a < all.len() && 0 <= b < all.len() && a != b implies #[trigger] all[a].0
                != #[trigger] all[b].0 by {
                if a < prev.len() && b < prev.len() {
                    assert(all[a] == prev[a] && all[b] == prev[b]);
                } else if a < prev.len() {
                    let i = choose|i: int| 0 <= i < n - 1 && s[i] == prev[a];
                    assert(all[a] == prev[a]);
                } else {
                    let i = choose|i: int| 0 <= i < n - 1 && s[i] == prev[b];
                    assert(all[b] == prev[b]);
                }
            }
        }
    }
}

pub proof fn lemma_kept_lookup<V>(s: Seq<(u128, V)>, keep: Seq<u128>, k: u128, n: int)
    requires
        0 <= n <= s.len(),
    ensures
        entry_upto(kept_entries(s, keep, n), k, kept_entries(s, keep, n).len() as int) == if keep.contains(k) {
            entry_upto(s, k, n)
        } else {
            None
        },
    decreases n,
{
    if n > 0 {
        lemma_kept_lookup(s, keep, k, n - 1);
        let prev = kept_entries(s, keep, n - 1);
        if keep.contains(s[n - 1].0) {
            lemma_prefix_entry(prev, s[n - 1], k, prev.len() as int);
        }
    }
}

/// Identifiers mapped to values, in insertion order.
pub struct Registry<V> {
    entries: Vec<(u128, V)>,
}

impl<V: Copy> Registry<V> {
    pub closed spec fn view(&self) -> Seq<(u128, V)> {
        self.entries@
    }

    /// The value stored under `key`.
    pub open spec fn lookup(&self, key: u128) -> Option<V> {
        entry_upto(self.view(), key, self.view().len() as int)
    }

    pub open spec fn well_formed(&self) -> bool {
        distinct_keys(self.view())
    }

    /// Nothing stored.
    pub fn new() -> (r: Self)
        ensures
            r.view() == Seq::<(u128, V)>::empty(),
            r.well_formed(),
    {
        Registry { entries: Vec::new() }
    }

    /// Number of entries.
    pub fn len(&self) -> (r: usize)
        ensures
            r == self.view().len(),
    {
        self.entries.len()
    }

    /// Position of `key`.
    pub fn position(&self, key: u128) -> (r: Option<usize>)
        ensures
            r matches Some(i) ==> key_index(self.view(), key) == Some(i as int) && i < self.view().len()
                && self.view()[i as int].0 == key,
            r is None ==> key_index(self.view(), key) is None && self.lookup(key) is None,
    {
        let mut i: usize = 0;
        while i < self.entries.len()
            invariant
                i <= self.entries.len(),
                key_index_upto(self.view(), key, i as int) is None,
            decreases self.entries.len() - i,
        {
            if self.entries[i].0 == key {
                proof {
                    lemma_key_index(self.view(), key, i as int + 1, self.view().len() as int);
                }
                return Some(i);
            }
            i += 1;
        }
        proof {
            lemma_key_index(self.view(), key, i as int, i as int);
        }
        None
    }

    /// The value stored under `key`.
    pub fn get(&self, key: u128) -> (r: Option<V>)
        ensures
            r == self.lookup(key),
    {
        match self.position(key) {
            Some(i) => {
                proof {
                    lemma_key_index(self.view(), key, self.view().len() as int, self.view().len() as int);
                }
                Some(self.entries[i].1)
            },
            None => None,
        }
    }

    /// Whether something is stored under `key`.
    pub fn contains(&self, key: u128) -> (r: bool)
        ensures
            r == (self.lookup(key) is Some),
    {
        self.get(key).is_some()
    }

    /// The entry at position `i`.
    pub fn at(&self, i: usize) -> (r: (u128, V))
        requires
            i < self.view().len(),
        ensures
            r == self.view()[i as int],
    {
        self.entries[i]
    }

    /// Stores `value` under `key`: in place when the key is known, at the end otherwise.
    pub fn insert(&mut self, key: u128, value: V)
        requires
            old(self).well_formed(),
        ensures
            final(self).well_formed(),
            final(self).view() == match key_index(old(self).view(), key) {
                Some(i) => old(self).view().update(i, (key, value)),
                None => old(self).view().push((key, value)),
            },
            forall|k: u128| #[trigger] final(self).lookup(k) == if k == key {
                Some(value)
            } else {
                old(self).lookup(k)
            },
    {
        let ghost s0 = self.view();
        match self.position(key) {
            Some(i) => {
                self.entries.set(i, (key, value));
                let ghost s = self.view();
                assert(s == s0.update(i as int, (key, value)));
                assert forall|a: int, b: int|
                    0 <= a < s.len() && 0 <= b < s.len() && a != b implies #[trigger] s[a].0 != #[trigger] s[b].0 by {
                    assert(s[a].0 == s0[a].0);
                    assert(s[b].0 == s0[b].0);
                }
                assert forall|k: u128| #[trigger] entry_upto(s, k, s.len() as int) == if k == key {
                    Some(value)
                } else {
                    entry_upto(s0, k, s0.len() as int)
                } by {
                    if k == key {
                        lemma_entry_at(s, key, i as int);
                    } else {
                        lemma_key_index(s0, k, s0.len() as int, s0.len() as int);
                        lemma_key_index(s, k, s.len() as int, s.len() as int);
                        if let Some(x) = key_index(s0, k) {
                            assert(s[x].0 == k);
                            lemma_entry_at(s, k, x);
                        } else if let Some(x) = key_index(s, k) {
                            assert(s0[x].0 == k);
                        }
                    }
                }
            },
            None => {
                self.entries.push((key, value));
                let ghost s = self.view();
                assert(s == s0.push((key, value)));
                proof {
                    lemma_key_index(s0, key, s0.len() as int, s0.len() as int);
                }
                assert forall|a: int, b: int|
                    0 <= a < s.len() && 0 <= b < s.len() && a != b implies #[trigger] s[a].0 != #[trigger] s[b].0 by {
                    if a < s0.len() && b < s0.len() {
                        assert(s[a] == s0[a] && s[b] == s0[b]);
                    } else if a < s0.len() {
                        assert(s[a] == s0[a]);
                    } else {
                        assert(s[b] == s0[b]);
                    }
                }
                assert forall|k: u128| #[trigger] entry_upto(s, k, s.len() as int) == if k == key {
                    Some(value)
                } else {
                    entry_upto(s0, k, s0.len() as int)
                } by {
                    if k == key {
                        lemma_entry_at(s, key, s0.len() as int);
                    } else {
                        lemma_prefix_entry(s0, (key, value), k, s0.len() as int);
                        assert(s[s0.len() as int].0 != k);
                    }
                }
            },
        }
    }

    /// Forgets `key`.
    pub fn remove(&mut self, key: u128)
        requires
            old(self).well_formed(),
        ensures
            final(self).well_formed(),
            final(self).view() == match key_index(old(self).view(), key) {
                Some(i) => old(self).view().remove(i),
                None => old(self).view(),
            },
            forall|k: u128| #[trigger] final(self).lookup(k) == if k == key {
                None
            } else {
                old(self).lookup(k)
            },
    {
        let ghost s0 = self.view();
        match self.position(key) {
            Some(i) => {
                self.entries.remove(i);
                let ghost s = self.view();
                assert(s == s0.remove(i as int));
                assert forall|a: int, b: int|
                    0 <= a < s.len() && 0 <= b < s.len() && a != b implies #[trigger] s[a].0 != #[trigger] s[b].0 by {
                    let a0 = if a < i { a } else { a + 1 };
                    let b0 = if b < i { b } else { b + 1 };
                    assert(s[a] == s0[a0]);
                    assert(s[b] == s0[b0]);
                }
                assert forall|k: u128| #[trigger] entry_upto(s, k, s.len() as int) == if k == key {
                    None
                } else {
                    entry_upto(s0, k, s0.len() as int)
                } by {
                    lemma_key_index(s0, k, s0.len() as int, s0.len() as int);
                    lemma_key_index(s, k, s.len() as int, s.len() as int);
                    if k == key {
                        if let Some(x) = key_index(s, k) {
                            let x0 = if x < i { x } else { x + 1 };
                            assert(s[x] == s0[x0]);
                        }
                    } else if let Some(x) = key_index(s0, k) {
                        let y = if x < i { x } else { x - 1 };
                        assert(s[y] == s0[x]);
                        lemma_entry_at(s, k, y);
                    } else if let Some(x) = key_index(s, k) {
                        let x0 = if x < i { x } else { x + 1 };
                        assert(s[x] == s0[x0]);
                    }
                }
            },
            None => {
                assert forall|k: u128| #[trigger] entry_upto(s0, k, s0.len() as int) == if k == key {
                    None
                } else {
                    entry_upto(s0, k, s0.len() as int)
                } by {}
            },
        }
    }

    /// Keeps only the entries whose key is listed in `keep`, in order.
    pub fn retain(&mut self, keep: &Vec<u128>)
        requires
            old(self).well_formed(),
        ensures
            final(self).well_formed(),
            final(self).view() == kept_entries(old(self).view(), keep@, old(self).view().len() as int),
            forall|k: u128| #[trigger] final(self).lookup(k) == if keep@.contains(k) {
                old(self).lookup(k)
            } else {
                None
            },
    {
        let ghost s0 = self.view();
        let mut kept: Vec<(u128, V)> = Vec::new();
        let mut i: usize = 0;
        while i < self.entries.len()
            invariant
                i <= self.entries.len(),
                self.entries@ == s0,
                kept@ == kept_entries(s0, keep@, i as int),
            decreases self.entries.len() - i,
        {
            let e = self.entries[i];
            if crate::engagement::contains_id(keep, e.0) {
                kept.push(e);
            }
            i += 1;
        }
        self.entries = kept;
        proof {
            let s = self.view();
            lemma_kept_entries(s0, keep@, s0.len() as int);
            assert forall|a: int, b: int| 0 <= a < s.len() && 0 <= b < s.len() && a != b implies #[trigger] s[a].0
                != #[trigger] s[b].0 by {
                lemma_kept_distinct(s0, keep@, s0.len() as int);
            }
            assert forall|k: u128| #[trigger] entry_upto(s, k, s.len() as int) == if keep@.contains(k) {
                entry_upto(s0, k, s0.len() as int)
            } else {
                None
            } by {
                lemma_kept_lookup(s0, keep@, k, s0.len() as int);
            }
        }
    }

    /// The values, in order.
    pub fn values(&self) -> (r: Vec<V>)
        ensures
            r@ == self.view().map_values(|e: (u128, V)| e.1),
    {
        let mut r: Vec<V> = Vec::new();
        let mut i: usize = 0;
        while i < self.entries.len()
            invariant
                i <= self.entries.len(),
                r@ == self.view().take(i as int).map_values(|e: (u128, V)| e.1),
            decreases self.entries.len() - i,
        {
            r.push(self.entries[i].1);
            i += 1;
            assert(r@ =~= self.view().take(i as int).map_values(|e: (u128, V)| e.1));
        }
        assert(self.view().take(i as int) =~= self.view());
        r
    }
}

/// Appending an entry does not change what earlier keys map to.
pub proof fn lemma_prefix_entry<V>(s: Seq<(u128, V)>, e: (u128, V), key: u128, n: int)
    requires
        0 <= n <= s.len(),
    ensures
        entry_upto(s.push(e), key, n) == entry_upto(s, key, n),
    decreases n,
{
    if n > 0 {
        lemma_prefix_entry(s, e, key, n - 1);
        assert(s.push(e)[n - 1] == s[n - 1]);
    }
}

} // verus!
