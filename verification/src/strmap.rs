//! A small map keyed by strings, iterated in ascending key order (the order
//! of a `BTreeMap<String, _>`), with distinct keys as its invariant.
use vstd::prelude::*;
use crate::text::{lemma_insert_sorted, lemma_seq_lt_order, seq_lt, str_eq, str_lt};

verus! {

/// The value of the first entry of `es` under `k`, if any.
pub open spec fn first_entry_value<T>(es: Seq<(String, T)>, k: Seq<char>) -> Option<T>
    decreases es.len(),
{
    if es.len() == 0 {
        None
    } else if es[0].0@ == k {
        Some(es[0].1)
    } else {
        first_entry_value(es.drop_first(), k)
    }
}

/// The first entry under `k` is the one at `i` when no earlier entry has
/// that key.
pub proof fn lemma_first_entry_value<T>(es: Seq<(String, T)>, k: Seq<char>, i: int)
    requires
        0 <= i < es.len(),
        es[i].0@ == k,
        forall|j: int| 0 <= j < i ==> es[j].0@ != k,
    ensures
        first_entry_value(es, k) == Some(es[i].1),
    decreases i,
{
    if i > 0 {
        lemma_first_entry_value(es.drop_first(), k, i - 1);
    }
}

/// No entry under `k`: no first value.
pub proof fn lemma_first_entry_none<T>(es: Seq<(String, T)>, k: Seq<char>)
    requires
        forall|j: int| 0 <= j < es.len() ==> es[j].0@ != k,
    ensures
        first_entry_value(es, k) is None,
    decreases es.len(),
{
    if es.len() > 0 {
        lemma_first_entry_none(es.drop_first(), k);
    }
}

#[derive(Debug, Clone, PartialEq, Eq)]
pub struct StrMap<T> {
    entries: Vec<(String, T)>,
}

impl<T> StrMap<T> {
    /// The entries in iteration order.
    pub closed spec fn spec_entries(&self) -> Seq<(String, T)> {
        self.entries@
    }

    /// The key views in iteration order.
    pub open spec fn keys_view(&self) -> Seq<Seq<char>> {
        self.spec_entries().map_values(|e: (String, T)| e.0@)
    }

    /// Keys are pairwise distinct.
    pub open spec fn wf(&self) -> bool {
        forall|i: int, j: int|
            0 <= i < j < self.spec_entries().len() ==> #[trigger] self.spec_entries()[i].0@
                != #[trigger] self.spec_entries()[j].0@
    }

    /// Keys in ascending order.
    pub open spec fn sorted(&self) -> bool {
        forall|i: int, j: int| 0 <= i < j < self.keys_view().len() ==> seq_lt(#[trigger] self.keys_view()[i], #[trigger] self.keys_view()[j])
    }

    /// Whether `k` is a key.
    pub open spec fn has(&self, k: Seq<char>) -> bool {
        exists|i: int| 0 <= i < self.spec_entries().len() && #[trigger] self.spec_entries()[i].0@ == k
    }

    /// The value under `k` (meaningful when `has(k)`).
    pub open spec fn value(&self, k: Seq<char>) -> T {
        let i = choose|i: int| 0 <= i < self.spec_entries().len() && #[trigger] self.spec_entries()[i].0@ == k;
        self.spec_entries()[i].1
    }

    /// The value under `k`, if any.
    pub open spec fn lookup(&self, k: Seq<char>) -> Option<T> {
        if self.has(k) { Some(self.value(k)) } else { None }
    }

    /// In a map with distinct keys, the value under the key of an entry is
    /// that entry's value.
    pub proof fn lemma_value_at(&self, i: int)
        requires
            self.wf(),
            0 <= i < self.spec_entries().len(),
        ensures
            self.has(self.spec_entries()[i].0@),
            self.value(self.spec_entries()[i].0@) == self.spec_entries()[i].1,
    {
        let k = self.spec_entries()[i].0@;
        assert(self.spec_entries()[i].0@ == k);
        let j = choose|j: int| 0 <= j < self.spec_entries().len() && #[trigger] self.spec_entries()[j].0@ == k;
        if j != i {
            if j < i {
                assert(self.spec_entries()[j].0@ != self.spec_entries()[i].0@);
            } else {
                assert(self.spec_entries()[i].0@ != self.spec_entries()[j].0@);
            }
        }
    }

    /// In a map with distinct keys, the first value under `k` is the value
    /// under `k`.
    pub proof fn lemma_first_value_lookup(&self, k: Seq<char>)
        requires
            self.wf(),
        ensures
            self.first_value(k) == self.lookup(k),
    {
        if self.has(k) {
            let i = choose|i: int| 0 <= i < self.spec_entries().len() && #[trigger] self.spec_entries()[i].0@ == k;
            self.lemma_value_at(i);
            assert forall|j: int| 0 <= j < i implies self.spec_entries()[j].0@ != k by {
                assert(self.spec_entries()[j].0@ != self.spec_entries()[i].0@);
            }
            lemma_first_entry_value(self.spec_entries(), k, i);
        } else {
            lemma_first_entry_none(self.spec_entries(), k);
        }
    }

    /// The value of the first entry under `k`, if any.
    pub open spec fn first_value(&self, k: Seq<char>) -> Option<T> {
        first_entry_value(self.spec_entries(), k)
    }

    pub fn new() -> (r: Self)
        ensures
            r.spec_entries().len() == 0,
            r.wf(),
            r.sorted(),
    {
        StrMap { entries: Vec::new() }
    }

    /// A copy with the same entries in the same order.
    pub fn copied(&self) -> (r: Self)
        where T: Copy,
        ensures
            r.spec_entries() == self.spec_entries(),
    {
        let mut out: Vec<(String, T)> = Vec::new();
        let mut i: usize = 0;
        while i < self.entries.len()
            invariant
                i <= self.entries@.len(),
                out@ == self.entries@.take(i as int),
            decreases self.entries@.len() - i,
        {
            let k = self.entries[i].0.clone();
            let v = self.entries[i].1;
            out.push((k, v));
            proof {
                assert(out@ =~= self.entries@.take(i + 1));
            }
            i = i + 1;
        }
        proof {
            assert(self.entries@.take(self.entries@.len() as int) =~= self.entries@);
        }
        StrMap { entries: out }
    }

    pub fn len(&self) -> (r: usize)
        ensures
            r == self.spec_entries().len(),
    {
        self.entries.len()
    }

    pub fn is_empty(&self) -> (r: bool)
        ensures
            r == (self.spec_entries().len() == 0),
    {
        self.entries.len() == 0
    }

    /// The entries in ascending key order.
    pub fn entries(&self) -> (r: &Vec<(String, T)>)
        ensures
            r@ == self.spec_entries(),
    {
        &self.entries
    }

    /// Position of `key`, if present.
    pub fn position(&self, key: &str) -> (r: Option<usize>)
        ensures
            match r {
                Some(i) => i < self.spec_entries().len() && self.spec_entries()[i as int].0@ == key@
                    && forall|k: int| 0 <= k < i ==> self.spec_entries()[k].0@ != key@,
                None => !self.has(key@),
            },
    {
        let mut i: usize = 0;
        while i < self.entries.len()
            invariant
                i <= self.spec_entries().len(),
                forall|k: int| 0 <= k < i ==> self.spec_entries()[k].0@ != key@,
            decreases self.spec_entries().len() - i,
        {
            if str_eq(self.entries[i].0.as_str(), key) {
                return Some(i);
            }
            i = i + 1;
        }
        None
    }

    pub fn contains_key(&self, key: &str) -> (r: bool)
        ensures
            r == self.has(key@),
    {
        self.position(key).is_some()
    }

    pub fn get(&self, key: &str) -> (r: Option<&T>)
        requires
            self.wf(),
        ensures
            match r {
                Some(v) => self.has(key@) && *v == self.value(key@),
                None => !self.has(key@),
            },
    {
        match self.position(key) {
            Some(i) => {
                proof {
                    let j = choose|j: int| 0 <= j < self.spec_entries().len() && #[trigger] self.spec_entries()[j].0@ == key@;
                    if j != i {
                        if j < i {
                            assert(self.spec_entries()[j].0@ != self.spec_entries()[i as int].0@);
                        } else {
                            assert(self.spec_entries()[i as int].0@ != self.spec_entries()[j].0@);
                        }
                    }
                }
                Some(&self.entries[i].1)
            },
            None => None,
        }
    }

    /// Inserts or replaces the value under `key`; new keys go to their sorted
    /// position.
    pub fn insert(&mut self, key: String, value: T)
        requires
            old(self).wf(),
        ensures
            final(self).wf(),
            final(self).has(key@),
            final(self).value(key@) == value,
            forall|k: Seq<char>| k != key@ ==> (final(self).has(k) == old(self).has(k)),
            forall|k: Seq<char>| k != key@ && old(self).has(k) ==> final(self).value(k) == old(self).value(k),
            old(self).sorted() ==> final(self).sorted(),
    {
        let ghost old_e = self.spec_entries();
        let ghost old_keys = old(self).keys_view();
        match self.position(key.as_str()) {
            Some(i) => {
                let ghost k0 = key@;
                self.entries.set(i, (key, value));
                proof {
                    let e = self.spec_entries();
                    assert(self.keys_view() =~= old_keys);
                    assert forall|a: int, b: int| 0 <= a < b < e.len() implies #[trigger] e[a].0@ != #[trigger] e[b].0@ by {
                        assert(old(self).spec_entries()[a].0@ != old_e[b].0@);
                    }
                    assert(e[i as int].0@ == k0);
                    assert forall|k: Seq<char>| k != k0 implies (self.has(k) == old(self).has(k)) by {
                        if self.has(k) {
                            let j = choose|j: int| 0 <= j < e.len() && #[trigger] e[j].0@ == k;
                            assert(old(self).spec_entries()[j].0@ == k);
                        }
                        if old(self).has(k) {
                            let j = choose|j: int| 0 <= j < old_e.len() && #[trigger] old(self).spec_entries()[j].0@ == k;
                            assert(e[j].0@ == k);
                        }
                    }
                    let jj = choose|j: int| 0 <= j < e.len() && #[trigger] e[j].0@ == k0;
                    if jj != i {
                        if jj < i {
                            assert(e[jj].0@ != e[i as int].0@);
                        } else {
                            assert(e[i as int].0@ != e[jj].0@);
                        }
                    }
                    assert forall|k: Seq<char>| k != k0 && old(self).has(k) implies self.value(k) == old(self).value(k) by {
                        let a = choose|j: int| 0 <= j < e.len() && #[trigger] e[j].0@ == k;
                        let b = choose|j: int| 0 <= j < old_e.len() && #[trigger] old(self).spec_entries()[j].0@ == k;
                        assert(e[b].0@ == k);
                        if a != b {
                            if a < b {
                                assert(e[a].0@ != e[b].0@);
                            } else {
                                assert(e[b].0@ != e[a].0@);
                            }
                        }
                    }
                }
            },
            None => {
                let mut at: usize = 0;
                while at < self.entries.len() && str_lt(self.entries[at].0.as_str(), key.as_str())
                    invariant
                        at <= self.entries@.len(),
                        self.entries@ == old_e,
                        forall|q: int| 0 <= q < at ==> seq_lt(#[trigger] old_keys[q], key@),
                        old_keys == old_e.map_values(|e: (String, T)| e.0@),
                    decreases self.entries@.len() - at,
                {
                    proof {
                        assert(old_keys[at as int] == old_e[at as int].0@);
                    }
                    at = at + 1;
                }
                let ghost k0 = key@;
                proof {
                    if at < old_e.len() {
                        assert(old_keys[at as int] == old_e[at as int].0@);
                        assert(old_keys[at as int] != k0);
                        lemma_seq_lt_order(old_keys[at as int], k0);
                    }
                    if old(self).sorted() {
                        lemma_insert_sorted(old_keys, k0, at as int);
                    }
                }
                self.entries.insert(at, (key, value));
                proof {
                    let e = self.spec_entries();
                    assert(self.keys_view() =~= old_keys.insert(at as int, k0));
                    assert(e[at as int].0@ == k0);
                    assert forall|j: int| 0 <= j < e.len() && j != at implies e[j] == (if j < at { old_e[j] } else { old_e[j - 1] }) by {}
                    assert forall|a: int, b: int| 0 <= a < b < e.len() implies #[trigger] e[a].0@ != #[trigger] e[b].0@ by {
                        if a == at {
                            assert(old(self).spec_entries()[b - 1].0@ != k0);
                        } else if b == at {
                            assert(old(self).spec_entries()[a].0@ != k0);
                        } else {
                            let oa = if a < at { a } else { a - 1 };
                            let ob = if b < at { b } else { b - 1 };
                            assert(old(self).spec_entries()[oa].0@ != old_e[ob].0@);
                        }
                    }
                    assert forall|k: Seq<char>| k != k0 implies (self.has(k) == old(self).has(k)) by {
                        if self.has(k) {
                            let j = choose|j: int| 0 <= j < e.len() && #[trigger] e[j].0@ == k;
                            let oj = if j < at { j } else { j - 1 };
                            assert(old(self).spec_entries()[oj].0@ == k);
                        }
                        if old(self).has(k) {
                            let j = choose|j: int| 0 <= j < old_e.len() && #[trigger] old(self).spec_entries()[j].0@ == k;
                            let nj = if j < at { j } else { j + 1 };
                            assert(e[nj].0@ == k);
                        }
                    }
                    let jj = choose|j: int| 0 <= j < e.len() && #[trigger] e[j].0@ == k0;
                    if jj != at {
                        let oj = if jj < at { jj } else { jj - 1 };
                        assert(old(self).spec_entries()[oj].0@ == k0);
                    }
                    assert forall|k: Seq<char>| k != k0 && old(self).has(k) implies self.value(k) == old(self).value(k) by {
                        let a = choose|j: int| 0 <= j < e.len() && #[trigger] e[j].0@ == k;
                        let b = choose|j: int| 0 <= j < old_e.len() && #[trigger] old(self).spec_entries()[j].0@ == k;
                        let nb = if b < at { b } else { b + 1 };
                        assert(e[nb].0@ == k);
                        if a != nb {
                            if a < nb {
                                assert(e[a].0@ != e[nb].0@);
                            } else {
                                assert(e[nb].0@ != e[a].0@);
                            }
                        }
                    }
                }
            },
        }
    }
}

} // verus!
