//! A table of values by key, with at most one entry per key.

use vstd::prelude::*;

verus! {

/// Keys that can be told apart at run time exactly as their views differ.
pub trait TableKey: View + Sized {
    /// Whether the two keys are the same key.
    fn same_key(&self, other: &Self) -> (b: bool)
        ensures
            b == (self@ == other@),
    ;
}

impl TableKey for String {
    fn same_key(&self, other: &Self) -> (b: bool) {
        *self == *other
    }
}

/// Values by key. Inserting under a key that is already present replaces its
/// value; each key occurs at most once.
pub struct KeyedTable<K, V> {
    entries: Vec<(K, V)>,
}

impl<K: TableKey, V> View for KeyedTable<K, V> {
    type V = Map<K::V, V>;

    /// The table as a map from keys to values.
    closed spec fn view(&self) -> Map<K::V, V> {
        Map::new(
            |k: K::V| exists|i: int| 0 <= i < self.entries@.len() && self.entries@[i].0@ == k,
            |k: K::V|
                self.entries@[choose|i: int| 0 <= i < self.entries@.len() && self.entries@[i].0@ == k].1,
        )
    }
}

impl<K: TableKey, V> KeyedTable<K, V> {
    /// The keys in table order.
    pub closed spec fn key_seq(&self) -> Seq<K::V> {
        self.entries@.map_values(|e: (K, V)| e.0@)
    }

    /// No key occurs twice.
    pub closed spec fn wf(&self) -> bool {
        forall|i: int, j: int|
            0 <= i < j < self.entries@.len() ==> #[trigger] self.entries@[i].0@
                != #[trigger] self.entries@[j].0@
    }

    /// The entries, each key with its value, in table order.
    closed spec fn entry_seq(&self) -> Seq<(K::V, V)> {
        self.entries@.map_values(|e: (K, V)| (e.0@, e.1))
    }

    proof fn lemma_view_at(&self, i: int)
        requires
            self.wf(),
            0 <= i < self.entries@.len(),
        ensures
            self.view().contains_key(self.entries@[i].0@),
            self.view()[self.entries@[i].0@] == self.entries@[i].1,
    {
        let k = self.entries@[i].0@;
        let j = choose|j: int| 0 <= j < self.entries@.len() && self.entries@[j].0@ == k;
        assert(0 <= j < self.entries@.len() && self.entries@[j].0@ == k);
        if j != i {
            if j < i {
                assert(self.entries@[j].0@ != self.entries@[i].0@);
            } else {
                assert(self.entries@[i].0@ != self.entries@[j].0@);
            }
        }
    }

    /// The entry sequence lists every entry of the map once.
    proof fn lemma_entry_seq(&self)
        requires
            self.wf(),
        ensures
            self.entry_seq().len() == self.view().dom().len(),
            self.view().dom().finite(),
            forall|i: int|
                0 <= i < self.entry_seq().len() ==> #[trigger] self.view().contains_key(
                    self.entry_seq()[i].0,
                ) && self.view()[self.entry_seq()[i].0] == self.entry_seq()[i].1,
            forall|k: K::V|
                #[trigger] self.view().contains_key(k) ==> exists|i: int|
                    0 <= i < self.entry_seq().len() && self.entry_seq()[i].0 == k,
            forall|i: int, j: int|
                0 <= i < j < self.entry_seq().len() ==> #[trigger] self.entry_seq()[i].0
                    != #[trigger] self.entry_seq()[j].0,
    {
        assert forall|i: int| 0 <= i < self.entry_seq().len() implies #[trigger] self.view().contains_key(
            self.entry_seq()[i].0,
        ) && self.view()[self.entry_seq()[i].0] == self.entry_seq()[i].1 by {
            self.lemma_view_at(i);
        }
        assert forall|i: int, j: int|
            0 <= i < j < self.entry_seq().len() implies #[trigger] self.entry_seq()[i].0
                != #[trigger] self.entry_seq()[j].0 by {
            assert(self.entries@[i].0@ != self.entries@[j].0@);
        }
        let ks = self.key_seq();
        assert(ks.no_duplicates()) by {
            assert forall|i: int, j: int|
                0 <= i < ks.len() && 0 <= j < ks.len() && i != j implies ks[i] != ks[j] by {
                if i < j {
                    assert(self.entries@[i].0@ != self.entries@[j].0@);
                } else {
                    assert(self.entries@[j].0@ != self.entries@[i].0@);
                }
            }
        }
        assert(ks.to_set() =~= self.view().dom()) by {
            assert forall|k: K::V| ks.to_set().contains(k) implies self.view().dom().contains(k) by {
                let i = choose|i: int| 0 <= i < ks.len() && ks[i] == k;
                assert(self.entries@[i].0@ == k);
            }
            assert forall|k: K::V| self.view().dom().contains(k) implies ks.to_set().contains(k) by {
                let i = choose|i: int| 0 <= i < self.entries@.len() && self.entries@[i].0@ == k;
                assert(ks[i] == k);
            }
        }
        ks.unique_seq_to_set();
        assert forall|k: K::V| #[trigger] self.view().contains_key(k) implies exists|i: int|
            0 <= i < self.entry_seq().len() && self.entry_seq()[i].0 == k by {
            let i = choose|i: int| 0 <= i < self.entries@.len() && self.entries@[i].0@ == k;
            assert(self.entry_seq()[i].0 == k);
        }
    }

    /// An empty table.
    pub fn new() -> (t: Self)
        ensures
            t.wf(),
            t.view() == Map::<K::V, V>::empty(),
    {
        let t = KeyedTable { entries: Vec::new() };
        assert(t.view() =~= Map::<K::V, V>::empty());
        t
    }

    /// The position of `key`, if it is present.
    fn find(&self, key: &K) -> (r: Option<usize>)
        requires
            self.wf(),
        ensures
            match r {
                Some(i) => i < self.entries@.len() && self.entries@[i as int].0@ == key@,
                None => !self.view().contains_key(key@),
            },
    {
        let mut i: usize = 0;
        while i < self.entries.len()
            invariant
                i <= self.entries@.len(),
                forall|j: int| 0 <= j < i ==> self.entries@[j].0@ != key@,
            decreases self.entries@.len() - i,
        {
            if self.entries[i].0.same_key(key) {
                return Some(i);
            }
            i = i + 1;
        }
        None
    }

    /// The value stored under `key`.
    pub fn get(&self, key: &K) -> (r: Option<&V>)
        requires
            self.wf(),
        ensures
            match r {
                Some(v) => self.view().contains_key(key@) && *v == self.view()[key@],
                None => !self.view().contains_key(key@),
            },
    {
        match self.find(key) {
            Some(i) => {
                proof {
                    self.lemma_view_at(i as int);
                }
                Some(&self.entries[i].1)
            },
            None => None,
        }
    }

    /// Stores `value` under `key`, replacing any earlier value.
    pub fn insert(&mut self, key: K, value: V)
        requires
            old(self).wf(),
        ensures
            final(self).wf(),
            final(self).view() == old(self).view().insert(key@, value),
    {
        let ghost k = key@;
        match self.find(&key) {
            Some(i) => {
                let ghost old_entries = self.entries@;
                self.entries.set(i, (key, value));
                proof {
                    assert forall|a: int, b: int|
                        0 <= a < b < self.entries@.len() implies #[trigger] self.entries@[a].0@
                            != #[trigger] self.entries@[b].0@ by {
                        assert(old_entries[a].0@ != old_entries[b].0@);
                    }
                    assert forall|x: K::V|
                        #[trigger] self.view().contains_key(x) == old(self).view().insert(
                            k,
                            value,
                        ).contains_key(x) by {
                        if old(self).view().contains_key(x) {
                            let j = choose|j: int|
                                0 <= j < old_entries.len() && old_entries[j].0@ == x;
                            assert(self.entries@[j].0@ == x);
                        }
                        if self.view().contains_key(x) {
                            let j = choose|j: int|
                                0 <= j < self.entries@.len() && self.entries@[j].0@ == x;
                            if j != i {
                                assert(old_entries[j].0@ == x);
                            }
                        }
                    }
                    assert forall|x: K::V| #[trigger]
                        self.view().contains_key(x) implies self.view()[x] == old(
                        self,
                    ).view().insert(k, value)[x] by {
                        let j = choose|j: int|
                            0 <= j < self.entries@.len() && self.entries@[j].0@ == x;
                        self.lemma_view_at(j);
                        if j != i {
                            old(self).lemma_view_at(j);
                        }
                    }
                    assert(self.view() =~= old(self).view().insert(k, value));
                }
            },
            None => {
                let ghost old_entries = self.entries@;
                self.entries.push((key, value));
                proof {
                    let n = old_entries.len() as int;
                    assert forall|a: int, b: int|
                        0 <= a < b < self.entries@.len() implies #[trigger] self.entries@[a].0@
                            != #[trigger] self.entries@[b].0@ by {
                        if b == n {
                            assert(old(self).view().contains_key(old_entries[a].0@)) by {
                                old(self).lemma_view_at(a);
                            }
                        } else {
                            assert(old_entries[a].0@ != old_entries[b].0@);
                        }
                    }
                    assert forall|x: K::V|
                        #[trigger] self.view().contains_key(x) == old(self).view().insert(
                            k,
                            value,
                        ).contains_key(x) by {
                        if old(self).view().contains_key(x) {
                            let j = choose|j: int|
                                0 <= j < old_entries.len() && old_entries[j].0@ == x;
                            assert(self.entries@[j].0@ == x);
                        }
                        if x == k {
                            assert(self.entries@[n].0@ == x);
                        }
                        if self.view().contains_key(x) {
                            let j = choose|j: int|
                                0 <= j < self.entries@.len() && self.entries@[j].0@ == x;
                            if j != n {
                                assert(old_entries[j].0@ == x);
                            }
                        }
                    }
                    assert forall|x: K::V| #[trigger]
                        self.view().contains_key(x) implies self.view()[x] == old(
                        self,
                    ).view().insert(k, value)[x] by {
                        let j = choose|j: int|
                            0 <= j < self.entries@.len() && self.entries@[j].0@ == x;
                        self.lemma_view_at(j);
                        if j != n {
                            old(self).lemma_view_at(j);
                        }
                    }
                    assert(self.view() =~= old(self).view().insert(k, value));
                }
            },
        }
    }

    /// Removes the entry under `key`, if there is one.
    pub fn remove(&mut self, key: &K)
        requires
            old(self).wf(),
        ensures
            final(self).wf(),
            final(self).view() == old(self).view().remove(key@),
    {
        let ghost k = key@;
        match self.find(key) {
            Some(i) => {
                let ghost old_entries = self.entries@;
                let _ = self.entries.remove(i);
                proof {
                    assert forall|a: int, b: int|
                        0 <= a < b < self.entries@.len() implies #[trigger] self.entries@[a].0@
                            != #[trigger] self.entries@[b].0@ by {
                        let a2 = if a < i { a } else { a + 1 };
                        let b2 = if b < i { b } else { b + 1 };
                        assert(old_entries[a2].0@ != old_entries[b2].0@);
                    }
                    assert forall|x: K::V|
                        #[trigger] self.view().contains_key(x) == old(self).view().remove(
                            k,
                        ).contains_key(x) by {
                        if old(self).view().contains_key(x) && x != k {
                            let j = choose|j: int|
                                0 <= j < old_entries.len() && old_entries[j].0@ == x;
                            if j < i {
                                assert(self.entries@[j].0@ == x);
                            } else {
                                assert(j != i);
                                assert(self.entries@[j - 1].0@ == x);
                            }
                        }
                        if self.view().contains_key(x) {
                            let j = choose|j: int|
                                0 <= j < self.entries@.len() && self.entries@[j].0@ == x;
                            let j2 = if j < i { j } else { j + 1 };
                            assert(old_entries[j2].0@ == x);
                            if x == k {
                                if j2 < i {
                                    assert(old_entries[j2].0@ != old_entries[i as int].0@);
                                } else {
                                    assert(old_entries[i as int].0@ != old_entries[j2].0@);
                                }
                            }
                        }
                    }
                    assert forall|x: K::V| #[trigger]
                        self.view().contains_key(x) implies self.view()[x] == old(
                        self,
                    ).view().remove(k)[x] by {
                        let j = choose|j: int|
                            0 <= j < self.entries@.len() && self.entries@[j].0@ == x;
                        self.lemma_view_at(j);
                        let j2 = if j < i { j } else { j + 1 };
                        old(self).lemma_view_at(j2);
                    }
                    assert(self.view() =~= old(self).view().remove(k));
                }
            },
            None => {
                assert(self.view() =~= old(self).view().remove(k));
            },
        }
    }

    /// The number of entries.
    pub fn len(&self) -> (n: usize)
        requires
            self.wf(),
        ensures
            n == self.view().len(),
    {
        proof {
            self.lemma_entry_seq();
        }
        self.entries.len()
    }

    /// The entries: each key of the table once, with its value.
    pub fn entries(&self) -> (r: &Vec<(K, V)>)
        requires
            self.wf(),
        ensures
            r.len() == self@.len(),
            forall|i: int|
                0 <= i < r.len() ==> self@.contains_key(#[trigger] r[i].0@) && r[i].1 == self@[r[i].0@],
            forall|i: int, j: int| 0 <= i < j < r.len() ==> #[trigger] r[i].0@ != #[trigger] r[j].0@,
            forall|k: K::V| #[trigger]
                self@.contains_key(k) ==> exists|i: int| 0 <= i < r.len() && r[i].0@ == k,
    {
        let r = &self.entries;
        proof {
            self.lemma_entry_seq();
            let es = self.entry_seq();
            assert forall|i: int| 0 <= i < r.len() implies self@.contains_key(#[trigger] r[i].0@)
                && r[i].1 == self@[r[i].0@] by {
                assert(es[i] == (r@[i].0@, r@[i].1));
                assert(self.view().contains_key(es[i].0));
            }
            assert forall|i: int, j: int| 0 <= i < j < r.len() implies #[trigger] r[i].0@
                != #[trigger] r[j].0@ by {
                assert(es[i] == (r@[i].0@, r@[i].1));
                assert(es[j] == (r@[j].0@, r@[j].1));
            }
            assert forall|k: K::V| #[trigger]
                self@.contains_key(k) implies exists|i: int| 0 <= i < r.len() && r[i].0@ == k by {
                let i = choose|i: int| 0 <= i < es.len() && es[i].0 == k;
                assert(es[i] == (r@[i].0@, r@[i].1));
            }
        }
        r
    }
}

} // verus!
