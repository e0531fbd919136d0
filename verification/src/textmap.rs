//! A small map from texts, in the order its keys first came.

use vstd::prelude::*;

use crate::text::str_eq;

verus! {

/// A map from texts to values, for the few keys that one request touches.
pub struct TextMap<V> {
    entries: Vec<(String, V)>,
}

/// The position of `key` in a list of entries.
pub open spec fn entry_index<V>(entries: Seq<(String, V)>, key: Seq<char>) -> int {
    choose|i: int| 0 <= i < entries.len() && (#[trigger] entries[i]).0@ == key
}

/// Some entry has this key.
pub open spec fn has_entry<V>(entries: Seq<(String, V)>, key: Seq<char>) -> bool {
    exists|i: int| 0 <= i < entries.len() && (#[trigger] entries[i]).0@ == key
}

/// The map that a list of entries stands for.
pub open spec fn entries_map<V>(entries: Seq<(String, V)>) -> Map<Seq<char>, V> {
    Map::new(|key: Seq<char>| has_entry(entries, key), |key: Seq<char>| entries[entry_index(entries, key)].1)
}

impl<V> View for TextMap<V> {
    type V = Map<Seq<char>, V>;

    closed spec fn view(&self) -> Map<Seq<char>, V> {
        entries_map(self.entries@)
    }
}

impl<V> TextMap<V> {
    /// No key comes twice.
    pub closed spec fn wf(&self) -> bool {
        forall|i: int, j: int|
            0 <= i < j < self.entries@.len() ==> (#[trigger] self.entries@[i]).0@ != (
            #[trigger] self.entries@[j]).0@
    }

    /// The keys, in the order they first came.
    pub closed spec fn keys(&self) -> Seq<Seq<char>> {
        Seq::new(self.entries@.len(), |i: int| self.entries@[i].0@)
    }

    /// The keys are those of the map, each once.
    pub proof fn lemma_keys(&self)
        requires
            self.wf(),
        ensures
            self.keys().no_duplicates(),
            forall|k: Seq<char>| #[trigger] self.keys().contains(k) <==> self@.contains_key(k),
    {
        assert forall|i: int, j: int| 0 <= i < self.keys().len() && 0 <= j < self.keys().len() && i != j implies self.keys()[i]
            != self.keys()[j] by {
            let (a, b) = if i < j { (i, j) } else { (j, i) };
            assert(self.entries@[a].0@ != self.entries@[b].0@);
        }
        assert forall|k: Seq<char>| #[trigger] self.keys().contains(k) <==> self@.contains_key(k) by {
            if self.keys().contains(k) {
                let i = choose|i: int| 0 <= i < self.keys().len() && self.keys()[i] == k;
                assert(self.entries@[i].0@ == k);
            }
            if self@.contains_key(k) {
                let i = entry_index(self.entries@, k);
                assert(self.keys()[i] == k);
            }
        }
    }

    proof fn lemma_at(&self, i: int)
        requires
            self.wf(),
            0 <= i < self.entries@.len(),
        ensures
            self@.contains_key(self.entries@[i].0@),
            self@[self.entries@[i].0@] == self.entries@[i].1,
            entry_index(self.entries@, self.entries@[i].0@) == i,
    {
        let key = self.entries@[i].0@;
        let k = entry_index(self.entries@, key);
        assert(self.entries@[k].0@ == key);
        if k < i {
            assert(self.entries@[k].0@ != self.entries@[i].0@);
        } else if i < k {
            assert(self.entries@[i].0@ != self.entries@[k].0@);
        }
    }

    pub fn new() -> (r: TextMap<V>)
        ensures
            r.wf(),
            r@ == Map::<Seq<char>, V>::empty(),
            r.keys() == Seq::<Seq<char>>::empty(),
    {
        let r = TextMap { entries: Vec::new() };
        proof {
            assert(r@ =~= Map::<Seq<char>, V>::empty());
            assert(r.keys() =~= Seq::<Seq<char>>::empty());
        }
        r
    }

    pub fn len(&self) -> (r: usize)
        ensures
            r == self.keys().len(),
    {
        self.entries.len()
    }

    /// The key at a position.
    pub fn key_at(&self, i: usize) -> (r: &String)
        requires
            i < self.keys().len(),
        ensures
            r@ == self.keys()[i as int],
    {
        &self.entries[i].0
    }

    /// The value at a position.
    pub fn value_at(&self, i: usize) -> (r: &V)
        requires
            self.wf(),
            i < self.keys().len(),
        ensures
            self@.contains_key(self.keys()[i as int]),
            *r == self@[self.keys()[i as int]],
    {
        proof {
            self.lemma_at(i as int);
        }
        &self.entries[i].1
    }

    fn find(&self, key: &str) -> (r: Option<usize>)
        requires
            self.wf(),
        ensures
            match r {
                Some(i) => i < self.entries@.len() && self.entries@[i as int].0@ == key@ && self@.contains_key(key@),
                None => !self@.contains_key(key@),
            },
    {
        let mut i: usize = 0;
        while i < self.entries.len()
            invariant
                self.wf(),
                i <= self.entries.len(),
                forall|j: int| 0 <= j < i ==> (#[trigger] self.entries@[j]).0@ != key@,
            decreases self.entries.len() - i,
        {
            if str_eq(&self.entries[i].0, key) {
                proof {
                    self.lemma_at(i as int);
                }
                return Some(i);
            }
            i = i + 1;
        }
        None
    }

    pub fn get(&self, key: &str) -> (r: Option<&V>)
        requires
            self.wf(),
        ensures
            match r {
                Some(v) => self@.contains_key(key@) && *v == self@[key@],
                None => !self@.contains_key(key@),
            },
    {
        match self.find(key) {
            Some(i) => {
                proof {
                    self.lemma_at(i as int);
                }
                Some(&self.entries[i].1)
            },
            None => None,
        }
    }

    pub fn contains(&self, key: &str) -> (r: bool)
        requires
            self.wf(),
        ensures
            r == self@.contains_key(key@),
    {
        self.find(key).is_some()
    }

    /// Puts a value under a key; a key that is new comes last.
    pub fn insert(&mut self, key: String, value: V)
        requires
            old(self).wf(),
        ensures
            final(self).wf(),
            final(self)@ == old(self)@.insert(key@, value),
            final(self).keys() == (if old(self)@.contains_key(key@) {
                old(self).keys()
            } else {
                old(self).keys().push(key@)
            }),
    {
        let ghost a = *self;
        match self.find(&key) {
            Some(i) => {
                self.entries[i] = (key, value);
                proof {
                    let e = self.entries@;
                    assert forall|j: int, k: int| 0 <= j < k < e.len() implies (#[trigger] e[j]).0@ != (#[trigger] e[k]).0@ by {
                        assert(a.entries@[j].0@ != a.entries@[k].0@);
                    }
                    assert forall|k: Seq<char>| #[trigger] self@.contains_key(k) == a@.insert(key@, value).contains_key(k) by {
                        if self@.contains_key(k) {
                            let j = entry_index(e, k);
                            assert(a.entries@[j].0@ == k);
                        }
                        if a@.contains_key(k) {
                            let j = entry_index(a.entries@, k);
                            assert(e[j].0@ == k);
                        }
                    }
                    assert forall|k: Seq<char>| #[trigger] self@.contains_key(k) implies self@[k] == a@.insert(key@, value)[k] by {
                        let j = entry_index(e, k);
                        self.lemma_at(j);
                        a.lemma_at(j);
                        a.lemma_at(i as int);
                        self.lemma_at(i as int);
                    }
                    assert(self@ =~= a@.insert(key@, value));
                    assert(self.keys() =~= a.keys());
                }
            },
            None => {
                self.entries.push((key, value));
                proof {
                    let e = self.entries@;
                    let n = a.entries@.len() as int;
                    assert forall|j: int, k: int| 0 <= j < k < e.len() implies (#[trigger] e[j]).0@ != (#[trigger] e[k]).0@ by {
                        if k < n {
                            assert(a.entries@[j].0@ != a.entries@[k].0@);
                        } else {
                            assert(a.entries@[j].0@ != key@);
                        }
                    }
                    assert forall|k: Seq<char>| #[trigger] self@.contains_key(k) == a@.insert(key@, value).contains_key(k) by {
                        if self@.contains_key(k) {
                            let j = entry_index(e, k);
                            if j < n {
                                assert(a.entries@[j].0@ == k);
                            }
                        }
                        if a@.contains_key(k) {
                            let j = entry_index(a.entries@, k);
                            assert(e[j].0@ == k);
                        }
                        if k == key@ {
                            assert(e[n].0@ == k);
                        }
                    }
                    assert forall|k: Seq<char>| #[trigger] self@.contains_key(k) implies self@[k] == a@.insert(key@, value)[k] by {
                        let j = entry_index(e, k);
                        self.lemma_at(j);
                        self.lemma_at(n);
                        if j < n {
                            a.lemma_at(j);
                        }
                    }
                    assert(self@ =~= a@.insert(key@, value));
                    assert(self.keys() =~= a.keys().push(key@));
                }
            },
        }
    }

    /// Takes a key out.
    pub fn remove(&mut self, key: &str) -> (r: Option<V>)
        requires
            old(self).wf(),
        ensures
            final(self).wf(),
            final(self)@ == old(self)@.remove(key@),
            match r {
                Some(v) => old(self)@.contains_key(key@) && v == old(self)@[key@],
                None => !old(self)@.contains_key(key@),
            },
    {
        let ghost a = *self;
        match self.find(key) {
            Some(i) => {
                let (_gone, v) = self.entries.remove(i);
                proof {
                    let e = self.entries@;
                    assert forall|j: int, k: int| 0 <= j < k < e.len() implies (#[trigger] e[j]).0@ != (#[trigger] e[k]).0@ by {
                        let j0 = if j < i { j } else { j + 1 };
                        let k0 = if k < i { k } else { k + 1 };
                        assert(a.entries@[j0].0@ != a.entries@[k0].0@);
                    }
                    a.lemma_at(i as int);
                    assert forall|k: Seq<char>| #[trigger] self@.contains_key(k) == a@.remove(key@).contains_key(k) by {
                        if self@.contains_key(k) {
                            let j = entry_index(e, k);
                            let j0 = if j < i { j } else { j + 1 };
                            a.lemma_at(j0);
                            assert(a.entries@[j0].0@ == k);
                        }
                        if a@.contains_key(k) && k != key@ {
                            let j = entry_index(a.entries@, k);
                            assert(a.entries@[j].0@ == k);
                            let j1 = if j < i { j } else { j - 1 };
                            assert(e[j1].0@ == k);
                        }
                    }
                    assert forall|k: Seq<char>| #[trigger] self@.contains_key(k) implies self@[k] == a@.remove(key@)[k] by {
                        let j = entry_index(e, k);
                        self.lemma_at(j);
                        let j0 = if j < i { j } else { j + 1 };
                        a.lemma_at(j0);
                    }
                    assert(self@ =~= a@.remove(key@));
                }
                Some(v)
            },
            None => {
                proof {
                    assert(a@.remove(key@) =~= a@);
                }
                None
            },
        }
    }
}

} // verus!
