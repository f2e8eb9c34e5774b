//! A map that remembers the order in which its keys were inserted.

use vstd::prelude::*;

use crate::text::str_eq;

verus! {

/// A map from string keys to values that iterates in insertion order: a
/// key inserted again moves to the end.
#[derive(Debug)]
pub struct InsertOrderMap<V> {
    pub entries: Vec<(String, V)>,
}

/// The keys of a sequence of entries.
pub open spec fn keys_of<V>(entries: Seq<(String, V)>) -> Seq<Seq<char>> {
    entries.map_values(|e: (String, V)| e.0@)
}

impl<V> InsertOrderMap<V> {
    /// No key appears twice.
    pub open spec fn wf(self) -> bool {
        forall|i: int, j: int|
            0 <= i < j < self.entries@.len() ==> self.entries@[i].0@ != self.entries@[j].0@
    }

    /// The keys, in insertion order.
    pub open spec fn keys(self) -> Seq<Seq<char>> {
        keys_of(self.entries@)
    }

    /// Whether `k` is a key.
    pub open spec fn has_key(self, k: Seq<char>) -> bool {
        self.keys().contains(k)
    }

    /// The position of key `k` in insertion order.
    pub open spec fn index_of_key(self, k: Seq<char>) -> int {
        self.keys().index_of(k)
    }

    /// The value of each key.
    pub open spec fn map_view(self) -> Map<Seq<char>, V> {
        Map::new(|k: Seq<char>| self.has_key(k), |k: Seq<char>| self.entries@[self.index_of_key(k)].1)
    }

    /// An empty map.
    pub fn new() -> (r: Self)
        ensures
            r.wf(),
            r.entries@.len() == 0,
            r.map_view() == Map::<Seq<char>, V>::empty(),
    {
        let r = InsertOrderMap { entries: Vec::new() };
        proof {
            assert(r.map_view() =~= Map::<Seq<char>, V>::empty());
        }
        r
    }

    /// Removing the entry at `i` removes its key from the map.
    proof fn lemma_remove_view(self, new: Self, i: int)
        requires
            self.wf(),
            0 <= i < self.entries@.len(),
            new.entries@ == self.entries@.remove(i),
        ensures
            new.wf(),
            new.map_view() == self.map_view().remove(self.entries@[i].0@),
    {
        let k = self.entries@[i].0@;
        assert forall|a: int, b: int| 0 <= a < b < new.entries@.len() implies new.entries@[a].0@
            != new.entries@[b].0@ by {
            let a0 = if a < i { a } else { a + 1 };
            let b0 = if b < i { b } else { b + 1 };
            assert(new.entries@[a] == self.entries@[a0]);
            assert(new.entries@[b] == self.entries@[b0]);
        }
        self.lemma_index_of_key(i);
        assert forall|q: Seq<char>| #[trigger] new.has_key(q) == (self.has_key(q) && q != k) by {
            if new.has_key(q) {
                let j = new.index_of_key(q);
                assert(new.keys()[j] == q);
                let j0 = if j < i { j } else { j + 1 };
                assert(new.entries@[j] == self.entries@[j0]);
                self.lemma_index_of_key(j0);
                if q == k {
                    assert(j0 == i);
                }
            }
            if self.has_key(q) && q != k {
                let j0 = self.index_of_key(q);
                assert(self.keys()[j0] == q);
                assert(j0 != i);
                let j = if j0 < i { j0 } else { j0 - 1 };
                assert(new.entries@[j] == self.entries@[j0]);
                assert(new.keys()[j] == q);
            }
        }
        assert forall|q: Seq<char>| #[trigger] new.has_key(q) implies new.map_view()[q] == self.map_view()[q] by {
            let j = new.index_of_key(q);
            assert(new.keys()[j] == q);
            let j0 = if j < i { j } else { j + 1 };
            assert(new.entries@[j] == self.entries@[j0]);
            new.lemma_index_of_key(j);
            self.lemma_index_of_key(j0);
        }
        assert(new.map_view() =~= self.map_view().remove(k));
    }

    /// Appending an entry of a new key adds it to the map.
    proof fn lemma_push_view(self, new: Self, key: String, v: V)
        requires
            self.wf(),
            !self.has_key(key@),
            new.entries@ == self.entries@.push((key, v)),
        ensures
            new.wf(),
            new.map_view() == self.map_view().insert(key@, v),
    {
        let n = self.entries@.len() as int;
        assert forall|a: int, b: int| 0 <= a < b < new.entries@.len() implies new.entries@[a].0@
            != new.entries@[b].0@ by {
            if b == n {
                assert(new.entries@[a] == self.entries@[a]);
                assert(self.keys()[a] == self.entries@[a].0@);
            }
        }
        new.lemma_index_of_key(n);
        assert forall|q: Seq<char>| #[trigger] new.has_key(q) == (self.has_key(q) || q == key@) by {
            if new.has_key(q) {
                let j = new.index_of_key(q);
                assert(new.keys()[j] == q);
                if j < n {
                    assert(new.entries@[j] == self.entries@[j]);
                    assert(self.keys()[j] == q);
                }
            }
            if self.has_key(q) {
                let j = self.index_of_key(q);
                assert(self.keys()[j] == q);
                assert(new.entries@[j] == self.entries@[j]);
                assert(new.keys()[j] == q);
            }
        }
        assert forall|q: Seq<char>| #[trigger] new.has_key(q) implies new.map_view()[q] == self.map_view().insert(
            key@,
            v,
        )[q] by {
            let j = new.index_of_key(q);
            assert(new.keys()[j] == q);
            new.lemma_index_of_key(j);
            if j < n {
                assert(new.entries@[j] == self.entries@[j]);
                self.lemma_index_of_key(j);
            }
        }
        assert(new.map_view() =~= self.map_view().insert(key@, v));
    }

    /// Replacing the value of the entry at `i` replaces the value of its key.
    pub proof fn lemma_update_view(self, new: Self, i: int, v: V)
        requires
            self.wf(),
            0 <= i < self.entries@.len(),
            new.entries@ == self.entries@.update(i, (self.entries@[i].0, v)),
        ensures
            new.wf(),
            new.map_view() == self.map_view().insert(self.entries@[i].0@, v),
    {
        let k = self.entries@[i].0@;
        assert forall|a: int, b: int| 0 <= a < b < new.entries@.len() implies new.entries@[a].0@
            != new.entries@[b].0@ by {
            assert(new.entries@[a].0 == self.entries@[a].0);
            assert(new.entries@[b].0 == self.entries@[b].0);
        }
        assert(new.keys() =~= self.keys()) by {
            assert forall|j: int| 0 <= j < new.keys().len() implies new.keys()[j] == self.keys()[j] by {
                assert(new.entries@[j].0 == self.entries@[j].0);
            }
        }
        self.lemma_index_of_key(i);
        new.lemma_index_of_key(i);
        assert forall|q: Seq<char>| #[trigger] new.has_key(q) implies new.map_view()[q] == self.map_view().insert(
            k,
            v,
        )[q] by {
            let j = new.index_of_key(q);
            assert(new.keys()[j] == q);
            new.lemma_index_of_key(j);
            self.lemma_index_of_key(j);
        }
        assert(new.map_view() =~= self.map_view().insert(k, v));
    }

    /// Index of the entry of key `k`.
    fn find(&self, k: &str) -> (r: Option<usize>)
        requires
            self.wf(),
        ensures
            match r {
                Some(i) => i < self.entries@.len() && self.entries@[i as int].0@ == k@ && self.has_key(k@)
                    && self.index_of_key(k@) == i,
                None => !self.has_key(k@),
            },
    {
        let mut i: usize = 0;
        while i < self.entries.len()
            invariant
                self.wf(),
                i <= self.entries@.len(),
                forall|j: int| 0 <= j < i ==> self.entries@[j].0@ != k@,
            decreases self.entries@.len() - i,
        {
            if str_eq(self.entries[i].0.as_str(), k) {
                proof {
                    assert(self.keys()[i as int] == k@);
                    self.lemma_index_of_key(i as int);
                }
                return Some(i);
            }
            i += 1;
        }
        proof {
            if self.has_key(k@) {
                let j = self.keys().index_of(k@);
                assert(self.keys()[j] == k@);
            }
        }
        None
    }

    /// The key of the entry at `i` is a key, found at `i`.
    pub proof fn lemma_index_of_key(self, i: int)
        requires
            self.wf(),
            0 <= i < self.entries@.len(),
        ensures
            self.has_key(self.entries@[i].0@),
            self.index_of_key(self.entries@[i].0@) == i,
    {
        let k = self.entries@[i].0@;
        assert(self.keys()[i] == k);
        let j = self.keys().index_of(k);
        assert(self.keys()[j] == k);
        if j != i {
            if j < i {
                assert(self.entries@[j].0@ != self.entries@[i].0@);
            } else {
                assert(self.entries@[i].0@ != self.entries@[j].0@);
            }
        }
    }

    /// Whether `k` is a key.
    pub fn contains_key(&self, k: &str) -> (r: bool)
        requires
            self.wf(),
        ensures
            r == self.has_key(k@),
    {
        self.get(k).is_some()
    }

    /// The value of key `k`.
    pub fn get(&self, k: &str) -> (r: Option<&V>)
        requires
            self.wf(),
        ensures
            r.is_some() == self.has_key(k@),
            r.is_some() ==> *r->Some_0 == self.entries@[self.index_of_key(k@)].1,
            r.is_some() ==> *r->Some_0 == self.map_view()[k@],
    {
        match self.find(k) {
            Some(i) => Some(&self.entries[i].1),
            None => None,
        }
    }

    /// The value of key `k`, to be changed in place.
    pub fn get_mut(&mut self, k: &str) -> (r: Option<&mut V>)
        requires
            old(self).wf(),
        ensures
            r.is_some() == old(self).has_key(k@),
            r matches Some(v) ==> ({
                let i = old(self).index_of_key(k@);
                &&& *v == old(self).entries@[i].1
                &&& final(self).entries@ == old(self).entries@.update(i, (old(self).entries@[i].0, *final(v)))
            }),
            r.is_none() ==> final(self).entries@ == old(self).entries@,
            r.is_some() == old(self).map_view().contains_key(k@),
    {
        match self.find(k) {
            Some(i) => Some(&mut self.entries[i].1),
            None => None,
        }
    }

    /// Removes key `k`, returning its value; the order of the other keys is kept.
    pub fn remove(&mut self, k: &str) -> (r: Option<V>)
        requires
            old(self).wf(),
        ensures
            final(self).wf(),
            r.is_some() == old(self).has_key(k@),
            r.is_some() ==> ({
                let i = old(self).index_of_key(k@);
                &&& r->Some_0 == old(self).entries@[i].1
                &&& final(self).entries@ == old(self).entries@.remove(i)
            }),
            r.is_none() ==> final(self).entries@ == old(self).entries@,
            !final(self).has_key(k@),
            final(self).map_view() == old(self).map_view().remove(k@),
            r.is_some() ==> r->Some_0 == old(self).map_view()[k@],
    {
        match self.find(k) {
            Some(i) => {
                let (_, previous) = self.entries.remove(i);
                proof {
                    assert forall|a: int, b: int| 0 <= a < b < self.entries@.len() implies self.entries@[a].0@
                        != self.entries@[b].0@ by {
                        let a0 = if a < i { a } else { a + 1 };
                        let b0 = if b < i { b } else { b + 1 };
                        assert(self.entries@[a] == old(self).entries@[a0]);
                        assert(self.entries@[b] == old(self).entries@[b0]);
                    }
                    if self.has_key(k@) {
                        let j = self.keys().index_of(k@);
                        assert(self.keys()[j] == k@);
                        let j0 = if j < i { j } else { j + 1 };
                        assert(self.entries@[j] == old(self).entries@[j0]);
                        if j0 < i {
                            assert(old(self).entries@[j0].0@ != old(self).entries@[i as int].0@);
                        } else {
                            assert(old(self).entries@[i as int].0@ != old(self).entries@[j0].0@);
                        }
                    }
                    old(self).lemma_remove_view(*self, i as int);
                }
                Some(previous)
            },
            None => {
                proof {
                    assert(old(self).map_view().remove(k@) =~= old(self).map_view());
                }
                None
            },
        }
    }

    /// Inserts `v` under `k`, at the end of the order, returning the
    /// previous value of `k`.
    pub fn insert(&mut self, k: String, v: V) -> (r: Option<V>)
        requires
            old(self).wf(),
        ensures
            final(self).wf(),
            r.is_some() == old(self).has_key(k@),
            r.is_some() ==> r->Some_0 == old(self).entries@[old(self).index_of_key(k@)].1,
            ({
                let kept = if old(self).has_key(k@) {
                    old(self).entries@.remove(old(self).index_of_key(k@))
                } else {
                    old(self).entries@
                };
                &&& final(self).entries@.len() == kept.len() + 1
                &&& final(self).entries@.take(kept.len() as int) == kept
                &&& final(self).entries@.last().0@ == k@
                &&& final(self).entries@.last().1 == v
            }),
            final(self).map_view() == old(self).map_view().insert(k@, v),
    {
        let previous = self.remove(k.as_str());
        let ghost kept = *self;
        let ghost kv = (k, v);
        self.entries.push((k, v));
        proof {
            kept.lemma_push_view(*self, kv.0, kv.1);
            assert(old(self).map_view().remove(kv.0@).insert(kv.0@, kv.1) =~= old(self).map_view().insert(kv.0@, kv.1));
            let kept = kept.entries@;
            assert(self.entries@.take(kept.len() as int) =~= kept);
            assert forall|a: int, b: int| 0 <= a < b < self.entries@.len() implies self.entries@[a].0@
                != self.entries@[b].0@ by {
                if b == kept.len() {
                    assert(self.keys()[a] == self.entries@[a].0@);
                    assert(keys_of(kept)[a] == kept[a].0@);
                    if kept[a].0@ == k@ {
                        assert(keys_of(kept).contains(k@));
                    }
                }
            }
        }
        previous
    }

    /// The entries, in insertion order.
    pub fn iter(&self) -> (r: &Vec<(String, V)>)
        ensures
            r@ == self.entries@,
    {
        &self.entries
    }
}

} // verus!
