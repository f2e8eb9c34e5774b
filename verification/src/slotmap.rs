//! Values stored under handles that stay valid until the value is removed.

use vstd::prelude::*;

verus! {

/// A handle to a value of a slot map.
#[derive(Debug, Clone, Copy, PartialEq, Eq, Structural, Hash)]
pub struct Handle {
    pub id: u64,
}

/// Values stored under handles, in the order they were inserted. A handle
/// is never given out twice.
pub struct SlotMap<T> {
    entries: Vec<(Handle, T)>,
    next_id: u64,
}

impl<T> SlotMap<T> {
    /// The handles and values, in the order they were inserted.
    pub closed spec fn entries_spec(self) -> Seq<(Handle, T)> {
        self.entries@
    }

    /// The next handle to give out.
    pub closed spec fn next_id_spec(self) -> u64 {
        self.next_id
    }

    /// Handles are increasing and below the next one to give out.
    pub closed spec fn wf(self) -> bool {
        &&& forall|i: int, j: int|
            0 <= i < j < self.entries@.len() ==> self.entries@[i].0.id < self.entries@[j].0.id
        &&& forall|i: int| 0 <= i < self.entries@.len() ==> self.entries@[i].0.id < self.next_id
    }

    /// Whether `h` holds a value.
    pub open spec fn contains(self, h: Handle) -> bool {
        exists|i: int| 0 <= i < self.entries_spec().len() && self.entries_spec()[i].0 == h
    }

    /// An empty slot map.
    pub fn new() -> (r: Self)
        ensures
            r.wf(),
            r.entries_spec() == Seq::<(Handle, T)>::empty(),
            r.next_id_spec() == 0,
    {
        SlotMap { entries: Vec::new(), next_id: 0 }
    }

    /// A handle is stored once.
    pub proof fn lemma_handle_unique(self, i: int, j: int)
        requires
            self.wf(),
            0 <= i < self.entries_spec().len(),
            0 <= j < self.entries_spec().len(),
            self.entries_spec()[i].0 == self.entries_spec()[j].0,
        ensures
            i == j,
    {
    }

    /// The handle that the next insertion gives out.
    pub fn next_handle(&self) -> (h: Handle)
        ensures
            h.id == self.next_id_spec(),
    {
        Handle { id: self.next_id }
    }

    /// Stores `value` under a new handle, which it returns.
    pub fn insert(&mut self, value: T) -> (h: Handle)
        requires
            old(self).wf(),
            old(self).next_id_spec() < u64::MAX,
        ensures
            final(self).wf(),
            h.id == old(self).next_id_spec(),
            !old(self).contains(h),
            final(self).entries_spec() == old(self).entries_spec().push((h, value)),
            final(self).next_id_spec() == old(self).next_id_spec() + 1,
    {
        let h = Handle { id: self.next_id };
        self.entries.push((h, value));
        self.next_id = self.next_id + 1;
        h
    }

    fn find(&self, h: Handle) -> (r: Option<usize>)
        requires
            self.wf(),
        ensures
            match r {
                Some(i) => i < self.entries_spec().len() && self.entries_spec()[i as int].0 == h,
                None => !self.contains(h),
            },
    {
        let mut i: usize = 0;
        while i < self.entries.len()
            invariant
                i <= self.entries@.len(),
                forall|j: int| 0 <= j < i ==> self.entries@[j].0 != h,
            decreases self.entries@.len() - i,
        {
            if self.entries[i].0 == h {
                return Some(i);
            }
            i += 1;
        }
        None
    }

    /// The value under `h`.
    pub fn get(&self, h: Handle) -> (r: Option<&T>)
        requires
            self.wf(),
        ensures
            r.is_some() == self.contains(h),
            r matches Some(v) ==> exists|i: int|
                0 <= i < self.entries_spec().len() && self.entries_spec()[i] == (h, *v),
    {
        match self.find(h) {
            Some(i) => Some(&self.entries[i].1),
            None => None,
        }
    }

    /// The value under `h`, to be changed in place.
    pub fn get_mut(&mut self, h: Handle) -> (r: Option<&mut T>)
        requires
            old(self).wf(),
        ensures
            r.is_some() == old(self).contains(h),
            r matches Some(v) ==> exists|i: int|
                0 <= i < old(self).entries_spec().len() && old(self).entries_spec()[i] == (h, *v)
                    && final(self).entries_spec() == old(self).entries_spec().update(i, (h, *final(v))),
            r.is_none() ==> final(self).entries_spec() == old(self).entries_spec(),
            final(self).next_id_spec() == old(self).next_id_spec(),
    {
        match self.find(h) {
            Some(i) => Some(&mut self.entries[i].1),
            None => None,
        }
    }

    /// Removes the value under `h`, returning it.
    pub fn remove(&mut self, h: Handle) -> (r: Option<T>)
        requires
            old(self).wf(),
        ensures
            final(self).wf(),
            r.is_some() == old(self).contains(h),
            r matches Some(v) ==> exists|i: int|
                0 <= i < old(self).entries_spec().len() && old(self).entries_spec()[i] == (h, v)
                    && final(self).entries_spec() == old(self).entries_spec().remove(i),
            r.is_none() ==> final(self).entries_spec() == old(self).entries_spec(),
            final(self).next_id_spec() == old(self).next_id_spec(),
    {
        match self.find(h) {
            Some(i) => {
                let (_, v) = self.entries.remove(i);
                proof {
                    assert forall|a: int, b: int| 0 <= a < b < self.entries@.len() implies self.entries@[a].0.id
                        < self.entries@[b].0.id by {
                        let a0 = if a < i { a } else { a + 1 };
                        let b0 = if b < i { b } else { b + 1 };
                        assert(self.entries@[a] == old(self).entries@[a0]);
                        assert(self.entries@[b] == old(self).entries@[b0]);
                    }
                    assert forall|a: int| 0 <= a < self.entries@.len() implies self.entries@[a].0.id
                        < self.next_id by {
                        let a0 = if a < i { a } else { a + 1 };
                        assert(self.entries@[a] == old(self).entries@[a0]);
                    }
                }
                Some(v)
            },
            None => None,
        }
    }

    /// The handles and values, in the order they were inserted.
    pub fn iter(&self) -> (r: &Vec<(Handle, T)>)
        ensures
            r@ == self.entries_spec(),
    {
        &self.entries
    }
}

} // verus!
