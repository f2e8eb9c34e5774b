//! A string of characters indexed by character rather than by byte.

use vstd::prelude::*;

use crate::text::{chars_of, push_char};

verus! {

/// A string of characters, indexed by character.
#[derive(Debug, Clone)]
pub struct CharString {
    inner: Vec<char>,
}

impl Default for CharString {
    fn default() -> (r: Self)
        ensures
            r@ == Seq::<char>::empty(),
    {
        Self::new()
    }
}

impl View for CharString {
    type V = Seq<char>;

    closed spec fn view(&self) -> Seq<char> {
        self.inner@
    }
}

impl CharString {
    /// An empty string.
    pub fn new() -> (r: Self)
        ensures
            r@ == Seq::<char>::empty(),
    {
        Self { inner: Vec::new() }
    }

    /// The characters of `s`.
    pub fn from_str(s: &str) -> (r: Self)
        ensures
            r@ == s@,
    {
        Self { inner: chars_of(s) }
    }

    /// The characters of `chars`, in order.
    pub fn from_iter(chars: Vec<char>) -> (r: Self)
        ensures
            r@ == chars@,
    {
        let mut this = Self::new();
        let mut i: usize = 0;
        while i < chars.len()
            invariant
                i <= chars@.len(),
                this@ == chars@.take(i as int),
            decreases chars@.len() - i,
        {
            this.push(chars[i]);
            proof {
                assert(chars@.take(i as int + 1) =~= chars@.take(i as int).push(chars@[i as int]));
            }
            i += 1;
        }
        proof {
            assert(chars@.take(chars@.len() as int) =~= chars@);
        }
        this
    }

    /// The character at `idx`, if there is one.
    pub fn get(&self, idx: usize) -> (r: Option<char>)
        ensures
            idx < self@.len() ==> r == Some(self@[idx as int]),
            idx >= self@.len() ==> r.is_none(),
    {
        if idx < self.inner.len() {
            Some(self.inner[idx])
        } else {
            None
        }
    }

    /// Appends `ch`.
    pub fn push(&mut self, ch: char)
        ensures
            final(self)@ == old(self)@.push(ch),
    {
        self.inner.push(ch);
    }

    /// Removes and returns the last character.
    pub fn pop(&mut self) -> (r: Option<char>)
        ensures
            old(self)@.len() == 0 ==> r.is_none() && final(self)@ == old(self)@,
            old(self)@.len() > 0 ==> r == Some(old(self)@.last()) && final(self)@ == old(self)@.drop_last(),
    {
        self.inner.pop()
    }

    /// Inserts `ch` before the character at `idx` (at the end for `idx`
    /// equal to the length).
    pub fn insert(&mut self, idx: usize, ch: char)
        requires
            idx <= old(self)@.len(),
        ensures
            final(self)@ == old(self)@.insert(idx as int, ch),
    {
        self.inner.insert(idx, ch);
    }

    /// Number of characters.
    pub fn len(&self) -> (r: usize)
        ensures
            r == self@.len(),
    {
        self.inner.len()
    }

    /// Removes and returns the character at `idx`.
    pub fn remove(&mut self, idx: usize) -> (r: char)
        requires
            idx < old(self)@.len(),
        ensures
            r == old(self)@[idx as int],
            final(self)@ == old(self)@.remove(idx as int),
    {
        self.inner.remove(idx)
    }

    /// Appends the characters of `other`.
    pub fn extend(&mut self, other: CharString)
        ensures
            final(self)@ == old(self)@ + other@,
    {
        let mut other = other;
        self.inner.append(&mut other.inner);
    }

    /// The characters, in order.
    pub fn chars(&self) -> (r: Vec<char>)
        ensures
            r@ == self@,
    {
        self.inner.clone()
    }

    /// The characters with their indices, in order.
    pub fn char_indices(&self) -> (r: Vec<(usize, char)>)
        ensures
            r@.len() == self@.len(),
            forall|i: int| 0 <= i < self@.len() ==> #[trigger] r@[i] == (i as usize, self@[i]),
    {
        let mut r: Vec<(usize, char)> = Vec::new();
        let mut i: usize = 0;
        while i < self.inner.len()
            invariant
                i <= self@.len(),
                self@ == self.inner@,
                r@.len() == i,
                forall|j: int| 0 <= j < i ==> #[trigger] r@[j] == (j as usize, self@[j]),
            decreases self.inner@.len() - i,
        {
            r.push((i, self.inner[i]));
            i += 1;
        }
        r
    }

    /// Index of the first character for which `pat` holds.
    pub fn find<P: Fn(char) -> bool>(&self, pat: P) -> (r: Option<usize>)
        requires
            forall|c: char| #[trigger] pat.requires((c,)),
        ensures
            match r {
                Some(i) => i < self@.len() && pat.ensures((self@[i as int],), true) && forall|j: int|
                    0 <= j < i ==> #[trigger] pat.ensures((self@[j],), false),
                None => forall|j: int| 0 <= j < self@.len() ==> #[trigger] pat.ensures((self@[j],), false),
            },
    {
        let mut i: usize = 0;
        while i < self.inner.len()
            invariant
                i <= self@.len(),
                self@ == self.inner@,
                forall|c: char| #[trigger] pat.requires((c,)),
                forall|j: int| 0 <= j < i ==> #[trigger] pat.ensures((self@[j],), false),
            decreases self.inner@.len() - i,
        {
            if pat(self.inner[i]) {
                return Some(i);
            }
            i += 1;
        }
        None
    }

    /// Removes the characters `start..end` and returns them.
    pub fn drain(&mut self, start: usize, end: usize) -> (r: Vec<char>)
        requires
            start <= end <= old(self)@.len(),
        ensures
            r@ == old(self)@.subrange(start as int, end as int),
            final(self)@ == old(self)@.take(start as int) + old(self)@.skip(end as int),
    {
        let mut removed: Vec<char> = Vec::new();
        let mut k: usize = start;
        while k < end
            invariant
                start <= k <= end <= old(self)@.len(),
                self@ == old(self)@.take(start as int) + old(self)@.skip(k as int),
                removed@ == old(self)@.subrange(start as int, k as int),
            decreases end - k,
        {
            let c = self.inner.remove(start);
            removed.push(c);
            k += 1;
            proof {
                assert(self@ =~= old(self)@.take(start as int) + old(self)@.skip(k as int));
                assert(removed@ =~= old(self)@.subrange(start as int, k as int));
            }
        }
        removed
    }

    /// The characters as a `String`.
    pub fn to_string(&self) -> (r: String)
        ensures
            r@ == self@,
    {
        let mut s = String::new();
        let mut i: usize = 0;
        while i < self.inner.len()
            invariant
                i <= self@.len(),
                self@ == self.inner@,
                s@ == self@.take(i as int),
            decreases self.inner@.len() - i,
        {
            push_char(&mut s, self.inner[i]);
            i += 1;
            proof {
                assert(s@ =~= self@.take(i as int));
            }
        }
        proof {
            assert(self@.take(i as int) =~= self@);
        }
        s
    }
}

} // verus!
