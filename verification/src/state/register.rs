//! Registers of yanked text.

use vstd::prelude::*;

verus! {

/// A register: its main content and the content of further selections.
pub struct Register {
    pub content: String,
    pub extra_content: Vec<String>,
}

impl Register {
    /// The main content, then the others, in order.
    pub fn iter(&self) -> (r: Vec<&str>)
        ensures
            r@.len() == self.extra_content@.len() + 1,
            r@[0]@ == self.content@,
            forall|i: int| 0 <= i < self.extra_content@.len() ==> (#[trigger] r@[i + 1])@ == self.extra_content@[i]@,
    {
        let mut r: Vec<&str> = Vec::new();
        r.push(self.content.as_str());
        let mut i: usize = 0;
        while i < self.extra_content.len()
            invariant
                i <= self.extra_content@.len(),
                r@.len() == i + 1,
                r@[0]@ == self.content@,
                forall|j: int| 0 <= j < i ==> (#[trigger] r@[j + 1])@ == self.extra_content@[j]@,
            decreases self.extra_content@.len() - i,
        {
            r.push(self.extra_content[i].as_str());
            i += 1;
        }
        r
    }
}

} // verus!
