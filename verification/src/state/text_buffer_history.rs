use vstd::prelude::*;

use crate::range::Range;
use crate::selection::{AllSelections, Selection};
use crate::state::text_buffer::TextEdit;

verus! {

/// Undo/redo stack.
///
/// Edits are recorded in groups, whose boundaries are checkpoints. A group
/// keeps the selections of all views before and after its edits. Groups as a
/// whole are the steps of undo and redo. `current_group_edge_idx` is the
/// number of groups that are done; the groups after it can be redone.
#[derive(Debug)]
pub struct TextBufferHistory {
    pub current_group_edge_idx: usize,
    pub edit_groups: Vec<EditGroup>,
}

/// Edits recorded between two checkpoints, with the selections around them.
#[derive(Debug)]
pub struct EditGroup {
    pub edits: Vec<TextEdit>,
    pub selections_before: AllSelections,
    pub selections_after: AllSelections,
    pub is_complete: bool,
}

impl EditGroup {
    /// Both snapshots of selections are well formed.
    pub open spec fn wf(self) -> bool {
        self.selections_before.wf() && self.selections_after.wf()
    }

    /// An empty, incomplete group.
    pub fn new() -> (r: Self)
        ensures
            r.wf(),
            r.edits@.len() == 0,
            r.selections_before.view_spec() == Map::<u64, Seq<Selection>>::empty(),
            r.selections_after.view_spec() == Map::<u64, Seq<Selection>>::empty(),
            !r.is_complete,
    {
        Self {
            edits: Vec::new(),
            selections_before: AllSelections::new(),
            selections_after: AllSelections::new(),
            is_complete: false,
        }
    }
}

impl Default for EditGroup {
    fn default() -> (r: Self)
        ensures
            r.edits@.len() == 0,
            r.selections_before.view_spec() == Map::<u64, Seq<Selection>>::empty(),
            r.selections_after.view_spec() == Map::<u64, Seq<Selection>>::empty(),
            !r.is_complete,
    {
        Self::new()
    }
}

impl Default for TextBufferHistory {
    fn default() -> (r: Self)
        ensures
            r.current_group_edge_idx == 0,
            r.edit_groups@.len() == 0,
    {
        Self::new()
    }
}

impl TextBufferHistory {
    /// The index never goes past the groups.
    pub open spec fn wf(self) -> bool {
        &&& self.current_group_edge_idx <= self.edit_groups@.len()
        &&& forall|i: int| 0 <= i < self.edit_groups@.len() ==> (#[trigger] self.edit_groups@[i]).wf()
    }

    /// No edit was recorded since the last checkpoint: the next edit opens a new group.
    pub open spec fn at_checkpoint(self) -> bool {
        self.current_group_edge_idx == 0 || self.edit_groups@[self.current_group_edge_idx - 1].is_complete
    }

    /// The edits of group `i`, as ranges and texts.
    pub open spec fn group_edits(self, i: int) -> Seq<(Range, Seq<char>)> {
        self.edit_groups@[i].edits@.map_values(|e: TextEdit| e.view_spec())
    }

    /// `new` is this history after recording `edit`, with the given
    /// selections before and after it: the groups after the current one are
    /// dropped; the edit is added to the current group, or to a new group
    /// when the current one is complete or there is none; a group's
    /// selections before are those before its first edit, and its
    /// selections after those after its last edit.
    pub open spec fn records(
        self,
        new: Self,
        edit: (Range, Seq<char>),
        before: Map<u64, Seq<Selection>>,
        after: Map<u64, Seq<Selection>>,
    ) -> bool {
        let idx = self.current_group_edge_idx as int;
        if self.at_checkpoint() {
            &&& new.current_group_edge_idx == idx + 1
            &&& new.edit_groups@.len() == idx + 1
            &&& new.edit_groups@.take(idx) == self.edit_groups@.take(idx)
            &&& new.group_edits(idx) == seq![edit]
            &&& new.edit_groups@[idx].selections_before.view_spec() == before
            &&& new.edit_groups@[idx].selections_after.view_spec() == after
            &&& new.edit_groups@[idx].selections_before.wf()
            &&& new.edit_groups@[idx].selections_after.wf()
            &&& !new.edit_groups@[idx].is_complete
        } else {
            let g = self.edit_groups@[idx - 1];
            &&& new.current_group_edge_idx == idx
            &&& new.edit_groups@.len() == idx
            &&& new.edit_groups@.take(idx - 1) == self.edit_groups@.take(idx - 1)
            &&& new.group_edits(idx - 1) == self.group_edits(idx - 1).push(edit)
            &&& new.edit_groups@[idx - 1].selections_before.view_spec() == (if g.edits@.len() == 0 {
                before
            } else {
                g.selections_before.view_spec()
            })
            &&& new.edit_groups@[idx - 1].selections_after.view_spec() == after
            &&& !new.edit_groups@[idx - 1].is_complete
        }
    }

    /// An empty history.
    pub fn new() -> (r: Self)
        ensures
            r.current_group_edge_idx == 0,
            r.edit_groups@.len() == 0,
    {
        Self { current_group_edge_idx: 0, edit_groups: Vec::new() }
    }

    /// Records an edit in the current group, dropping the groups that could be
    /// redone. When the current group is complete, or there is none, a new
    /// group is opened for it, with `selections_before` as the selections
    /// before it. The group's selections after are set to `selections_after`.
    pub fn record_edit(
        &mut self,
        edit: TextEdit,
        selections_before: &AllSelections,
        selections_after: &AllSelections,
    )
        requires
            old(self).wf(),
            selections_before.wf(),
            selections_after.wf(),
        ensures
            final(self).wf(),
            old(self).records(
                *final(self),
                edit.view_spec(),
                selections_before.view_spec(),
                selections_after.view_spec(),
            ),
    {
        // Get rid of potential redo groups.
        self.edit_groups.truncate(self.current_group_edge_idx);
        let ghost kept = self.edit_groups@;

        // If the current edit group doesn't exist, or exists but is complete,
        // add a new group and make it the current.
        let open_new = self.current_group_edge_idx == 0
            || self.edit_groups[self.current_group_edge_idx - 1].is_complete;
        if open_new {
            self.edit_groups.push(EditGroup::new());
            // The groups were truncated to the index: the new group is the last one.
            self.current_group_edge_idx = self.edit_groups.len();
        }
        let idx = self.current_group_edge_idx - 1;
        let mut group = self.edit_groups.remove(idx);
        if group.edits.len() == 0 {
            group.selections_before = selections_before.clone();
        }
        group.selections_after = selections_after.clone();
        group.edits.push(edit);
        self.edit_groups.insert(idx, group);
        proof {
            assert(self.edit_groups@.take(idx as int) =~= kept.take(idx as int));
            assert(kept =~= old(self).edit_groups@.take(old(self).current_group_edge_idx as int));
            assert(kept.take(idx as int) =~= old(self).edit_groups@.take(idx as int));
            assert(self.group_edits(idx as int) =~= old(self).group_edits(idx as int).push(edit.view_spec())
                || old(self).at_checkpoint());
            if old(self).at_checkpoint() {
                assert(self.group_edits(idx as int) =~= seq![edit.view_spec()]);
            } else {
                assert(self.group_edits(idx as int) =~= old(self).group_edits(idx as int).push(edit.view_spec()));
            }
        }
    }

    /// Closes the current group, if there is one: the next edit opens a new group.
    pub fn record_checkpoint(&mut self)
        requires
            old(self).wf(),
        ensures
            final(self).wf(),
            final(self).at_checkpoint(),
            final(self).current_group_edge_idx == old(self).current_group_edge_idx,
            final(self).edit_groups@.len() == old(self).edit_groups@.len(),
            forall|i: int|
                0 <= i < old(self).edit_groups@.len() && i != old(self).current_group_edge_idx - 1
                    ==> final(self).edit_groups@[i] == old(self).edit_groups@[i],
            old(self).current_group_edge_idx > 0 ==> ({
                let i = old(self).current_group_edge_idx - 1;
                let g = old(self).edit_groups@[i];
                let h = final(self).edit_groups@[i];
                h.edits == g.edits && h.selections_before == g.selections_before
                    && h.selections_after == g.selections_after && h.is_complete
            }),
    {
        if self.current_group_edge_idx == 0 {
            return;
        }
        let idx = self.current_group_edge_idx - 1;
        if self.edit_groups[idx].is_complete {
            return;
        }
        let mut group = self.edit_groups.remove(idx);
        group.is_complete = true;
        self.edit_groups.insert(idx, group);
    }

    /// Whether a group can be undone.
    pub fn can_undo(&self) -> (r: bool)
        ensures
            r == (self.current_group_edge_idx != 0),
    {
        self.current_group_edge_idx != 0
    }

    /// Whether a group can be redone.
    pub fn can_redo(&self) -> (r: bool)
        ensures
            r == (self.current_group_edge_idx != self.edit_groups@.len()),
    {
        self.current_group_edge_idx != self.edit_groups.len()
    }

    /// Index of the current group: the last one that is done.
    pub fn current_edit_group_idx(&self) -> (r: Option<usize>)
        ensures
            r == (if self.current_group_edge_idx == 0 {
                None::<usize>
            } else {
                Some((self.current_group_edge_idx - 1) as usize)
            }),
    {
        if self.current_group_edge_idx == 0 {
            None
        } else {
            Some(self.current_group_edge_idx - 1)
        }
    }

    /// The current group, to be changed in place.
    pub fn current_edit_group_mut(&mut self) -> (r: Option<&mut EditGroup>)
        requires
            old(self).wf(),
        ensures
            r.is_some() == (old(self).current_group_edge_idx > 0),
            final(self).current_group_edge_idx == old(self).current_group_edge_idx,
            r matches Some(g) ==> ({
                let i = old(self).current_group_edge_idx - 1;
                &&& *g == old(self).edit_groups@[i]
                &&& final(self).edit_groups@ == old(self).edit_groups@.update(i, *final(g))
            }),
            r.is_none() ==> final(self).edit_groups@ == old(self).edit_groups@,
    {
        match self.current_edit_group_idx() {
            Some(idx) => Some(&mut self.edit_groups[idx]),
            None => None,
        }
    }

    /// Takes the current group out of the history, leaving an empty group in its place.
    pub fn take_current_edit_group(&mut self) -> (r: Option<EditGroup>)
        requires
            old(self).wf(),
        ensures
            final(self).wf(),
            final(self).current_group_edge_idx == old(self).current_group_edge_idx,
            final(self).edit_groups@.len() == old(self).edit_groups@.len(),
            old(self).current_group_edge_idx == 0 ==> r.is_none() && final(self).edit_groups@
                == old(self).edit_groups@,
            old(self).current_group_edge_idx > 0 ==> ({
                let i = old(self).current_group_edge_idx - 1;
                &&& r == Some(old(self).edit_groups@[i])
                &&& final(self).edit_groups@[i].edits@.len() == 0
                &&& forall|j: int|
                    0 <= j < old(self).edit_groups@.len() && j != i ==> final(self).edit_groups@[j]
                        == old(self).edit_groups@[j]
            }),
    {
        if self.current_group_edge_idx == 0 {
            return None;
        }
        let idx = self.current_group_edge_idx - 1;
        let group = self.edit_groups.remove(idx);
        self.edit_groups.insert(idx, EditGroup::new());
        Some(group)
    }

    /// Puts a group back at the current index, in place of what is there.
    pub fn put_current_edit_group(&mut self, group: EditGroup)
        requires
            old(self).wf(),
            group.wf(),
            old(self).current_group_edge_idx > 0,
        ensures
            final(self).wf(),
            final(self).current_group_edge_idx == old(self).current_group_edge_idx,
            final(self).edit_groups@ == old(self).edit_groups@.update(
                old(self).current_group_edge_idx - 1,
                group,
            ),
    {
        let idx = self.current_group_edge_idx - 1;
        self.edit_groups.remove(idx);
        self.edit_groups.insert(idx, group);
    }
}

} // verus!
