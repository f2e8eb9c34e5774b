//! The views and buffers that the editor holds.

use vstd::prelude::*;

use crate::slotmap::{Handle, SlotMap};
use crate::position::Position;
use crate::selection::{Selection, Selections};
use crate::state::text_buffer::TextBuffer;
use crate::state::view;
use crate::text::str_eq;

verus! {

/// The views and buffers of the editor.
pub struct Resources {
    pub views: SlotMap<view::View>,
    pub buffers: SlotMap<TextBuffer>,
}

/// Whether a buffer's path is `path`.
pub open spec fn has_path(buffer: TextBuffer, path: Seq<char>) -> bool {
    buffer.path matches Some(p) && p@ == path
}

/// Whether `new` is `old` with an empty buffer and a view `view` of it from
/// its start added, the buffer holding one selection at its start for
/// that view.
pub open spec fn panel_view_opened(old: Resources, new: Resources, view: Handle) -> bool {
    let b = Handle { id: old.buffers.next_id_spec() };
    let added = new.buffers.entries_spec().last();
    &&& new.wf()
    &&& view.id == old.views.next_id_spec()
    &&& new.views.entries_spec() == old.views.entries_spec().push(
        (view, view::View { top_left: Position { column: 0, row: 0 }, buffer: b }),
    )
    &&& new.buffers.entries_spec() == old.buffers.entries_spec().push(added)
    &&& added.0 == b
    &&& added.1.wf()
    &&& added.1.lines_view() == seq![Seq::<char>::empty()]
    &&& added.1.selections.view_spec() == Map::<u64, Seq<Selection>>::empty().insert(
        view.id,
        seq![Selection { cursor: Position { column: 0, row: 0 }, anchor: Position { column: 0, row: 0 } }],
    )
    &&& !old.buffers.contains(b)
    &&& !old.views.contains(view)
}

/// Whether `new` is `old` without the view `view` and the buffer it shows.
pub open spec fn panel_view_closed(old: Resources, new: Resources, view: Handle) -> bool {
    &&& new.wf()
    &&& exists|i: int|
        0 <= i < old.views.entries_spec().len() && old.views.entries_spec()[i].0 == view
            && new.views.entries_spec() == old.views.entries_spec().remove(i) && ({
            let b = old.views.entries_spec()[i].1.buffer;
            if old.buffers.contains(b) {
                exists|j: int|
                    0 <= j < old.buffers.entries_spec().len() && old.buffers.entries_spec()[j].0 == b
                        && new.buffers.entries_spec() == old.buffers.entries_spec().remove(j)
            } else {
                new.buffers.entries_spec() == old.buffers.entries_spec()
            }
        })
}

impl Resources {
    pub open spec fn wf(self) -> bool {
        self.views.wf() && self.buffers.wf()
    }

    /// Whether some view shows a buffer with unsaved changes.
    pub open spec fn shows_unsaved_changes(self) -> bool {
        exists|i: int, j: int|
            0 <= i < self.views.entries_spec().len() && 0 <= j < self.buffers.entries_spec().len()
                && #[trigger] self.buffers.entries_spec()[j].0 == (#[trigger] self.views.entries_spec()[i]).1.buffer
                && self.buffers.entries_spec()[j].1.dirty
    }

    /// What `quit` checks before the editor stops: fails with `there are
    /// unsaved changes` when some view shows a buffer with unsaved changes.
    pub fn check_quit(&self) -> (r: Result<(), String>)
        requires
            self.wf(),
            forall|i: int|
                0 <= i < self.views.entries_spec().len() ==> self.buffers.contains(
                    (#[trigger] self.views.entries_spec()[i]).1.buffer,
                ),
        ensures
            r is Ok <==> !self.shows_unsaved_changes(),
            r matches Err(e) ==> e@ == "there are unsaved changes"@,
    {
        let views = self.views.iter();
        let mut i: usize = 0;
        while i < views.len()
            invariant
                self.wf(),
                views@ == self.views.entries_spec(),
                i <= views@.len(),
                forall|k: int|
                    0 <= k < self.views.entries_spec().len() ==> self.buffers.contains(
                        (#[trigger] self.views.entries_spec()[k]).1.buffer,
                    ),
                forall|k: int, j: int|
                    0 <= k < i && 0 <= j < self.buffers.entries_spec().len() && #[trigger] self.buffers.entries_spec()[j].0
                        == (#[trigger] self.views.entries_spec()[k]).1.buffer ==> !self.buffers.entries_spec()[j].1.dirty,
            decreases views@.len() - i,
        {
            let h = views[i].1.buffer;
            match self.buffers.get(h) {
                Some(buffer) => {
                    proof {
                        let j0 = choose|j: int|
                            0 <= j < self.buffers.entries_spec().len() && self.buffers.entries_spec()[j] == (h, *buffer);
                        assert forall|j: int|
                            0 <= j < self.buffers.entries_spec().len() && #[trigger] self.buffers.entries_spec()[j].0
                                == h implies self.buffers.entries_spec()[j].1 == *buffer by {
                            self.buffers.lemma_handle_unique(j, j0);
                        }
                    }
                    if buffer.is_dirty() {
                        proof {
                            reveal_strlit("there are unsaved changes");
                            let j0 = choose|j: int|
                                0 <= j < self.buffers.entries_spec().len() && self.buffers.entries_spec()[j] == (h, *buffer);
                            assert(self.buffers.entries_spec()[j0].0 == self.views.entries_spec()[i as int].1.buffer);
                        }
                        return Err(crate::text::to_owned_string("there are unsaved changes"));
                    }
                },
                None => {
                    proof {
                        assert(self.buffers.contains(self.views.entries_spec()[i as int].1.buffer));
                    }
                },
            }
            i += 1;
        }
        Ok(())
    }

    /// No views and no buffers.
    pub fn new() -> (r: Self)
        ensures
            r.wf(),
            r.views.entries_spec().len() == 0,
            r.buffers.entries_spec().len() == 0,
    {
        Resources { views: SlotMap::new(), buffers: SlotMap::new() }
    }

    /// Stores a buffer with the text `content`, read from the file at
    /// `absolute_path`, and returns its handle.
    pub fn open_file(&mut self, absolute_path: String, content: &str) -> (h: Handle)
        requires
            old(self).wf(),
            old(self).buffers.next_id_spec() < u64::MAX,
            content@.len() < i32::MAX,
        ensures
            final(self).wf(),
            !old(self).buffers.contains(h),
            final(self).views == old(self).views,
            ({
                let added = final(self).buffers.entries_spec().last();
                &&& final(self).buffers.entries_spec() == old(self).buffers.entries_spec().push(added)
                &&& added.0 == h
                &&& added.1.wf()
                &&& added.1.content() == content@
                &&& added.1.path == Some(absolute_path)
                &&& !added.1.dirty
            }),
    {
        let buffer = TextBuffer::new_with_content(content, Some(absolute_path));
        self.buffers.insert(buffer)
    }

    /// Stores an empty buffer without a path and returns its handle.
    pub fn open_scratch(&mut self) -> (h: Handle)
        requires
            old(self).wf(),
            old(self).buffers.next_id_spec() < u64::MAX,
        ensures
            final(self).wf(),
            !old(self).buffers.contains(h),
            final(self).views == old(self).views,
            ({
                let added = final(self).buffers.entries_spec().last();
                &&& final(self).buffers.entries_spec() == old(self).buffers.entries_spec().push(added)
                &&& added.0 == h
                &&& added.1.wf()
                &&& added.1.content() == Seq::<char>::empty()
                &&& added.1.path.is_none()
            }),
    {
        let buffer = TextBuffer::new_empty();
        proof {
            assert(buffer.content() == Seq::<char>::empty()) by {
                assert(buffer.lines_view() =~= seq![Seq::<char>::empty()]);
            }
        }
        self.buffers.insert(buffer)
    }

    /// Stores a buffer for the file at `absolute_path`: with `content`, the
    /// text read from the file when it exists, else empty (the file is
    /// created when the buffer is written). Returns its handle.
    pub fn open_file_or_scratch(&mut self, absolute_path: String, content: Option<&str>) -> (h: Handle)
        requires
            old(self).wf(),
            old(self).buffers.next_id_spec() < u64::MAX,
            content matches Some(c) ==> c@.len() < i32::MAX,
        ensures
            final(self).wf(),
            !old(self).buffers.contains(h),
            final(self).views == old(self).views,
            ({
                let added = final(self).buffers.entries_spec().last();
                &&& final(self).buffers.entries_spec() == old(self).buffers.entries_spec().push(added)
                &&& added.0 == h
                &&& added.1.wf()
                &&& added.1.content() == match content {
                    Some(c) => c@,
                    None => Seq::<char>::empty(),
                }
                &&& added.1.path == Some(absolute_path)
                &&& !added.1.dirty
            }),
    {
        match content {
            Some(c) => self.open_file(absolute_path, c),
            None => {
                let mut buffer = TextBuffer::new_empty();
                buffer.set_path(Some(absolute_path));
                proof {
                    assert(buffer.content() == Seq::<char>::empty()) by {
                        assert(buffer.lines_view() =~= seq![Seq::<char>::empty()]);
                    }
                }
                self.buffers.insert(buffer)
            },
        }
    }

    /// The first buffer, in the order they were opened, whose path is
    /// `absolute_path`.
    pub fn buffer_with_path(&self, absolute_path: &str) -> (r: Option<Handle>)
        ensures
            match r {
                Some(h) => exists|i: int|
                    0 <= i < self.buffers.entries_spec().len() && self.buffers.entries_spec()[i].0 == h
                        && has_path(self.buffers.entries_spec()[i].1, absolute_path@) && forall|j: int|
                        0 <= j < i ==> !has_path(#[trigger] self.buffers.entries_spec()[j].1, absolute_path@),
                None => forall|j: int|
                    0 <= j < self.buffers.entries_spec().len() ==> !has_path(
                        #[trigger] self.buffers.entries_spec()[j].1,
                        absolute_path@,
                    ),
            },
    {
        let entries = self.buffers.iter();
        let mut i: usize = 0;
        while i < entries.len()
            invariant
                entries@ == self.buffers.entries_spec(),
                i <= entries@.len(),
                forall|j: int| 0 <= j < i ==> !has_path(#[trigger] entries@[j].1, absolute_path@),
            decreases entries@.len() - i,
        {
            let found = match &entries[i].1.path {
                Some(p) => str_eq(p.as_str(), absolute_path),
                None => false,
            };
            if found {
                return Some(entries[i].0);
            }
            i += 1;
        }
        None
    }

    /// The first view, in the order they were opened, of `buffer`.
    pub fn view_with_buffer(&self, buffer: Handle) -> (r: Option<Handle>)
        ensures
            match r {
                Some(h) => exists|i: int|
                    0 <= i < self.views.entries_spec().len() && self.views.entries_spec()[i].0 == h
                        && self.views.entries_spec()[i].1.buffer == buffer && forall|j: int|
                        0 <= j < i ==> (#[trigger] self.views.entries_spec()[j].1).buffer != buffer,
                None => forall|j: int|
                    0 <= j < self.views.entries_spec().len() ==> (
                    #[trigger] self.views.entries_spec()[j].1).buffer != buffer,
            },
    {
        let entries = self.views.iter();
        let mut i: usize = 0;
        while i < entries.len()
            invariant
                entries@ == self.views.entries_spec(),
                i <= entries@.len(),
                forall|j: int| 0 <= j < i ==> (#[trigger] entries@[j].1).buffer != buffer,
            decreases entries@.len() - i,
        {
            if entries[i].1.buffer == buffer {
                return Some(entries[i].0);
            }
            i += 1;
        }
        None
    }

    /// Stores an empty buffer and a view of it from its start, the buffer
    /// holding one selection at its start for that view; returns the view.
    pub fn open_panel_view(&mut self) -> (view: Handle)
        requires
            old(self).wf(),
            old(self).buffers.next_id_spec() < u64::MAX,
            old(self).views.next_id_spec() < u64::MAX,
        ensures
            panel_view_opened(*old(self), *final(self), view),
    {
        let b = self.buffers.next_handle();
        let view = self.views.insert(view::View { top_left: Position::zero(), buffer: b });
        let mut buffer = TextBuffer::new_empty();
        buffer.add_view_selections(view.id, Selections::new());
        let b2 = self.buffers.insert(buffer);
        proof {
            assert(b2 == b);
        }
        view
    }

    /// Removes the view `view` and the buffer it shows.
    pub fn close_panel_view(&mut self, view: Handle)
        requires
            old(self).wf(),
            old(self).views.contains(view),
        ensures
            panel_view_closed(*old(self), *final(self), view),
    {
        let ghost old_views = self.views.entries_spec();
        let buffer_handle = match self.views.get(view) {
            Some(v) => v.buffer,
            None => {
                return;
            },
        };
        let ghost k = choose|k: int|
            0 <= k < old_views.len() && old_views[k].0 == view && old_views[k].1.buffer == buffer_handle;
        let removed = self.views.remove(view);
        self.buffers.remove(buffer_handle);
        proof {
            let v = removed->Some_0;
            let i = choose|i: int|
                0 <= i < old_views.len() && old_views[i] == (view, v) && self.views.entries_spec()
                    == old_views.remove(i);
            old(self).views.lemma_handle_unique(i, k);
        }
    }
}

} // verus!
