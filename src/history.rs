use vstd::prelude::*;

use crate::bytes::{bytes_eq, concat, copy_all, copy_range};
use crate::position::{pos_le, pos_lt, spec_delete, spec_insert, BufferRange};

verus! {

#[derive(Clone, Copy, Debug, PartialEq, Eq, Structural)]
pub enum EditKind {
    Insert,
    Delete,
}

pub open spec fn flip_kind(k: EditKind) -> EditKind {
    match k {
        EditKind::Insert => EditKind::Delete,
        EditKind::Delete => EditKind::Insert,
    }
}

/// One change to a buffer. For an insertion `range` is the span the new text
/// occupies; for a deletion it is the span removed and `text` what was removed.
#[derive(Debug)]
pub struct Edit {
    pub kind: EditKind,
    pub range: BufferRange,
    pub text: Vec<u8>,
    pub cursor_index: u8,
}

pub ghost struct EditView {
    pub kind: EditKind,
    pub range: BufferRange,
    pub text: Seq<u8>,
    pub cursor_index: u8,
}

impl View for Edit {
    type V = EditView;

    open spec fn view(&self) -> EditView {
        EditView {
            kind: self.kind,
            range: self.range,
            text: self.text@,
            cursor_index: self.cursor_index,
        }
    }
}

/// An edit as the history stores it.
pub struct EditInternal {
    kind: EditKind,
    buffer_range: BufferRange,
    text: Vec<u8>,
    cursor_index: u8,
}

impl View for EditInternal {
    type V = EditView;

    closed spec fn view(&self) -> EditView {
        EditView {
            kind: self.kind,
            range: self.buffer_range,
            text: self.text@,
            cursor_index: self.cursor_index,
        }
    }
}

impl EditInternal {
    fn from_edit(edit: &Edit) -> (r: Self)
        ensures
            r@ == edit@,
    {
        EditInternal {
            kind: edit.kind,
            buffer_range: edit.range,
            text: copy_all(edit.text.as_slice()),
            cursor_index: edit.cursor_index,
        }
    }

    fn from_view_parts(kind: EditKind, range: BufferRange, text: Vec<u8>, cursor_index: u8) -> (r: Self)
        ensures
            r@ == (EditView { kind, range, text: text@, cursor_index }),
    {
        EditInternal { kind, buffer_range: range, text, cursor_index }
    }

    pub fn as_edit_ref(&self) -> (r: Edit)
        ensures
            r@ == self@,
    {
        Edit {
            kind: self.kind,
            range: self.buffer_range,
            text: copy_all(self.text.as_slice()),
            cursor_index: self.cursor_index,
        }
    }
}

/// What `add_edit` makes of the group's last edit `l` and a new edit `e` when
/// the two coalesce into one, or `None` when `e` is stored on its own.
pub open spec fn spec_merge(l: EditView, e: EditView) -> Option<EditView> {
    if l.cursor_index != e.cursor_index {
        None
    } else {
        match (l.kind, e.kind) {
            (EditKind::Insert, EditKind::Insert) => {
                if e.range.from == l.range.to {
                    Some(EditView { range: BufferRange { from: l.range.from, to: e.range.to }, text: l.text + e.text, ..l })
                } else if e.range.from == l.range.from {
                    Some(EditView { range: BufferRange { from: l.range.from, to: spec_insert(l.range.to, e.range) }, text: e.text + l.text, ..l })
                } else {
                    None
                }
            },
            (EditKind::Delete, EditKind::Delete) => {
                if e.range.from == l.range.from {
                    Some(EditView { range: BufferRange { from: l.range.from, to: spec_insert(l.range.to, e.range) }, text: l.text + e.text, ..l })
                } else if e.range.to == l.range.from {
                    Some(EditView { range: BufferRange { from: e.range.from, to: l.range.to }, text: e.text + l.text, ..l })
                } else {
                    None
                }
            },
            (EditKind::Insert, EditKind::Delete) => {
                if l.range.from == e.range.from && pos_le(e.range.to, l.range.to) {
                    if e.text.len() <= l.text.len() && l.text.subrange(0, e.text.len() as int) == e.text {
                        Some(EditView { range: BufferRange { from: l.range.from, to: spec_delete(l.range.to, e.range) }, text: l.text.subrange(e.text.len() as int, l.text.len() as int), ..l })
                    } else {
                        None
                    }
                } else if e.range.to == l.range.to && pos_le(l.range.from, e.range.from) {
                    if e.text.len() <= l.text.len() && l.text.subrange(l.text.len() - e.text.len(), l.text.len() as int) == e.text {
                        Some(EditView { range: BufferRange { from: l.range.from, to: e.range.from }, text: l.text.subrange(0, l.text.len() - e.text.len()), ..l })
                    } else {
                        None
                    }
                } else if e.range.from == l.range.from && pos_le(l.range.to, e.range.to) {
                    if l.text.len() <= e.text.len() && e.text.subrange(0, l.text.len() as int) == l.text {
                        Some(EditView { kind: EditKind::Delete, range: BufferRange { from: l.range.from, to: spec_delete(e.range.to, l.range) }, text: e.text.subrange(l.text.len() as int, e.text.len() as int), ..l })
                    } else {
                        None
                    }
                } else if l.range.to == e.range.to && pos_le(e.range.from, l.range.from) {
                    if l.text.len() <= e.text.len() && e.text.subrange(e.text.len() - l.text.len(), e.text.len() as int) == l.text {
                        Some(EditView { kind: EditKind::Delete, range: BufferRange { from: e.range.from, to: l.range.from }, text: e.text.subrange(0, e.text.len() - l.text.len()), ..l })
                    } else {
                        None
                    }
                } else {
                    None
                }
            },
            _ => None,
        }
    }
}

#[derive(Clone, Copy, Debug, PartialEq, Eq, Structural)]
pub enum HistoryState {
    /// Committed: the groups before the index can be undone, the rest redone.
    IterIndex(usize),
    /// A group of edits `start..end` is being assembled.
    InsertGroup(usize, usize),
}

pub ghost struct HistoryView {
    pub edits: Seq<EditView>,
    pub groups: Seq<(usize, usize)>,
    pub state: HistoryState,
}

/// Where the committed groups end.
pub open spec fn groups_end(groups: Seq<(usize, usize)>) -> int {
    if groups.len() == 0 {
        0
    } else {
        groups.last().1 as int
    }
}

impl HistoryView {
    pub open spec fn wf(self) -> bool {
        &&& forall|i: int| 0 <= i < self.groups.len() ==> #[trigger] self.groups[i].0 <= self.groups[i].1
        &&& forall|i: int| 0 < i < self.groups.len() ==> #[trigger] self.groups[i].0 == self.groups[i - 1].1
        &&& self.groups.len() > 0 ==> self.groups[0].0 == 0
        &&& match self.state {
            HistoryState::IterIndex(i) => i <= self.groups.len() && groups_end(self.groups) == self.edits.len(),
            HistoryState::InsertGroup(lo, hi) => lo == groups_end(self.groups) && lo <= hi && hi == self.edits.len(),
        }
    }

    /// The edits of group `i`, in the order they were made.
    pub open spec fn group_edits(self, i: int) -> Seq<EditView> {
        self.edits.subrange(self.groups[i].0 as int, self.groups[i].1 as int)
    }

    pub open spec fn commit(self) -> HistoryView {
        match self.state {
            HistoryState::InsertGroup(lo, hi) => HistoryView {
                groups: self.groups.push((lo, hi)),
                state: HistoryState::IterIndex((self.groups.len() + 1) as usize),
                ..self
            },
            _ => self,
        }
    }

    /// The history with its redo groups dropped and a new empty group open.
    pub open spec fn open_group(self) -> HistoryView {
        match self.state {
            HistoryState::IterIndex(i) => {
                let start = if i < self.groups.len() { self.groups[i as int].0 as int } else { self.edits.len() as int };
                HistoryView {
                    edits: self.edits.subrange(0, start),
                    groups: self.groups.subrange(0, i as int),
                    state: HistoryState::InsertGroup(start as usize, start as usize),
                }
            },
            _ => self,
        }
    }

    pub open spec fn add_edit(self, e: EditView) -> HistoryView {
        let b = self.open_group();
        match b.state {
            HistoryState::InsertGroup(lo, hi) => {
                if hi > lo && spec_merge(b.edits.last(), e) is Some {
                    HistoryView { edits: b.edits.update(b.edits.len() - 1, spec_merge(b.edits.last(), e)->0), ..b }
                } else {
                    HistoryView { edits: b.edits.push(e), state: HistoryState::InsertGroup(lo, (hi + 1) as usize), ..b }
                }
            },
            _ => b,
        }
    }

    /// The index of the next group that redo would replay, once committed.
    pub open spec fn iter_index(self) -> int {
        match self.commit().state {
            HistoryState::IterIndex(i) => i as int,
            _ => 0,
        }
    }

    /// What undo hands back: the edits of the last undone group, last first,
    /// each with its kind flipped.
    pub open spec fn undo_result(self) -> Seq<EditView> {
        let c = self.commit();
        let i = self.iter_index();
        if i > 0 {
            let g = c.group_edits(i - 1);
            Seq::new(g.len(), |k: int| EditView { kind: flip_kind(g[g.len() - 1 - k].kind), ..g[g.len() - 1 - k] })
        } else {
            Seq::empty()
        }
    }

    pub open spec fn undo(self) -> HistoryView {
        let c = self.commit();
        let i = self.iter_index();
        if i > 0 {
            HistoryView { state: HistoryState::IterIndex((i - 1) as usize), ..c }
        } else {
            c
        }
    }

    /// What redo hands back: the next group's edits, in their order.
    pub open spec fn redo_result(self) -> Seq<EditView> {
        let c = self.commit();
        let i = self.iter_index();
        if i < c.groups.len() {
            c.group_edits(i)
        } else {
            Seq::empty()
        }
    }

    pub open spec fn redo(self) -> HistoryView {
        let c = self.commit();
        let i = self.iter_index();
        if i < c.groups.len() {
            HistoryView { state: HistoryState::IterIndex((i + 1) as usize), ..c }
        } else {
            c
        }
    }
}

/// Each committed group lies within the edits.
pub proof fn lemma_group_within_edits(h: HistoryView, i: int)
    requires
        h.wf(),
        0 <= i < h.groups.len(),
    ensures
        h.groups[i].0 <= h.groups[i].1 <= groups_end(h.groups),
    decreases h.groups.len() - i,
{
    if i + 1 < h.groups.len() {
        lemma_group_within_edits(h, i + 1);
    }
}

/// Redo right after undo puts the history back as it was, once committed, and
/// replays exactly the group that undo reverted, in the order it was made.
pub proof fn lemma_redo_after_undo(h: HistoryView)
    requires
        h.wf(),
        h.iter_index() > 0,
    ensures
        h.undo().redo() == h.commit(),
        h.undo().redo_result() == h.commit().group_edits(h.iter_index() - 1),
        h.undo_result().len() == h.undo().redo_result().len(),
        forall|k: int| 0 <= k < h.undo_result().len() ==> {
            let g = h.undo().redo_result();
            #[trigger] h.undo_result()[k] == EditView { kind: flip_kind(g[g.len() - 1 - k].kind), ..g[g.len() - 1 - k] }
        },
{
}

/// Two insertions in a row by the same cursor, the second starting where the
/// first ended, are stored as one insertion of both texts.
pub proof fn lemma_abutting_inserts_coalesce(h: HistoryView, e: EditView)
    requires
        h.wf(),
        h.state matches HistoryState::InsertGroup(lo, hi) && lo < hi,
        h.edits.last().kind == EditKind::Insert,
        e.kind == EditKind::Insert,
        e.cursor_index == h.edits.last().cursor_index,
        e.range.from == h.edits.last().range.to,
    ensures
        h.add_edit(e).edits.len() == h.edits.len(),
        h.add_edit(e).edits.last().kind == EditKind::Insert,
        h.add_edit(e).edits.last().text == h.edits.last().text + e.text,
        h.add_edit(e).edits.last().range == (BufferRange { from: h.edits.last().range.from, to: e.range.to }),
        h.add_edit(e).wf(),
{
}

/// A deletion right after an insertion by the same cursor, of text that the
/// insertion put there, shrinks the insertion; one that also takes text around
/// it turns the insertion into a deletion of only that surrounding text.
pub proof fn lemma_insert_then_delete_coalesce(h: HistoryView, e: EditView)
    requires
        h.wf(),
        h.state matches HistoryState::InsertGroup(lo, hi) && lo < hi,
        h.edits.last().kind == EditKind::Insert,
        e.kind == EditKind::Delete,
        e.cursor_index == h.edits.last().cursor_index,
    ensures
        ({
            let l = h.edits.last();
            let n = h.add_edit(e);
            let m = n.edits.last();
            &&& (l.range.from == e.range.from && pos_le(e.range.to, l.range.to) && e.text.len() <= l.text.len()
                && l.text.subrange(0, e.text.len() as int) == e.text) ==> {
                &&& n.edits.len() == h.edits.len()
                &&& m.kind == EditKind::Insert
                &&& m.text == l.text.subrange(e.text.len() as int, l.text.len() as int)
                &&& m.range == BufferRange { from: l.range.from, to: spec_delete(l.range.to, e.range) }
            }
            &&& (!(l.range.from == e.range.from && pos_le(e.range.to, l.range.to)) && e.range.to == l.range.to
                && pos_le(l.range.from, e.range.from) && e.text.len() <= l.text.len()
                && l.text.subrange(l.text.len() - e.text.len(), l.text.len() as int) == e.text) ==> {
                &&& n.edits.len() == h.edits.len()
                &&& m.kind == EditKind::Insert
                &&& m.text == l.text.subrange(0, l.text.len() - e.text.len())
                &&& m.range == BufferRange { from: l.range.from, to: e.range.from }
            }
            &&& (e.range.from == l.range.from && pos_lt(l.range.to, e.range.to) && l.text.len() <= e.text.len()
                && e.text.subrange(0, l.text.len() as int) == l.text) ==> {
                &&& n.edits.len() == h.edits.len()
                &&& m.kind == EditKind::Delete
                &&& m.text == e.text.subrange(l.text.len() as int, e.text.len() as int)
                &&& m.range == BufferRange { from: l.range.from, to: spec_delete(e.range.to, l.range) }
            }
            &&& (l.range.to == e.range.to && pos_lt(e.range.from, l.range.from) && l.text.len() <= e.text.len()
                && e.text.subrange(e.text.len() - l.text.len(), e.text.len() as int) == l.text) ==> {
                &&& n.edits.len() == h.edits.len()
                &&& m.kind == EditKind::Delete
                &&& m.text == e.text.subrange(0, e.text.len() - l.text.len())
                &&& m.range == BufferRange { from: e.range.from, to: l.range.from }
            }
        }),
{
}

/// The log of edits of one buffer, grouped into undo steps.
pub struct History {
    edits: Vec<EditInternal>,
    group_ranges: Vec<(usize, usize)>,
    state: HistoryState,
}

impl View for History {
    type V = HistoryView;

    closed spec fn view(&self) -> HistoryView {
        HistoryView {
            edits: self.edits@.map_values(|e: EditInternal| e@),
            groups: self.group_ranges@,
            state: self.state,
        }
    }
}

/// Coalesces `e` into `l` following the table of `spec_merge`.
fn merge_edit(l: &EditInternal, e: &Edit) -> (r: Option<EditInternal>)
    ensures
        r is Some <==> spec_merge(l@, e@) is Some,
        r is Some ==> r->0@ == spec_merge(l@, e@)->0,
{
    if l.cursor_index != e.cursor_index {
        return None;
    }
    let lr = l.buffer_range;
    let er = e.range;
    let lt = l.text.as_slice();
    let et = e.text.as_slice();
    match (l.kind, e.kind) {
        (EditKind::Insert, EditKind::Insert) => {
            if er.from == lr.to {
                let range = BufferRange { from: lr.from, to: er.to };
                Some(EditInternal::from_view_parts(l.kind, range, concat(lt, et), l.cursor_index))
            } else if er.from == lr.from {
                let range = BufferRange { from: lr.from, to: lr.to.insert(er) };
                Some(EditInternal::from_view_parts(l.kind, range, concat(et, lt), l.cursor_index))
            } else {
                None
            }
        },
        (EditKind::Delete, EditKind::Delete) => {
            if er.from == lr.from {
                let range = BufferRange { from: lr.from, to: lr.to.insert(er) };
                Some(EditInternal::from_view_parts(l.kind, range, concat(lt, et), l.cursor_index))
            } else if er.to == lr.from {
                let range = BufferRange { from: er.from, to: lr.to };
                Some(EditInternal::from_view_parts(l.kind, range, concat(et, lt), l.cursor_index))
            } else {
                None
            }
        },
        (EditKind::Insert, EditKind::Delete) => {
            if lr.from == er.from && er.to.is_at_or_before(&lr.to) {
                if et.len() <= lt.len() && bytes_eq(copy_range(lt, 0, et.len()).as_slice(), et) {
                    let range = BufferRange { from: lr.from, to: lr.to.delete(er) };
                    let text = copy_range(lt, et.len(), lt.len());
                    Some(EditInternal::from_view_parts(l.kind, range, text, l.cursor_index))
                } else {
                    None
                }
            } else if er.to == lr.to && lr.from.is_at_or_before(&er.from) {
                if et.len() <= lt.len() && bytes_eq(
                    copy_range(lt, lt.len() - et.len(), lt.len()).as_slice(),
                    et,
                ) {
                    let range = BufferRange { from: lr.from, to: er.from };
                    let text = copy_range(lt, 0, lt.len() - et.len());
                    Some(EditInternal::from_view_parts(l.kind, range, text, l.cursor_index))
                } else {
                    None
                }
            } else if er.from == lr.from && lr.to.is_at_or_before(&er.to) {
                if lt.len() <= et.len() && bytes_eq(copy_range(et, 0, lt.len()).as_slice(), lt) {
                    let range = BufferRange { from: lr.from, to: er.to.delete(lr) };
                    let text = copy_range(et, lt.len(), et.len());
                    Some(EditInternal::from_view_parts(EditKind::Delete, range, text, l.cursor_index))
                } else {
                    None
                }
            } else if lr.to == er.to && er.from.is_at_or_before(&lr.from) {
                if lt.len() <= et.len() && bytes_eq(
                    copy_range(et, et.len() - lt.len(), et.len()).as_slice(),
                    lt,
                ) {
                    let range = BufferRange { from: er.from, to: lr.from };
                    let text = copy_range(et, 0, et.len() - lt.len());
                    Some(EditInternal::from_view_parts(EditKind::Delete, range, text, l.cursor_index))
                } else {
                    None
                }
            } else {
                None
            }
        },
        _ => None,
    }
}

impl History {
    pub open spec fn wf(&self) -> bool {
        self@.wf()
    }

    pub fn new() -> (r: Self)
        ensures
            r@.edits.len() == 0,
            r@.groups.len() == 0,
            r@.state == HistoryState::IterIndex(0),
            r.wf(),
    {
        History { edits: Vec::new(), group_ranges: Vec::new(), state: HistoryState::IterIndex(0) }
    }

    pub fn clear(&mut self)
        ensures
            final(self)@.edits.len() == 0,
            final(self)@.groups.len() == 0,
            final(self)@.state == HistoryState::IterIndex(0),
            final(self).wf(),
    {
        self.edits.clear();
        self.group_ranges.clear();
        self.state = HistoryState::IterIndex(0);
    }

    /// Records `edit` in the group being assembled, coalescing it with the
    /// group's last edit where the two fit together. Starting a group drops
    /// whatever could have been redone.
    pub fn add_edit(&mut self, edit: &Edit)
        requires
            old(self).wf(),
        ensures
            final(self).wf(),
            final(self)@ == old(self)@.add_edit(edit@),
    {
        let current_group_len = match self.state {
            HistoryState::IterIndex(index) => {
                let edit_index = if index < self.group_ranges.len() {
                    self.group_ranges[index].0
                } else {
                    self.edits.len()
                };
                proof {
                    if index < self.group_ranges.len() {
                        self.lemma_group_bounds(index as int);
                    }
                }
                self.edits.truncate(edit_index);
                self.group_ranges.truncate(index);
                self.state = HistoryState::InsertGroup(edit_index, edit_index);
                proof {
                    assert(self@.edits =~= old(self)@.open_group().edits);
                    assert(self@.groups =~= old(self)@.open_group().groups);
                }
                0
            },
            HistoryState::InsertGroup(start, end) => end - start,
        };
        assert(self@ == old(self)@.open_group());
        let append_edit = self.try_merge_with_last(current_group_len, edit);
        if append_edit {
            self.edits.push(EditInternal::from_edit(edit));
            if let HistoryState::InsertGroup(start, _) = self.state {
                self.state = HistoryState::InsertGroup(start, self.edits.len());
            }
            proof {
                assert(self@.edits =~= old(self)@.open_group().edits.push(edit@));
            }
        }
    }

    proof fn lemma_group_bounds(&self, i: int)
        requires
            self.wf(),
            0 <= i < self@.groups.len(),
        ensures
            self@.groups[i].0 <= self@.groups[i].1 <= groups_end(self@.groups),
        decreases self@.groups.len() - i,
    {
        if i + 1 < self@.groups.len() {
            self.lemma_group_bounds(i + 1);
        }
    }

    /// Offers `edit` to the last edit of the open group, which holds
    /// `current_group_len` edits. Returns whether `edit` still has to be
    /// appended; where it was coalesced, the last edit now stands for both.
    pub fn try_merge_with_last(&mut self, current_group_len: usize, edit: &Edit) -> (append: bool)
        requires
            old(self).wf(),
            old(self)@.state matches HistoryState::InsertGroup(lo, hi) && hi - lo == current_group_len,
        ensures
            append == !(current_group_len > 0 && spec_merge(old(self)@.edits.last(), edit@) is Some),
            append ==> final(self)@ == old(self)@,
            !append ==> final(self)@ == (HistoryView {
                edits: old(self)@.edits.update(
                    old(self)@.edits.len() - 1,
                    spec_merge(old(self)@.edits.last(), edit@)->0,
                ),
                ..old(self)@
            }),
    {
        if current_group_len == 0 {
            return true;
        }
        let last_index = self.edits.len() - 1;
        match merge_edit(&self.edits[last_index], edit) {
            Some(merged) => {
                self.edits.set(last_index, merged);
                proof {
                    assert(self@.edits =~= old(self)@.edits.update(
                        old(self)@.edits.len() - 1,
                        spec_merge(old(self)@.edits.last(), edit@)->0,
                    ));
                }
                false
            },
            None => true,
        }
    }

    /// Closes the group being assembled, if any.
    pub fn commit_edits(&mut self)
        requires
            old(self).wf(),
        ensures
            final(self).wf(),
            final(self)@ == old(self)@.commit(),
    {
        if let HistoryState::InsertGroup(start, end) = self.state {
            self.group_ranges.push((start, end));
            self.state = HistoryState::IterIndex(self.group_ranges.len());
        }
    }

    fn group_edits(&self, start: usize, end: usize, reverse: bool) -> (r: Vec<Edit>)
        requires
            start <= end <= self@.edits.len(),
        ensures
            r@.len() == end - start,
            forall|k: int| 0 <= k < end - start ==> #[trigger] r@[k]@ == (if reverse {
                EditView { kind: flip_kind(self@.edits[end - 1 - k].kind), ..self@.edits[end - 1 - k] }
            } else {
                self@.edits[start + k]
            }),
    {
        let mut r: Vec<Edit> = Vec::new();
        let mut k: usize = 0;
        while k < end - start
            invariant
                start <= end <= self@.edits.len(),
                k <= end - start,
                r@.len() == k,
                forall|j: int| 0 <= j < k ==> #[trigger] r@[j]@ == (if reverse {
                    EditView { kind: flip_kind(self@.edits[end - 1 - j].kind), ..self@.edits[end - 1 - j] }
                } else {
                    self@.edits[start + j]
                }),
            decreases end - start - k,
        {
            let mut e = if reverse {
                self.edits[end - 1 - k].as_edit_ref()
            } else {
                self.edits[start + k].as_edit_ref()
            };
            if reverse {
                e.kind = match e.kind {
                    EditKind::Insert => EditKind::Delete,
                    EditKind::Delete => EditKind::Insert,
                };
            }
            r.push(e);
            k = k + 1;
        }
        r
    }

    /// Commits, then steps back over the last group that was not undone and
    /// returns its edits in reverse order with their kinds flipped: applied in
    /// that order they take the buffer back to before the group.
    pub fn undo_edits(&mut self) -> (r: Vec<Edit>)
        requires
            old(self).wf(),
        ensures
            final(self).wf(),
            final(self)@ == old(self)@.undo(),
            r@.map_values(|e: Edit| e@) == old(self)@.undo_result(),
    {
        self.commit_edits();
        let (start, end) = match self.state {
            HistoryState::IterIndex(index) => {
                if index > 0 {
                    self.state = HistoryState::IterIndex(index - 1);
                    proof {
                        self.lemma_group_bounds(index - 1);
                    }
                    self.group_ranges[index - 1]
                } else {
                    (0, 0)
                }
            },
            HistoryState::InsertGroup(_, _) => (0, 0),
        };
        let r = self.group_edits(start, end, true);
        assert(r@.map_values(|e: Edit| e@) =~= old(self)@.undo_result());
        r
    }

    /// Commits, then returns the next undone group's edits in the order they
    /// were made and steps over it.
    pub fn redo_edits(&mut self) -> (r: Vec<Edit>)
        requires
            old(self).wf(),
        ensures
            final(self).wf(),
            final(self)@ == old(self)@.redo(),
            r@.map_values(|e: Edit| e@) == old(self)@.redo_result(),
    {
        self.commit_edits();
        let (start, end) = match self.state {
            HistoryState::IterIndex(index) => {
                if index < self.group_ranges.len() {
                    self.state = HistoryState::IterIndex(index + 1);
                    proof {
                        self.lemma_group_bounds(index as int);
                    }
                    self.group_ranges[index]
                } else {
                    (0, 0)
                }
            },
            HistoryState::InsertGroup(_, _) => (0, 0),
        };
        let r = self.group_edits(start, end, false);
        assert(r@.map_values(|e: Edit| e@) =~= old(self)@.redo_result());
        r
    }
}

} // verus!
