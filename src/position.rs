use vstd::prelude::*;

verus! {

/// A place in a buffer: a line index and a byte offset into that line.
#[derive(Clone, Copy, Debug, PartialEq, Eq, Structural)]
pub struct BufferPosition {
    pub line_index: usize,
    pub column_byte_index: usize,
}

/// Lexicographic order on positions: first by line, then by column.
pub open spec fn pos_lt(a: BufferPosition, b: BufferPosition) -> bool {
    a.line_index < b.line_index || (a.line_index == b.line_index && a.column_byte_index
        < b.column_byte_index)
}

pub open spec fn pos_le(a: BufferPosition, b: BufferPosition) -> bool {
    pos_lt(a, b) || a == b
}

pub open spec fn pos_min(a: BufferPosition, b: BufferPosition) -> BufferPosition {
    if pos_le(a, b) {
        a
    } else {
        b
    }
}

pub open spec fn pos_max(a: BufferPosition, b: BufferPosition) -> BufferPosition {
    if pos_le(a, b) {
        b
    } else {
        a
    }
}

/// How many lines `r` spans beyond its first one (none for a reversed range).
pub open spec fn line_delta(r: BufferRange) -> int {
    if r.to.line_index >= r.from.line_index {
        r.to.line_index - r.from.line_index
    } else {
        0
    }
}

pub open spec fn sat_add(a: usize, b: int) -> usize {
    if a + b > usize::MAX {
        usize::MAX
    } else {
        (a + b) as usize
    }
}

/// Where `p` goes once the text that `r` spans has been inserted.
pub open spec fn spec_insert(p: BufferPosition, r: BufferRange) -> BufferPosition {
    if pos_lt(p, r.from) {
        p
    } else if p.line_index == r.from.line_index {
        BufferPosition {
            line_index: r.to.line_index,
            column_byte_index: sat_add(r.to.column_byte_index, p.column_byte_index - r.from.column_byte_index),
        }
    } else {
        BufferPosition {
            line_index: sat_add(p.line_index, line_delta(r)),
            column_byte_index: p.column_byte_index,
        }
    }
}

/// Where `p` goes once the text that `r` spans has been deleted.
pub open spec fn spec_delete(p: BufferPosition, r: BufferRange) -> BufferPosition {
    if pos_le(p, r.from) {
        p
    } else if pos_lt(p, r.to) {
        r.from
    } else if p.line_index == r.to.line_index {
        BufferPosition {
            line_index: r.from.line_index,
            column_byte_index: sat_add(r.from.column_byte_index, p.column_byte_index - r.to.column_byte_index),
        }
    } else {
        BufferPosition {
            line_index: (p.line_index - line_delta(r)) as usize,
            column_byte_index: p.column_byte_index,
        }
    }
}

/// The insertion of `r` moves `p` without reaching the largest `usize`.
pub open spec fn insert_fits(p: BufferPosition, r: BufferRange) -> bool {
    &&& r.to.column_byte_index + p.column_byte_index - r.from.column_byte_index <= usize::MAX
    &&& p.line_index + r.to.line_index - r.from.line_index <= usize::MAX
}

/// The deletion of `r` moves `p` without reaching the largest `usize`.
pub open spec fn delete_fits(p: BufferPosition, r: BufferRange) -> bool {
    r.from.column_byte_index + p.column_byte_index - r.to.column_byte_index <= usize::MAX
}

impl BufferPosition {
    pub fn zero() -> (r: Self)
        ensures
            r.line_index == 0,
            r.column_byte_index == 0,
    {
        BufferPosition { line_index: 0, column_byte_index: 0 }
    }

    pub fn line_col(line_index: usize, column_byte_index: usize) -> (r: Self)
        ensures
            r.line_index == line_index,
            r.column_byte_index == column_byte_index,
    {
        BufferPosition { line_index, column_byte_index }
    }

    /// Strictly before `other` in buffer order.
    pub fn is_before(&self, other: &BufferPosition) -> (r: bool)
        ensures
            r == pos_lt(*self, *other),
    {
        self.line_index < other.line_index || (self.line_index == other.line_index
            && self.column_byte_index < other.column_byte_index)
    }

    /// Before `other` in buffer order, or equal to it.
    pub fn is_at_or_before(&self, other: &BufferPosition) -> (r: bool)
        ensures
            r == pos_le(*self, *other),
    {
        self.is_before(other) || (self.line_index == other.line_index && self.column_byte_index
            == other.column_byte_index)
    }

    /// Moves the position past text inserted over `range`: positions at or after
    /// `range.from` shift by the inserted span, earlier ones stay.
    pub fn insert(self, range: BufferRange) -> (r: Self)
        ensures
            r == spec_insert(self, range),
    {
        if self.is_before(&range.from) {
            self
        } else if self.line_index == range.from.line_index {
            BufferPosition {
                line_index: range.to.line_index,
                column_byte_index: range.to.column_byte_index.saturating_add(
                    self.column_byte_index - range.from.column_byte_index,
                ),
            }
        } else {
            BufferPosition {
                line_index: self.line_index.saturating_add(
                    range.to.line_index.saturating_sub(range.from.line_index),
                ),
                column_byte_index: self.column_byte_index,
            }
        }
    }

    /// Moves the position over text deleted from `range`: positions inside it
    /// collapse to `range.from`, later ones shift back.
    pub fn delete(self, range: BufferRange) -> (r: Self)
        ensures
            r == spec_delete(self, range),
    {
        if self.is_at_or_before(&range.from) {
            self
        } else if self.is_before(&range.to) {
            range.from
        } else if self.line_index == range.to.line_index {
            BufferPosition {
                line_index: range.from.line_index,
                column_byte_index: range.from.column_byte_index.saturating_add(
                    self.column_byte_index - range.to.column_byte_index,
                ),
            }
        } else {
            BufferPosition {
                line_index: self.line_index - range.to.line_index.saturating_sub(
                    range.from.line_index,
                ),
                column_byte_index: self.column_byte_index,
            }
        }
    }
}

/// A half-open span of a buffer, from `from` up to `to`.
#[derive(Clone, Copy, Debug, PartialEq, Eq, Structural)]
pub struct BufferRange {
    pub from: BufferPosition,
    pub to: BufferPosition,
}

impl BufferRange {
    pub open spec fn wf(self) -> bool {
        pos_le(self.from, self.to)
    }

    /// The range between two positions, in whichever order they are given.
    pub fn between(a: BufferPosition, b: BufferPosition) -> (r: Self)
        ensures
            r.from == pos_min(a, b),
            r.to == pos_max(a, b),
            r.wf(),
    {
        if a.is_at_or_before(&b) {
            BufferRange { from: a, to: b }
        } else {
            BufferRange { from: b, to: a }
        }
    }
}

impl Default for BufferRange {
    fn default() -> (r: Self)
        ensures
            r.from.line_index == 0 && r.from.column_byte_index == 0 && r.to == r.from,
    {
        BufferRange { from: BufferPosition::zero(), to: BufferPosition::zero() }
    }
}

/// Inserting a range and then deleting that same range leaves every position
/// where it was.
pub proof fn lemma_insert_then_delete(p: BufferPosition, r: BufferRange)
    requires
        r.wf(),
        insert_fits(p, r),
    ensures
        spec_delete(spec_insert(p, r), r) == p,
{
}

/// Deleting a range and then inserting it again leaves every position outside
/// the range where it was.
pub proof fn lemma_delete_then_insert_outside(p: BufferPosition, r: BufferRange)
    requires
        r.wf(),
        pos_lt(p, r.from) || pos_le(r.to, p),
        delete_fits(p, r),
    ensures
        spec_insert(spec_delete(p, r), r) == p,
{
}

/// A position inside a deleted range collapses to the range's start; inserting
/// the range again puts it at the range's end.
pub proof fn lemma_delete_inside(p: BufferPosition, r: BufferRange)
    requires
        r.wf(),
        pos_le(r.from, p),
        pos_lt(p, r.to),
    ensures
        spec_delete(p, r) == r.from,
        spec_insert(spec_delete(p, r), r) == r.to,
{
}

} // verus!
