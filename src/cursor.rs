use vstd::prelude::*;

use crate::position::{
    pos_le, pos_lt, pos_max, pos_min, spec_delete, spec_insert, BufferPosition, BufferRange,
};

verus! {

/// An anchor and a position; the selection is the range between the two.
#[derive(Clone, Copy, Debug, PartialEq, Eq, Structural)]
pub struct Cursor {
    pub anchor: BufferPosition,
    pub position: BufferPosition,
}

impl Cursor {
    pub open spec fn range(self) -> BufferRange {
        BufferRange { from: pos_min(self.anchor, self.position), to: pos_max(self.anchor, self.position) }
    }

    pub fn to_range(&self) -> (r: BufferRange)
        ensures
            r == self.range(),
    {
        BufferRange::between(self.anchor, self.position)
    }

    /// Moves both ends past text inserted over `range`.
    pub fn insert(&mut self, range: BufferRange)
        ensures
            final(self).anchor == spec_insert(old(self).anchor, range),
            final(self).position == spec_insert(old(self).position, range),
    {
        self.anchor = self.anchor.insert(range);
        self.position = self.position.insert(range);
    }

    /// Moves both ends over text deleted from `range`.
    pub fn delete(&mut self, range: BufferRange)
        ensures
            final(self).anchor == spec_delete(old(self).anchor, range),
            final(self).position == spec_delete(old(self).position, range),
    {
        self.anchor = self.anchor.delete(range);
        self.position = self.position.delete(range);
    }
}

/// Cursors in order, each selection ending before the next one starts.
pub open spec fn sorted_disjoint(cs: Seq<Cursor>) -> bool {
    forall|i: int| 0 <= i < cs.len() - 1 ==> pos_lt(#[trigger] cs[i].range().to, cs[i + 1].range().from)
}

/// Every end of every cursor of `out` is an end of some cursor of `input`.
pub open spec fn ends_from(out: Seq<Cursor>, input: Seq<Cursor>) -> bool {
    forall|i: int| 0 <= i < out.len() ==> is_end_of(input, #[trigger] out[i].anchor) && is_end_of(input, out[i].position)
}

/// Every cursor's anchor is its position.
pub open spec fn collapsed(cs: Seq<Cursor>) -> bool {
    forall|i: int| 0 <= i < cs.len() ==> (#[trigger] cs[i]).anchor == cs[i].position
}

/// The selection of `m` takes in that of `c`.
pub open spec fn covers(m: Cursor, c: Cursor) -> bool {
    pos_le(m.range().from, c.range().from) && pos_le(c.range().to, m.range().to)
}

/// `c` lies within some cursor of `out`.
pub open spec fn within_some(out: Seq<Cursor>, c: Cursor) -> bool {
    exists|x: int| 0 <= x < out.len() && #[trigger] covers(out[x], c)
}

/// Every cursor of `input` lies within some cursor of `out`.
pub open spec fn covered_by(input: Seq<Cursor>, out: Seq<Cursor>) -> bool {
    forall|i: int| 0 <= i < input.len() ==> within_some(out, #[trigger] input[i])
}

/// In a sorted list of disjoint selections, each one ends before any later
/// one starts.
pub proof fn lemma_sorted_disjoint_far(cs: Seq<Cursor>, a: int, b: int)
    requires
        sorted_disjoint(cs),
        0 <= a < b < cs.len(),
    ensures
        pos_lt(cs[a].range().to, cs[b].range().from),
    decreases b - a,
{
    if b > a + 1 {
        lemma_sorted_disjoint_far(cs, a + 1, b);
        assert(pos_lt(cs[a].range().to, cs[a + 1].range().from));
    }
}

pub open spec fn is_end_of(cs: Seq<Cursor>, p: BufferPosition) -> bool {
    exists|j: int| 0 <= j < cs.len() && (cs[j].anchor == p || cs[j].position == p)
}

/// The cursors of a buffer view, one of them the main cursor. Edits through
/// `clear`, `add` and `set` may leave them in any order, even empty;
/// `normalize` then sorts them, merges those whose selections touch, and puts
/// a cursor back if none is left.
pub struct CursorCollection {
    cursors: Vec<Cursor>,
    main_index: usize,
    saved_column_byte_indices: Vec<usize>,
}

impl View for CursorCollection {
    type V = Seq<Cursor>;

    closed spec fn view(&self) -> Seq<Cursor> {
        self.cursors@
    }
}

proof fn lemma_sorted_prefix(cs: Seq<Cursor>, k: int)
    requires
        forall|i: int| 0 <= i < k - 1 ==> pos_le(#[trigger] cs[i].range().from, cs[i + 1].range().from),
        0 <= k <= cs.len(),
    ensures
        forall|i: int, j: int| 0 <= i <= j < k ==> pos_le(#[trigger] cs[i].range().from, #[trigger] cs[j].range().from),
    decreases k,
{
    if k > 1 {
        lemma_sorted_prefix(cs, k - 1);
        assert forall|i: int, j: int| 0 <= i <= j < k implies pos_le(#[trigger] cs[i].range().from, #[trigger] cs[j].range().from) by {
            if j == k - 1 && i < j {
                let a = cs[i].range().from;
                let b = cs[k - 2].range().from;
                let c = cs[k - 1].range().from;
                assert(pos_le(a, b));
                assert(pos_le(b, c));
            }
        }
    }
}

impl CursorCollection {
    pub closed spec fn main_idx(&self) -> int {
        self.main_index as int
    }

    pub closed spec fn saved_columns(&self) -> Seq<usize> {
        self.saved_column_byte_indices@
    }

    pub open spec fn wf(&self) -> bool {
        self@.len() > 0 && 0 <= self.main_idx() < self@.len()
    }

    /// One cursor, at the start of the buffer.
    pub fn new() -> (r: Self)
        ensures
            r.wf(),
            r@ == seq![Cursor { anchor: BufferPosition { line_index: 0, column_byte_index: 0 }, position: BufferPosition { line_index: 0, column_byte_index: 0 } }],
            r.main_idx() == 0,
            sorted_disjoint(r@),
    {
        let mut cursors = Vec::new();
        cursors.push(Cursor { anchor: BufferPosition::zero(), position: BufferPosition::zero() });
        CursorCollection { cursors, main_index: 0, saved_column_byte_indices: Vec::new() }
    }

    /// An independent copy of the collection.
    pub fn duplicate(&self) -> (r: Self)
        ensures
            r@ == self@,
            r.main_idx() == self.main_idx(),
            r.saved_columns() == self.saved_columns(),
    {
        let mut cursors: Vec<Cursor> = Vec::new();
        let mut i: usize = 0;
        while i < self.cursors.len()
            invariant
                i <= self@.len(),
                cursors@ == self@.subrange(0, i as int),
            decreases self@.len() - i,
        {
            cursors.push(self.cursors[i]);
            i = i + 1;
        }
        assert(cursors@ =~= self@);
        let mut saved: Vec<usize> = Vec::new();
        let mut i: usize = 0;
        while i < self.saved_column_byte_indices.len()
            invariant
                i <= self.saved_columns().len(),
                saved@ == self.saved_columns().subrange(0, i as int),
            decreases self.saved_columns().len() - i,
        {
            saved.push(self.saved_column_byte_indices[i]);
            i = i + 1;
        }
        assert(saved@ =~= self.saved_columns());
        CursorCollection { cursors, main_index: self.main_index, saved_column_byte_indices: saved }
    }

    pub fn len(&self) -> (r: usize)
        ensures
            r == self@.len(),
    {
        self.cursors.len()
    }

    pub fn get(&self, index: usize) -> (r: Cursor)
        requires
            index < self@.len(),
        ensures
            r == self@[index as int],
    {
        self.cursors[index]
    }

    pub fn main_cursor_index(&self) -> (r: usize)
        ensures
            r == self.main_idx(),
    {
        self.main_index
    }

    pub fn main_cursor(&self) -> (r: Cursor)
        requires
            self.wf(),
        ensures
            r == self@[self.main_idx()],
    {
        self.cursors[self.main_index]
    }

    /// Removes every cursor; `normalize` puts one back if none is added.
    pub fn clear(&mut self)
        ensures
            final(self)@.len() == 0,
            final(self).main_idx() == 0,
            final(self).saved_columns() == old(self).saved_columns(),
    {
        self.cursors.clear();
        self.main_index = 0;
    }

    /// Adds a cursor, which becomes the main one.
    pub fn add(&mut self, cursor: Cursor)
        ensures
            final(self)@ == old(self)@.push(cursor),
            final(self).main_idx() == old(self)@.len(),
            final(self).saved_columns() == old(self).saved_columns(),
    {
        self.main_index = self.cursors.len();
        self.cursors.push(cursor);
    }

    pub fn set(&mut self, index: usize, cursor: Cursor)
        requires
            index < old(self)@.len(),
        ensures
            final(self)@ == old(self)@.update(index as int, cursor),
            final(self).main_idx() == old(self).main_idx(),
            final(self).saved_columns() == old(self).saved_columns(),
    {
        self.cursors.set(index, cursor);
    }

    /// Remembers each cursor's column, unless columns are already remembered:
    /// consecutive vertical motions keep the column they started from.
    pub fn save_column_byte_indices(&mut self)
        ensures
            final(self)@ == old(self)@,
            final(self).main_idx() == old(self).main_idx(),
            old(self).saved_columns().len() > 0 ==> final(self).saved_columns() == old(self).saved_columns(),
            old(self).saved_columns().len() == 0 ==> final(self).saved_columns() == old(self)@.map_values(
                |c: Cursor| c.position.column_byte_index,
            ),
    {
        if self.saved_column_byte_indices.len() == 0 {
            let mut i: usize = 0;
            while i < self.cursors.len()
                invariant
                    self@ == old(self)@,
                    self.main_idx() == old(self).main_idx(),
                    i <= self@.len(),
                    self.saved_columns() == old(self)@.subrange(0, i as int).map_values(
                        |c: Cursor| c.position.column_byte_index,
                    ),
                decreases self@.len() - i,
            {
                self.saved_column_byte_indices.push(self.cursors[i].position.column_byte_index);
                i = i + 1;
                assert(self.saved_columns() =~= old(self)@.subrange(0, i as int).map_values(
                    |c: Cursor| c.position.column_byte_index,
                ));
            }
            assert(old(self)@.subrange(0, i as int) =~= old(self)@);
        }
    }

    pub fn get_saved_column_byte_index(&self, index: usize) -> (r: Option<usize>)
        ensures
            r == (if index < self.saved_columns().len() { Some(self.saved_columns()[index as int]) } else { None }),
    {
        if index < self.saved_column_byte_indices.len() {
            Some(self.saved_column_byte_indices[index])
        } else {
            None
        }
    }

    /// Forgets the remembered columns, as any horizontal motion does.
    pub fn clear_saved_column_byte_indices(&mut self)
        ensures
            final(self)@ == old(self)@,
            final(self).main_idx() == old(self).main_idx(),
            final(self).saved_columns().len() == 0,
    {
        self.saved_column_byte_indices.clear();
    }

    /// Sorts the cursors, merges those whose selections touch or overlap (the
    /// merged cursor keeps the direction of the first), and finds the main
    /// cursor again by its position, falling back to the first cursor. With no
    /// cursor left, one is put at the start of the buffer.
    #[verifier::rlimit(100)]
    #[verifier::spinoff_prover]
    pub fn normalize(&mut self)
        ensures
            final(self).wf(),
            sorted_disjoint(final(self)@),
            old(self)@.len() > 0 ==> ends_from(final(self)@, old(self)@),
            old(self)@.len() > 0 ==> final(self)@.len() <= old(self)@.len(),
            old(self)@.len() == 0 ==> final(self)@ == seq![Cursor { anchor: BufferPosition { line_index: 0, column_byte_index: 0 }, position: BufferPosition { line_index: 0, column_byte_index: 0 } }],
            final(self).saved_columns() == old(self).saved_columns(),
            (old(self)@.len() > 0 && old(self).main_idx() < old(self)@.len() && exists|i: int| 0 <= i < final(self)@.len() && final(self)@[i].position == old(self)@[old(self).main_idx()].position)
                ==> final(self)@[final(self).main_idx()].position == old(self)@[old(self).main_idx()].position,
            sorted_disjoint(old(self)@) && old(self).main_idx() < old(self)@.len()
                ==> final(self)@ == old(self)@ && final(self).main_idx() == old(self).main_idx(),
            collapsed(old(self)@) ==> collapsed(final(self)@),
            covered_by(old(self)@, final(self)@),
    {
        if self.cursors.len() == 0 {
            self.cursors.push(Cursor { anchor: BufferPosition::zero(), position: BufferPosition::zero() });
            self.main_index = 0;
            return;
        }
        let ghost orig = self@;
        let main_position = if self.main_index < self.cursors.len() {
            self.cursors[self.main_index].position
        } else {
            self.cursors[0].position
        };
        sort_by_start(&mut self.cursors);
        let ghost sorted = self.cursors@;
        let merged = merge_sorted(&self.cursors);
        proof {
            lemma_rearranged(orig, sorted, merged@);
        }
        let main_index = find_position(&merged, main_position);
        proof {
            if sorted_disjoint(orig) && self.main_index < orig.len() {
                lemma_same_main(orig, self.main_index as int, main_index as int);
            }
        }
        self.cursors = merged;
        self.main_index = main_index;
    }
}

proof fn lemma_rearranged(orig: Seq<Cursor>, sorted: Seq<Cursor>, merged: Seq<Cursor>)
    requires
        forall|x: Cursor| orig.contains(x) <==> #[trigger] sorted.contains(x),
        ends_from(merged, sorted),
        covered_by(sorted, merged),
        collapsed(sorted) ==> collapsed(merged),
    ensures
        ends_from(merged, orig),
        covered_by(orig, merged),
        collapsed(orig) ==> collapsed(merged),
{
    assert forall|i: int| 0 <= i < merged.len() implies is_end_of(orig, (#[trigger] merged[i]).anchor) && is_end_of(orig, merged[i].position) by {
        assert(is_end_of(sorted, merged[i].anchor));
        assert(is_end_of(sorted, merged[i].position));
        let j1 = choose|j: int| 0 <= j < sorted.len() && (sorted[j].anchor == merged[i].anchor || sorted[j].position == merged[i].anchor);
        let j2 = choose|j: int| 0 <= j < sorted.len() && (sorted[j].anchor == merged[i].position || sorted[j].position == merged[i].position);
        assert(sorted.contains(sorted[j1]));
        assert(sorted.contains(sorted[j2]));
        assert(orig.contains(sorted[j1]));
        assert(orig.contains(sorted[j2]));
    }
    assert forall|i: int| 0 <= i < orig.len() implies within_some(merged, #[trigger] orig[i]) by {
        assert(orig.contains(orig[i]));
        assert(sorted.contains(orig[i]));
        let a = choose|a: int| 0 <= a < sorted.len() && sorted[a] == orig[i];
        assert(within_some(merged, sorted[a]));
    }
    if collapsed(orig) {
        assert forall|i: int| 0 <= i < sorted.len() implies (#[trigger] sorted[i]).anchor == sorted[i].position by {
            assert(sorted.contains(sorted[i]));
            assert(orig.contains(sorted[i]));
        }
    }
}

proof fn lemma_same_main(cs: Seq<Cursor>, main: int, found: int)
    requires
        sorted_disjoint(cs),
        0 <= main < cs.len(),
        0 <= found < cs.len(),
        cs[found].position == cs[main].position,
    ensures
        found == main,
{
    if found < main {
        lemma_sorted_disjoint_far(cs, found, main);
    } else if main < found {
        lemma_sorted_disjoint_far(cs, main, found);
    }
}

/// Sorts cursors by where their selections start; already sorted disjoint
/// cursors stay as they are.
fn sort_by_start(v: &mut Vec<Cursor>)
    ensures
        final(v)@.len() == old(v)@.len(),
        forall|a: int, b: int| 0 <= a <= b < final(v)@.len() ==> pos_le(#[trigger] final(v)@[a].range().from, #[trigger] final(v)@[b].range().from),
        forall|x: Cursor| old(v)@.contains(x) <==> #[trigger] final(v)@.contains(x),
        sorted_disjoint(old(v)@) ==> final(v)@ == old(v)@,
{
    let ghost orig = v@;
    let n = v.len();
    if n == 0 {
        return;
    }
    let mut i: usize = 1;
    while i < n
        invariant
            1 <= i <= n,
            n == v@.len(),
            n == orig.len(),
            forall|a: int| 0 <= a < i - 1 ==> pos_le(#[trigger] v@[a].range().from, v@[a + 1].range().from),
            forall|x: Cursor| orig.contains(x) <==> #[trigger] v@.contains(x),
            sorted_disjoint(orig) ==> v@ == orig,
        decreases n - i,
    {
        let mut j = i;
        while j > 0 && v[j].to_range().from.is_before(&v[j - 1].to_range().from)
            invariant
                0 <= j <= i < n,
                n == v@.len(),
                n == orig.len(),
                forall|a: int| 0 <= a < i ==> a != j - 1 && a != j ==> pos_le(#[trigger] v@[a].range().from, v@[a + 1].range().from),
                j > 0 && j < i ==> pos_le(v@[j - 1].range().from, v@[j + 1].range().from),
                j < i ==> pos_le(v@[j as int].range().from, v@[j + 1].range().from),
                forall|x: Cursor| orig.contains(x) <==> #[trigger] v@.contains(x),
                sorted_disjoint(orig) ==> v@ == orig && j == i,
            decreases j,
        {
            proof {
                if sorted_disjoint(orig) {
                    assert(pos_lt(orig[j - 1].range().to, orig[j as int].range().from));
                }
            }
            let a = v[j - 1];
            let b = v[j];
            let ghost before = v@;
            v.set(j - 1, b);
            v.set(j, a);
            proof {
                let after = v@;
                assert forall|x: Cursor| after.contains(x) <==> before.contains(x) by {
                    if after.contains(x) {
                        let w = choose|w: int| 0 <= w < after.len() && after[w] == x;
                        if w == j - 1 { assert(before[j as int] == x); } else if w == j { assert(before[j - 1] == x); } else { assert(before[w] == x); }
                    }
                    if before.contains(x) {
                        let w = choose|w: int| 0 <= w < before.len() && before[w] == x;
                        if w == j - 1 { assert(after[j as int] == x); } else if w == j { assert(after[j - 1] == x); } else { assert(after[w] == x); }
                    }
                }
            }
            j = j - 1;
        }
        i = i + 1;
    }
    proof {
        lemma_sorted_prefix(v@, n as int);
    }
}

/// Merges cursors sorted by start whose selections touch or overlap; a
/// merged cursor keeps the direction of the first.
#[verifier::rlimit(100)]
#[verifier::spinoff_prover]
fn merge_sorted(v: &Vec<Cursor>) -> (r: Vec<Cursor>)
    requires
        v@.len() > 0,
        forall|a: int, b: int| 0 <= a <= b < v@.len() ==> pos_le(#[trigger] v@[a].range().from, #[trigger] v@[b].range().from),
    ensures
        r@.len() > 0,
        r@.len() <= v@.len(),
        sorted_disjoint(r@),
        ends_from(r@, v@),
        covered_by(v@, r@),
        sorted_disjoint(v@) ==> r@ == v@,
        collapsed(v@) ==> collapsed(r@),
{
    let n = v.len();
    let mut merged: Vec<Cursor> = Vec::new();
    let mut k: usize = 0;
    while k < n
        invariant
            k <= n,
            n == v@.len(),
            forall|a: int, b: int| 0 <= a <= b < n ==> pos_le(#[trigger] v@[a].range().from, #[trigger] v@[b].range().from),
            sorted_disjoint(merged@),
            ends_from(merged@, v@),
            merged@.len() <= k,
            k > 0 ==> merged@.len() > 0,
            k > 0 ==> forall|b: int| k <= b < n ==> pos_le(merged@.last().range().from, #[trigger] v@[b].range().from),
            sorted_disjoint(v@) ==> merged@ == v@.subrange(0, k as int),
            collapsed(v@) ==> collapsed(merged@),
            forall|a: int| 0 <= a < k ==> within_some(merged@, #[trigger] v@[a]),
        decreases n - k,
    {
        let c = v[k];
        let r = c.to_range();
        assert(is_end_of(v@, c.anchor) && is_end_of(v@, c.position));
        if merged.len() > 0 && r.from.is_at_or_before(&merged[merged.len() - 1].to_range().to) {
            let last = merged[merged.len() - 1];
            let lr = last.to_range();
            let to = if lr.to.is_before(&r.to) { r.to } else { lr.to };
            let m = if last.anchor.is_at_or_before(&last.position) {
                Cursor { anchor: lr.from, position: to }
            } else {
                Cursor { anchor: to, position: lr.from }
            };
            let ghost mb = merged@;
            let li = merged.len() - 1;
            proof {
                if sorted_disjoint(v@) {
                    assert(mb.last() == v@[k - 1]);
                    assert(pos_lt(v@[k - 1].range().to, v@[k as int].range().from));
                }
            }
            merged.set(li, m);
            proof {
                assert(is_end_of(v@, lr.from));
                assert(is_end_of(v@, lr.to));
                assert(is_end_of(v@, to));
                assert forall|x: int| 0 <= x < merged@.len() - 1 implies pos_lt(#[trigger] merged@[x].range().to, merged@[x + 1].range().from) by {
                    assert(mb[x] == merged@[x]);
                    if x + 1 < merged@.len() - 1 {
                        assert(mb[x + 1] == merged@[x + 1]);
                    }
                }
                assert(covers(m, last));
                assert(covers(m, c));
                assert forall|a: int| 0 <= a < k + 1 implies within_some(merged@, #[trigger] v@[a]) by {
                    if a == k {
                        assert(covers(merged@[li as int], v@[a]));
                    } else {
                        assert(within_some(mb, v@[a]));
                        let x = choose|x: int| 0 <= x < mb.len() && #[trigger] covers(mb[x], v@[a]);
                        if x == li {
                            assert(covers(merged@[li as int], v@[a]));
                        } else {
                            assert(covers(merged@[x], v@[a]));
                        }
                    }
                }
                if collapsed(v@) {
                    assert(mb[li as int].anchor == mb[li as int].position);
                    assert(c.anchor == c.position);
                    assert forall|x: int| 0 <= x < merged@.len() implies (#[trigger] merged@[x]).anchor == merged@[x].position by {
                        if x != li {
                            assert(merged@[x] == mb[x]);
                        }
                    }
                }
            }
        } else {
            let ghost mb = merged@;
            merged.push(c);
            proof {
                assert(covers(c, c));
                assert forall|a: int| 0 <= a < k + 1 implies within_some(merged@, #[trigger] v@[a]) by {
                    if a == k {
                        assert(covers(merged@[mb.len() as int], v@[a]));
                    } else {
                        assert(within_some(mb, v@[a]));
                        let x = choose|x: int| 0 <= x < mb.len() && #[trigger] covers(mb[x], v@[a]);
                        assert(merged@[x] == mb[x]);
                    }
                }
                if sorted_disjoint(v@) {
                    assert(merged@ =~= v@.subrange(0, k + 1));
                }
                if collapsed(v@) {
                    assert forall|x: int| 0 <= x < merged@.len() implies (#[trigger] merged@[x]).anchor == merged@[x].position by {
                        if x < mb.len() {
                            assert(merged@[x] == mb[x]);
                        }
                    }
                }
            }
        }
        k = k + 1;
    }
    proof {
        if sorted_disjoint(v@) {
            assert(v@.subrange(0, n as int) =~= v@);
        }
    }
    merged
}

/// The last index whose cursor is at `position`, or 0.
fn find_position(cs: &Vec<Cursor>, position: BufferPosition) -> (r: usize)
    requires
        cs@.len() > 0,
    ensures
        r < cs@.len(),
        (exists|y: int| 0 <= y < cs@.len() && cs@[y].position == position) ==> cs@[r as int].position == position,
{
    let mut main_index: usize = 0;
    let mut x: usize = 0;
    while x < cs.len()
        invariant
            x <= cs@.len(),
            main_index < cs@.len(),
            (exists|y: int| 0 <= y < x && cs@[y].position == position) ==> cs@[main_index as int].position == position,
        decreases cs@.len() - x,
    {
        if cs[x].position == position {
            main_index = x;
        }
        x = x + 1;
    }
    main_index
}

} // verus!
