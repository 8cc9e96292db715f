use vstd::prelude::*;
use vstd::string::StringSliceAdditionalSpecFns;
use vstd::utf8::encode_utf8;

use crate::bytes::{copy_range, push_all, str_bytes};
use crate::history::{Edit, EditKind, EditView, History, HistoryState, HistoryView};
use crate::position::{pos_le, BufferPosition, BufferRange};

verus! {

pub const NEWLINE: u8 = 10;

/// A byte that continues a multi-byte UTF-8 sequence.
pub open spec fn is_continuation(b: u8) -> bool {
    0x80 <= b <= 0xbf
}

/// Whether byte offset `i` of `line` starts a char, or is the line's end.
pub open spec fn is_boundary(line: Seq<u8>, i: int) -> bool {
    i == 0 || i == line.len() || (0 < i < line.len() && !is_continuation(line[i]))
}

/// The number of chars in `line`: the bytes that start one.
pub open spec fn char_count_of(line: Seq<u8>) -> nat
    decreases line.len(),
{
    if line.len() == 0 {
        0
    } else {
        char_count_of(line.drop_last()) + if is_continuation(line.last()) { 0nat } else { 1nat }
    }
}

pub open spec fn no_newline(line: Seq<u8>) -> bool {
    forall|i: int| 0 <= i < line.len() ==> line[i] != NEWLINE
}

/// `t` cut at each newline byte; the newlines themselves are dropped.
pub open spec fn split_lines(t: Seq<u8>) -> Seq<Seq<u8>>
    decreases t.len(),
{
    if t.len() == 0 {
        seq![Seq::empty()]
    } else {
        let s = split_lines(t.drop_last());
        if t.last() == NEWLINE {
            s.push(Seq::empty())
        } else {
            s.update(s.len() - 1, s.last().push(t.last()))
        }
    }
}

/// The lines joined with a newline byte between each two.
pub open spec fn join_lines(ls: Seq<Seq<u8>>) -> Seq<u8>
    decreases ls.len(),
{
    if ls.len() == 0 {
        Seq::empty()
    } else if ls.len() == 1 {
        ls[0]
    } else {
        join_lines(ls.drop_last()) + seq![NEWLINE] + ls.last()
    }
}

pub proof fn lemma_split_lines(t: Seq<u8>)
    ensures
        split_lines(t).len() >= 1,
        split_lines(t).len() <= t.len() + 1,
        forall|i: int| 0 <= i < split_lines(t).len() ==> (#[trigger] split_lines(t)[i]).len() <= t.len(),
        forall|i: int| 0 <= i < split_lines(t).len() ==> no_newline(#[trigger] split_lines(t)[i]),
    decreases t.len(),
{
    if t.len() > 0 {
        lemma_split_lines(t.drop_last());
    }
}

/// The largest char boundary of `line` at or below `c`.
pub open spec fn round_down(line: Seq<u8>, c: int) -> int
    decreases c,
{
    if c <= 0 {
        0
    } else if c >= line.len() {
        line.len() as int
    } else if !is_continuation(line[c]) {
        c
    } else {
        round_down(line, c - 1)
    }
}

/// One line of a buffer, without its newline.
pub struct BufferLine {
    pub text: Vec<u8>,
}

impl BufferLine {
    pub fn new(text: String) -> (r: Self)
        ensures
            r.text@ == encode_utf8(text@),
    {
        BufferLine { text: str_bytes(text.as_str()) }
    }

    pub fn char_count(&self) -> (r: usize)
        ensures
            r == char_count_of(self.text@),
    {
        let mut n: usize = 0;
        let mut i: usize = 0;
        while i < self.text.len()
            invariant
                i <= self.text@.len(),
                n == char_count_of(self.text@.subrange(0, i as int)),
                n <= i,
            decreases self.text@.len() - i,
        {
            assert(self.text@.subrange(0, i + 1).drop_last() == self.text@.subrange(0, i as int));
            if self.text[i] < 0x80 || self.text[i] > 0xbf {
                n = n + 1;
            }
            i = i + 1;
        }
        assert(self.text@.subrange(0, i as int) == self.text@);
        n
    }
}

pub open spec fn lines_view(v: Seq<BufferLine>) -> Seq<Seq<u8>> {
    v.map_values(|l: BufferLine| l.text@)
}

/// The text of a buffer as a non-empty sequence of lines.
pub struct BufferContent {
    lines: Vec<BufferLine>,
}

impl View for BufferContent {
    type V = Seq<Seq<u8>>;

    closed spec fn view(&self) -> Seq<Seq<u8>> {
        lines_view(self.lines@)
    }
}

pub open spec fn content_wf(ls: Seq<Seq<u8>>) -> bool {
    ls.len() >= 1 && forall|i: int| 0 <= i < ls.len() ==> no_newline(#[trigger] ls[i])
}

/// `p` moved onto the content: onto its last line at most, and onto a char
/// boundary no further than the line's end.
pub open spec fn spec_clamp(ls: Seq<Seq<u8>>, p: BufferPosition) -> BufferPosition {
    let l = if p.line_index >= ls.len() { (ls.len() - 1) as usize } else { p.line_index };
    BufferPosition { line_index: l, column_byte_index: round_down(ls[l as int], p.column_byte_index as int) as usize }
}

/// The lines after inserting `t` at `p` (a clamped position).
pub open spec fn spec_insert_text(ls: Seq<Seq<u8>>, p: BufferPosition, t: Seq<u8>) -> Seq<Seq<u8>> {
    let l = p.line_index as int;
    let line = ls[l];
    let c = p.column_byte_index as int;
    ls.subrange(0, l) + split_lines(line.subrange(0, c) + t + line.subrange(c, line.len() as int))
        + ls.subrange(l + 1, ls.len() as int)
}

/// Where the text inserted at `p` (a clamped position) ends.
pub open spec fn spec_insert_end(ls: Seq<Seq<u8>>, p: BufferPosition, t: Seq<u8>) -> BufferPosition {
    let s = split_lines(ls[p.line_index as int].subrange(0, p.column_byte_index as int) + t);
    BufferPosition { line_index: (p.line_index + s.len() - 1) as usize, column_byte_index: s.last().len() as usize }
}

/// The text between two clamped positions `f <= t`.
pub open spec fn spec_range_text(ls: Seq<Seq<u8>>, f: BufferPosition, t: BufferPosition) -> Seq<u8> {
    let fl = f.line_index as int;
    let tl = t.line_index as int;
    if fl == tl {
        ls[fl].subrange(f.column_byte_index as int, t.column_byte_index as int)
    } else {
        join_lines(
            ls.subrange(fl, tl + 1)
                .update(0, ls[fl].subrange(f.column_byte_index as int, ls[fl].len() as int))
                .update(tl - fl, ls[tl].subrange(0, t.column_byte_index as int)),
        )
    }
}

/// The lines once the text between two clamped positions `f <= t` is gone.
pub open spec fn spec_delete_text(ls: Seq<Seq<u8>>, f: BufferPosition, t: BufferPosition) -> Seq<Seq<u8>> {
    let fl = f.line_index as int;
    let tl = t.line_index as int;
    ls.subrange(0, fl) + seq![
        ls[fl].subrange(0, f.column_byte_index as int) + ls[tl].subrange(t.column_byte_index as int, ls[tl].len() as int),
    ] + ls.subrange(tl + 1, ls.len() as int)
}

/// A clamped position lies on a line of the content and on a char boundary.
pub open spec fn valid_position(ls: Seq<Seq<u8>>, p: BufferPosition) -> bool {
    p.line_index < ls.len() && p.column_byte_index <= ls[p.line_index as int].len()
        && is_boundary(ls[p.line_index as int], p.column_byte_index as int)
}

pub proof fn lemma_round_down(line: Seq<u8>, c: int)
    ensures
        0 <= round_down(line, c) <= line.len(),
        c >= 0 ==> round_down(line, c) <= c,
        is_boundary(line, round_down(line, c)),
    decreases c,
{
    if c > 0 && c < line.len() && is_continuation(line[c]) {
        lemma_round_down(line, c - 1);
    }
}

/// Appends to `mid` and `cur` the lines of `s[start..end]`, continuing the
/// split of `s[..start]` that they hold.
fn scan_lines(s: &[u8], start: usize, end: usize, mid: &mut Vec<BufferLine>, cur: &mut Vec<u8>)
    requires
        start <= end <= s@.len(),
        lines_view(old(mid)@).push(old(cur)@) == split_lines(s@.subrange(0, start as int)),
    ensures
        lines_view(final(mid)@).push(final(cur)@) == split_lines(s@.subrange(0, end as int)),
        final(mid)@.len() >= old(mid)@.len(),
{
    let mut i = start;
    while i < end
        invariant
            start <= i <= end <= s@.len(),
            lines_view(mid@).push(cur@) == split_lines(s@.subrange(0, i as int)),
            mid@.len() >= old(mid)@.len(),
        decreases end - i,
    {
        let ghost before = s@.subrange(0, i as int);
        let ghost mid0 = mid@;
        let ghost cur0 = cur@;
        assert(s@.subrange(0, i + 1).drop_last() == before);
        assert(s@.subrange(0, i + 1).last() == s@[i as int]);
        proof {
            lemma_split_lines(before);
        }
        if s[i] == NEWLINE {
            let line = cur.split_off(0);
            assert(line@ =~= cur0);
            assert(cur@ =~= Seq::<u8>::empty());
            mid.push(BufferLine { text: line });
            assert(lines_view(mid@) =~= lines_view(mid0).push(cur0));
            assert(lines_view(mid@).push(cur@) =~= split_lines(before).push(Seq::empty()));
        } else {
            cur.push(s[i]);
            assert(lines_view(mid@) =~= lines_view(mid0));
            assert(lines_view(mid@).push(cur@) =~= split_lines(before).update(
                split_lines(before).len() - 1,
                split_lines(before).last().push(s@[i as int]),
            ));
        }
        i = i + 1;
    }
}

impl BufferContent {
    pub open spec fn wf(&self) -> bool {
        content_wf(self@)
    }

    /// A content of one empty line.
    pub fn new() -> (r: Self)
        ensures
            r@ == seq![Seq::<u8>::empty()],
            r.wf(),
    {
        let mut lines: Vec<BufferLine> = Vec::new();
        lines.push(BufferLine { text: Vec::new() });
        let r = BufferContent { lines };
        assert(r@ =~= seq![Seq::<u8>::empty()]);
        r
    }

    /// A content holding `text`, its lines cut at each newline.
    pub fn from_str(text: &str) -> (r: Self)
        ensures
            r.wf(),
            r@ == split_lines(text.spec_bytes()),
    {
        let mut this = Self::new();
        let _ = this.insert_text(BufferPosition::zero(), text);
        assert(Seq::<u8>::empty().subrange(0, 0) + text.spec_bytes() + Seq::<u8>::empty().subrange(0, 0)
            =~= text.spec_bytes());
        assert(this@ =~= split_lines(text.spec_bytes()));
        this
    }

    pub fn line_count(&self) -> (r: usize)
        ensures
            r == self@.len(),
    {
        self.lines.len()
    }

    pub fn lines(&self) -> (r: &Vec<BufferLine>)
        ensures
            lines_view(r@) == self@,
    {
        &self.lines
    }

    pub fn line(&self, index: usize) -> (r: &BufferLine)
        requires
            index < self@.len(),
        ensures
            r.text@ == self@[index as int],
    {
        &self.lines[index]
    }

    /// Appends the content to `out`: the lines joined by newlines, with none
    /// after the last.
    pub fn write(&self, out: &mut Vec<u8>)
        requires
            self.wf(),
        ensures
            final(out)@ == old(out)@ + join_lines(self@),
    {
        let mut i: usize = 0;
        while i < self.lines.len()
            invariant
                self.wf(),
                i <= self@.len(),
                out@ == old(out)@ + join_lines(self@.subrange(0, i as int)),
            decreases self@.len() - i,
        {
            assert(self@.subrange(0, i + 1).drop_last() =~= self@.subrange(0, i as int));
            if i > 0 {
                out.push(NEWLINE);
            }
            push_all(out, self.lines[i].text.as_slice());
            i = i + 1;
            assert(out@ =~= old(out)@ + join_lines(self@.subrange(0, i as int)));
        }
        assert(self@.subrange(0, i as int) =~= self@);
    }

    /// Moves `position` onto the content: onto the last line at most, and
    /// onto a char boundary no further than the line's end.
    pub fn clamp_position(&self, position: &mut BufferPosition)
        requires
            self.wf(),
        ensures
            *final(position) == spec_clamp(self@, *old(position)),
            valid_position(self@, *final(position)),
    {
        let line_count = self.lines.len();
        let l = if position.line_index >= line_count {
            line_count - 1
        } else {
            position.line_index
        };
        let line = &self.lines[l].text;
        proof {
            lemma_round_down(line@, old(position).column_byte_index as int);
        }
        let mut c = position.column_byte_index;
        if c >= line.len() {
            c = line.len();
        } else {
            while c > 0 && line[c] >= 0x80 && line[c] <= 0xbf
                invariant
                    c < line@.len(),
                    round_down(line@, c as int) == round_down(line@, old(position).column_byte_index as int),
                decreases c,
            {
                c = c - 1;
            }
        }
        position.line_index = l;
        position.column_byte_index = c;
    }

    /// Inserts `text` at `position` (clamped first) and returns the range the
    /// new text occupies.
    pub fn insert_text(&mut self, position: BufferPosition, text: &str) -> (r: BufferRange)
        requires
            old(self).wf(),
        ensures
            final(self).wf(),
            r.from == spec_clamp(old(self)@, position),
            r.to == spec_insert_end(old(self)@, r.from, text.spec_bytes()),
            final(self)@ == spec_insert_text(old(self)@, r.from, text.spec_bytes()),
    {
        self.insert_bytes(position, text.as_bytes())
    }

    /// Inserts the bytes `text` at `position` (clamped first), each newline
    /// byte starting a new line, and returns the range they occupy.
    pub fn insert_bytes(&mut self, position: BufferPosition, text: &[u8]) -> (r: BufferRange)
        requires
            old(self).wf(),
        ensures
            final(self).wf(),
            r.from == spec_clamp(old(self)@, position),
            r.to == spec_insert_end(old(self)@, r.from, text@),
            final(self)@ == spec_insert_text(old(self)@, r.from, text@),
    {
        let mut p = position;
        self.clamp_position(&mut p);
        let l = p.line_index;
        let c = p.column_byte_index;
        let tb = text;
        let ghost ls = self@;
        let ghost line = ls[l as int];
        let mut s = copy_range(self.lines[l].text.as_slice(), 0, c);
        push_all(&mut s, tb);
        let mark = s.len();
        let suffix = copy_range(self.lines[l].text.as_slice(), c, self.lines[l].text.len());
        push_all(&mut s, suffix.as_slice());
        let ghost whole = line.subrange(0, c as int) + text@ + line.subrange(c as int, line.len() as int);
        assert(s@ =~= whole);
        assert(s@.subrange(0, mark as int) =~= line.subrange(0, c as int) + text@);
        let mut mid: Vec<BufferLine> = Vec::new();
        let mut cur: Vec<u8> = Vec::new();
        assert(lines_view(mid@).push(cur@) =~= split_lines(s@.subrange(0, 0)));
        scan_lines(s.as_slice(), 0, mark, &mut mid, &mut cur);
        let k = mid.len();
        let end_col = cur.len();
        scan_lines(s.as_slice(), mark, s.len(), &mut mid, &mut cur);
        mid.push(BufferLine { text: cur });
        assert(s@.subrange(0, s@.len() as int) =~= s@);
        assert(lines_view(mid@) == split_lines(whole));
        proof {
            lemma_split_lines(whole);
            lemma_split_lines(s@.subrange(0, mark as int));
        }
        let n = self.lines.len();
        assert(l < n);
        let mut tail = self.lines.split_off(l + 1);
        self.lines.pop();
        self.lines.append(&mut mid);
        self.lines.append(&mut tail);
        assert(self@ =~= spec_insert_text(ls, p, text@));
        let total = self.lines.len();
        assert(l + k < total);
        let end = BufferPosition { line_index: l + k, column_byte_index: end_col };
        BufferRange { from: p, to: end }
    }

    /// The text between two valid positions `from <= to`.
    pub fn range_text(&self, from: BufferPosition, to: BufferPosition) -> (r: Vec<u8>)
        requires
            self.wf(),
            valid_position(self@, from),
            valid_position(self@, to),
            pos_le(from, to),
        ensures
            r@ == spec_range_text(self@, from, to),
    {
        let ghost ls = self@;
        let fl = from.line_index;
        let tl = to.line_index;
        let fc = from.column_byte_index;
        let tc = to.column_byte_index;
        if fl == tl {
            return copy_range(self.lines[fl].text.as_slice(), fc, tc);
        }
        let ghost mid = ls.subrange(fl as int, tl + 1).update(
            0,
            ls[fl as int].subrange(fc as int, ls[fl as int].len() as int),
        ).update(tl - fl, ls[tl as int].subrange(0, tc as int));
        let first = self.lines[fl].text.as_slice();
        let mut text = copy_range(first, fc, first.len());
        assert(text@ == join_lines(mid.subrange(0, 1)));
        let n = self.lines.len();
        let mut j = fl + 1;
        while j <= tl
            invariant
                fl < j <= tl + 1,
                tl < n,
                tl < ls.len(),
                self@ == ls,
                mid.len() == tl - fl + 1,
                forall|x: int| 0 < x < tl - fl ==> #[trigger] mid[x] == ls[fl + x],
                mid[tl - fl] == ls[tl as int].subrange(0, tc as int),
                tc <= ls[tl as int].len(),
                text@ == join_lines(mid.subrange(0, j - fl)),
            decreases tl + 1 - j,
        {
            assert(mid.subrange(0, j - fl + 1).drop_last() =~= mid.subrange(0, j - fl));
            text.push(NEWLINE);
            let line = self.lines[j].text.as_slice();
            if j < tl {
                push_all(&mut text, line);
            } else {
                push_all(&mut text, copy_range(line, 0, tc).as_slice());
            }
            j = j + 1;
        }
        assert(mid.subrange(0, tl - fl + 1) =~= mid);
        text
    }

    /// Applies the edits in order: an insertion puts its text at the start
    /// of its range, a deletion removes its range. Returns the kind and range
    /// of each.
    pub fn apply_edits(&mut self, edits: &Vec<Edit>) -> (r: Vec<(EditKind, BufferRange)>)
        requires
            old(self).wf(),
        ensures
            final(self).wf(),
            final(self)@ == apply_edits(old(self)@, edits@.map_values(|e: Edit| e@)),
            r@.len() == edits@.len(),
            forall|i: int| 0 <= i < r@.len() ==> #[trigger] r@[i] == (edits@[i].kind, edits@[i].range),
    {
        let ghost es = edits@.map_values(|e: Edit| e@);
        let mut r: Vec<(EditKind, BufferRange)> = Vec::new();
        let mut i: usize = 0;
        while i < edits.len()
            invariant
                i <= edits@.len(),
                es == edits@.map_values(|e: Edit| e@),
                self.wf(),
                self@ == apply_edits(old(self)@, es.subrange(0, i as int)),
                r@.len() == i,
                forall|k: int| 0 <= k < i ==> #[trigger] r@[k] == (edits@[k].kind, edits@[k].range),
            decreases edits@.len() - i,
        {
            let e = &edits[i];
            assert(es.subrange(0, i + 1).drop_last() =~= es.subrange(0, i as int));
            assert(es.subrange(0, i + 1).last() == e@);
            match e.kind {
                EditKind::Insert => {
                    let _ = self.insert_bytes(e.range.from, e.text.as_slice());
                },
                EditKind::Delete => {
                    let _ = self.delete_range(e.range);
                },
            }
            r.push((e.kind, e.range));
            i = i + 1;
        }
        assert(es.subrange(0, i as int) =~= es);
        r
    }

    /// Deletes the text of `range`, both ends clamped first (an end clamped
    /// before the start is taken as the start), and returns that text.
    pub fn delete_range(&mut self, range: BufferRange) -> (r: Vec<u8>)
        requires
            old(self).wf(),
        ensures
            final(self).wf(),
            ({
                let f = spec_clamp(old(self)@, range.from);
                let t0 = spec_clamp(old(self)@, range.to);
                let t = if pos_le(f, t0) { t0 } else { f };
                &&& r@ == spec_range_text(old(self)@, f, t)
                &&& final(self)@ == spec_delete_text(old(self)@, f, t)
            }),
    {
        let mut f = range.from;
        self.clamp_position(&mut f);
        let mut t = range.to;
        self.clamp_position(&mut t);
        if !f.is_at_or_before(&t) {
            t = f;
        }
        let ghost ls = self@;
        let fl = f.line_index;
        let tl = t.line_index;
        let fc = f.column_byte_index;
        let tc = t.column_byte_index;
        if fl == tl {
            let line = self.lines[fl].text.as_slice();
            let deleted = copy_range(line, fc, tc);
            let mut kept = copy_range(line, 0, fc);
            push_all(&mut kept, copy_range(line, tc, line.len()).as_slice());
            self.lines.set(fl, BufferLine { text: kept });
            assert(self@ =~= spec_delete_text(ls, f, t));
            deleted
        } else {
            let ghost mid = ls.subrange(fl as int, tl + 1).update(
                0,
                ls[fl as int].subrange(fc as int, ls[fl as int].len() as int),
            ).update(tl - fl, ls[tl as int].subrange(0, tc as int));
            let first = self.lines[fl].text.as_slice();
            let mut deleted = copy_range(first, fc, first.len());
            assert(deleted@ == join_lines(mid.subrange(0, 1)));
            let n = self.lines.len();
            let mut j = fl + 1;
            while j <= tl
                invariant
                    fl < j <= tl + 1,
                    tl < n,
                    tl < ls.len(),
                    self@ == ls,
                    mid.len() == tl - fl + 1,
                    forall|x: int| 0 < x < tl - fl ==> #[trigger] mid[x] == ls[fl + x],
                    mid[tl - fl] == ls[tl as int].subrange(0, tc as int),
                    tc <= ls[tl as int].len(),
                    deleted@ == join_lines(mid.subrange(0, j - fl)),
                decreases tl + 1 - j,
            {
                assert(mid.subrange(0, j - fl + 1).drop_last() =~= mid.subrange(0, j - fl));
                deleted.push(NEWLINE);
                let line = self.lines[j].text.as_slice();
                if j < tl {
                    push_all(&mut deleted, line);
                } else {
                    push_all(&mut deleted, copy_range(line, 0, tc).as_slice());
                }
                j = j + 1;
            }
            assert(mid.subrange(0, tl - fl + 1) =~= mid);
            let mut kept = copy_range(first, 0, fc);
            let last = self.lines[tl].text.as_slice();
            push_all(&mut kept, copy_range(last, tc, last.len()).as_slice());
            let mut tail = self.lines.split_off(tl + 1);
            self.lines.truncate(fl);
            self.lines.push(BufferLine { text: kept });
            self.lines.append(&mut tail);
            assert(self@ =~= spec_delete_text(ls, f, t));
            deleted
        }
    }
}

/// The ends that `delete_range` works on: both clamped, the end no earlier
/// than the start.
pub open spec fn spec_delete_ends(ls: Seq<Seq<u8>>, range: BufferRange) -> BufferRange {
    let f = spec_clamp(ls, range.from);
    let t0 = spec_clamp(ls, range.to);
    BufferRange { from: f, to: if pos_le(f, t0) { t0 } else { f } }
}

/// The lines after one edit is applied to them.
pub open spec fn apply_edit(ls: Seq<Seq<u8>>, e: EditView) -> Seq<Seq<u8>> {
    match e.kind {
        EditKind::Insert => spec_insert_text(ls, spec_clamp(ls, e.range.from), e.text),
        EditKind::Delete => {
            let r = spec_delete_ends(ls, e.range);
            spec_delete_text(ls, r.from, r.to)
        },
    }
}

/// The lines after the edits are applied to them in order.
pub open spec fn apply_edits(ls: Seq<Seq<u8>>, es: Seq<EditView>) -> Seq<Seq<u8>>
    decreases es.len(),
{
    if es.len() == 0 {
        ls
    } else {
        apply_edit(apply_edits(ls, es.drop_last()), es.last())
    }
}

/// A buffer's text together with its edit history.
pub struct Buffer {
    pub content: BufferContent,
    pub history: History,
    /// Whether the content changed since it was last loaded or saved.
    pub needs_save: bool,
    /// The bytes of the path the buffer was loaded from; empty for a scratch
    /// buffer.
    pub path: Vec<u8>,
}

impl Buffer {
    pub open spec fn wf(&self) -> bool {
        self.content.wf() && self.history.wf()
    }

    pub fn with_contents(contents: BufferContent) -> (r: Self)
        requires
            contents.wf(),
        ensures
            r.wf(),
            r.content@ == contents@,
            r.history@.edits.len() == 0,
            r.history@.groups.len() == 0,
            r.history@.state == HistoryState::IterIndex(0),
            !r.needs_save,
            r.path@.len() == 0,
    {
        Buffer { content: contents, history: History::new(), needs_save: false, path: Vec::new() }
    }

    /// Inserts `text` at `position` and records the insertion, made by the
    /// cursor `cursor_index`, in the history.
    pub fn insert_text(&mut self, position: BufferPosition, text: &str, cursor_index: u8) -> (r: BufferRange)
        requires
            old(self).wf(),
        ensures
            final(self).wf(),
            r.from == spec_clamp(old(self).content@, position),
            r.to == spec_insert_end(old(self).content@, r.from, text.spec_bytes()),
            final(self).content@ == spec_insert_text(old(self).content@, r.from, text.spec_bytes()),
            final(self).history@ == old(self).history@.add_edit(
                EditView { kind: EditKind::Insert, range: r, text: text.spec_bytes(), cursor_index },
            ),
            final(self).needs_save,
            final(self).path == old(self).path,
    {
        let range = self.content.insert_text(position, text);
        let edit = Edit { kind: EditKind::Insert, range, text: str_bytes(text), cursor_index };
        self.history.add_edit(&edit);
        self.needs_save = true;
        range
    }

    /// Gives the buffer the path it belongs to.
    pub fn set_path(&mut self, path: &str)
        ensures
            final(self).path@ == path.spec_bytes(),
            final(self).content == old(self).content,
            final(self).history == old(self).history,
            final(self).needs_save == old(self).needs_save,
    {
        self.path = str_bytes(path);
    }

    /// Records that the content was saved.
    pub fn mark_saved(&mut self)
        ensures
            !final(self).needs_save,
            final(self).content@ == old(self).content@,
            final(self).history@ == old(self).history@,
            final(self).wf() == old(self).wf(),
    {
        self.needs_save = false;
    }

    /// The ends that `delete_range` works on.
    pub fn delete_ends(&self, range: BufferRange) -> (r: BufferRange)
        requires
            self.content.wf(),
        ensures
            r == spec_delete_ends(self.content@, range),
    {
        let mut from = range.from;
        self.content.clamp_position(&mut from);
        let mut to = range.to;
        self.content.clamp_position(&mut to);
        if !from.is_at_or_before(&to) {
            to = from;
        }
        BufferRange { from, to }
    }

    /// Deletes the text of `range` and records the deletion, made by the
    /// cursor `cursor_index`, in the history.
    pub fn delete_range(&mut self, range: BufferRange, cursor_index: u8)
        requires
            old(self).wf(),
        ensures
            final(self).wf(),
            ({
                let r = spec_delete_ends(old(self).content@, range);
                &&& final(self).content@ == spec_delete_text(old(self).content@, r.from, r.to)
                &&& final(self).history@ == old(self).history@.add_edit(
                    EditView {
                        kind: EditKind::Delete,
                        range: r,
                        text: spec_range_text(old(self).content@, r.from, r.to),
                        cursor_index,
                    },
                )
            }),
            final(self).needs_save,
            final(self).path == old(self).path,
    {
        let ends = self.delete_ends(range);
        let deleted = self.content.delete_range(range);
        let edit = Edit { kind: EditKind::Delete, range: ends, text: deleted, cursor_index };
        self.history.add_edit(&edit);
        self.needs_save = true;
    }

    fn apply_edits(&mut self, edits: &Vec<Edit>) -> (r: Vec<(EditKind, BufferRange)>)
        requires
            old(self).content.wf(),
        ensures
            final(self).content.wf(),
            final(self).history == old(self).history,
            final(self).needs_save == old(self).needs_save,
            final(self).content@ == apply_edits(old(self).content@, edits@.map_values(|e: Edit| e@)),
            r@.len() == edits@.len(),
            forall|i: int| 0 <= i < r@.len() ==> #[trigger] r@[i] == (edits@[i].kind, edits@[i].range),
    {
        self.content.apply_edits(edits)
    }

    /// Reverts the last group of edits not yet undone, and returns the kind
    /// and range of each edit that was applied to do so.
    pub fn undo(&mut self) -> (r: Vec<(EditKind, BufferRange)>)
        requires
            old(self).wf(),
        ensures
            final(self).wf(),
            final(self).history@ == old(self).history@.undo(),
            final(self).needs_save == (old(self).needs_save || r@.len() > 0),
            final(self).content@ == apply_edits(old(self).content@, old(self).history@.undo_result()),
            r@.len() == old(self).history@.undo_result().len(),
            forall|i: int| 0 <= i < r@.len() ==> #[trigger] r@[i] == (
                old(self).history@.undo_result()[i].kind,
                old(self).history@.undo_result()[i].range,
            ),
    {
        let edits = self.history.undo_edits();
        let r = self.apply_edits(&edits);
        if r.len() > 0 {
            self.needs_save = true;
        }
        proof {
            assert forall|i: int| 0 <= i < r@.len() implies #[trigger] r@[i] == (
                old(self).history@.undo_result()[i].kind,
                old(self).history@.undo_result()[i].range,
            ) by {
                assert(edits@.map_values(|e: Edit| e@)[i] == edits@[i]@);
            }
        }
        r
    }

    /// Replays the next undone group of edits, and returns the kind and range
    /// of each edit applied.
    pub fn redo(&mut self) -> (r: Vec<(EditKind, BufferRange)>)
        requires
            old(self).wf(),
        ensures
            final(self).wf(),
            final(self).history@ == old(self).history@.redo(),
            final(self).needs_save == (old(self).needs_save || r@.len() > 0),
            final(self).content@ == apply_edits(old(self).content@, old(self).history@.redo_result()),
            r@.len() == old(self).history@.redo_result().len(),
            forall|i: int| 0 <= i < r@.len() ==> #[trigger] r@[i] == (
                old(self).history@.redo_result()[i].kind,
                old(self).history@.redo_result()[i].range,
            ),
    {
        let edits = self.history.redo_edits();
        let r = self.apply_edits(&edits);
        if r.len() > 0 {
            self.needs_save = true;
        }
        proof {
            assert forall|i: int| 0 <= i < r@.len() implies #[trigger] r@[i] == (
                old(self).history@.redo_result()[i].kind,
                old(self).history@.redo_result()[i].range,
            ) by {
                assert(edits@.map_values(|e: Edit| e@)[i] == edits@[i]@);
            }
        }
        r
    }
}

/// Whether some entry of `s` names slot `i`.
pub open spec fn marked(s: Seq<u32>, i: int) -> bool {
    exists|j: int| 0 <= j < s.len() && s[j] as int == i
}

/// Names a slot of a `BufferCollection`; equal handles name the same slot.
#[derive(Clone, Copy, Debug, PartialEq, Eq, Structural)]
pub struct BufferHandle(pub u32);

/// The buffers of an editor, in slots that are reused once freed. A removal
/// is deferred until `free_removed`, so a handle stays valid meanwhile.
pub struct BufferCollection {
    buffers: Vec<Option<Buffer>>,
    free_slots: Vec<u32>,
    removed: Vec<u32>,
}

impl BufferCollection {
    pub closed spec fn slots(&self) -> Seq<Option<Buffer>> {
        self.buffers@
    }

    pub closed spec fn free(&self) -> Seq<u32> {
        self.free_slots@
    }

    pub closed spec fn pending_removal(&self) -> Seq<u32> {
        self.removed@
    }

    pub closed spec fn wf(&self) -> bool {
        &&& forall|i: int| 0 <= i < self.free_slots@.len() ==> {
            &&& #[trigger] self.free_slots@[i] < self.buffers@.len()
            &&& self.buffers@[self.free_slots@[i] as int] is None
        }
        &&& forall|i: int, j: int| 0 <= i < j < self.free_slots@.len() ==> #[trigger] self.free_slots@[i] != #[trigger] self.free_slots@[j]
        &&& forall|i: int| 0 <= i < self.buffers@.len() ==> (#[trigger] self.buffers@[i] matches Some(b) ==> b.wf())
        &&& self.buffers@.len() <= u32::MAX
    }

    pub fn new() -> (r: Self)
        ensures
            r.wf(),
            r.slots().len() == 0,
            r.free().len() == 0,
            r.pending_removal().len() == 0,
    {
        BufferCollection { buffers: Vec::new(), free_slots: Vec::new(), removed: Vec::new() }
    }

    pub fn slot_count(&self) -> (r: usize)
        ensures
            r == self.slots().len(),
    {
        self.buffers.len()
    }

    pub fn free_count(&self) -> (r: usize)
        ensures
            r == self.free().len(),
    {
        self.free_slots.len()
    }

    /// Stores `buffer` in the last freed slot, or in a new one when none is
    /// free, and returns its handle.
    pub fn add(&mut self, buffer: Buffer) -> (r: BufferHandle)
        requires
            old(self).wf(),
            buffer.wf(),
            old(self).free().len() > 0 || old(self).slots().len() < u32::MAX,
        ensures
            final(self).wf(),
            final(self).pending_removal() == old(self).pending_removal(),
            r.0 < final(self).slots().len(),
            final(self).slots()[r.0 as int] == Some(buffer),
            final(self).get_spec(r) == Some(buffer),
            forall|i: int| 0 <= i < old(self).slots().len() && i != r.0 ==> #[trigger] final(self).slots()[i] == old(self).slots()[i],
            old(self).free().len() > 0 ==> {
                &&& r.0 == old(self).free().last()
                &&& final(self).free() == old(self).free().drop_last()
                &&& final(self).slots() == old(self).slots().update(r.0 as int, Some(buffer))
            },
            old(self).free().len() == 0 ==> {
                &&& r.0 == old(self).slots().len()
                &&& final(self).free() == old(self).free()
                &&& final(self).slots() == old(self).slots().push(Some(buffer))
            },
    {
        match self.free_slots.pop() {
            Some(index) => {
                self.buffers.set(index as usize, Some(buffer));
                BufferHandle(index)
            },
            None => {
                let index = self.buffers.len() as u32;
                self.buffers.push(Some(buffer));
                BufferHandle(index)
            },
        }
    }

    pub open spec fn get_spec(&self, handle: BufferHandle) -> Option<Buffer> {
        if handle.0 < self.slots().len() { self.slots()[handle.0 as int] } else { None }
    }

    pub fn get(&self, handle: BufferHandle) -> (r: Option<&Buffer>)
        requires
            self.wf(),
        ensures
            r is Some <==> self.get_spec(handle) is Some,
            r matches Some(b) ==> self.get_spec(handle) == Some(*b),
            r matches Some(b) ==> b.wf(),
            r is Some <==> (handle.0 < self.slots().len() && self.slots()[handle.0 as int] is Some),
            r matches Some(b) ==> self.slots()[handle.0 as int] == Some(*b),
    {
        if (handle.0 as usize) < self.buffers.len() {
            match &self.buffers[handle.0 as usize] {
                Some(b) => Some(b),
                None => None,
            }
        } else {
            None
        }
    }

    /// Takes the buffer out of its slot, to be put back with `put_back`.
    pub fn take(&mut self, handle: BufferHandle) -> (r: Option<Buffer>)
        requires
            old(self).wf(),
        ensures
            final(self).wf(),
            r matches Some(b) ==> b.wf(),
            r is Some ==> !final(self).free().contains(handle.0),
            handle.0 < old(self).slots().len() ==> final(self).slots()[handle.0 as int] is None,
            r == (if handle.0 < old(self).slots().len() { old(self).slots()[handle.0 as int] } else { None }),
            final(self).slots().len() == old(self).slots().len(),
            forall|i: int| 0 <= i < old(self).slots().len() && i != handle.0 ==> final(self).slots()[i] == old(self).slots()[i],
            final(self).free() == old(self).free(),
            final(self).pending_removal() == old(self).pending_removal(),
    {
        if (handle.0 as usize) < self.buffers.len() {
            proof {
                assert(self.buffers@[handle.0 as int] matches Some(b) ==> b.wf());
            }
            let mut slot = None;
            std::mem::swap(&mut slot, &mut self.buffers[handle.0 as usize]);
            proof {
                if slot is Some {
                    assert forall|i: int| 0 <= i < self.free_slots@.len() implies self.free_slots@[i] != handle.0 by {
                        assert(old(self).buffers@[old(self).free_slots@[i] as int] is None);
                    }
                }
            }
            slot
        } else {
            None
        }
    }

    /// Puts a buffer back into the slot it was taken from.
    pub fn put_back(&mut self, handle: BufferHandle, buffer: Buffer)
        requires
            old(self).wf(),
            buffer.wf(),
            handle.0 < old(self).slots().len(),
            old(self).slots()[handle.0 as int] is None,
            !old(self).free().contains(handle.0),
        ensures
            final(self).wf(),
            final(self).slots() == old(self).slots().update(handle.0 as int, Some(buffer)),
            final(self).free() == old(self).free(),
            final(self).pending_removal() == old(self).pending_removal(),
    {
        self.buffers.set(handle.0 as usize, Some(buffer));
    }

    /// The first buffer whose path is `path`.
    pub fn find_with_path(&self, path: &str) -> (r: Option<BufferHandle>)
        requires
            self.wf(),
        ensures
            match r {
                Some(h) => self.get_spec(h) matches Some(b) && b.path@ == path.spec_bytes()
                    && forall|i: int| 0 <= i < h.0 ==> !(#[trigger] self.slots()[i] matches Some(b) && b.path@ == path.spec_bytes()),
                None => forall|i: int| 0 <= i < self.slots().len() ==> !(#[trigger] self.slots()[i] matches Some(b) && b.path@ == path.spec_bytes()),
            },
    {
        let p = str_bytes(path);
        let mut i: usize = 0;
        while i < self.buffers.len()
            invariant
                i <= self.slots().len(),
                self.slots().len() <= u32::MAX,
                p@ == path.spec_bytes(),
                forall|k: int| 0 <= k < i ==> !(#[trigger] self.slots()[k] matches Some(b) && b.path@ == path.spec_bytes()),
            decreases self.slots().len() - i,
        {
            match &self.buffers[i] {
                Some(b) => {
                    if crate::bytes::bytes_eq(b.path.as_slice(), p.as_slice()) {
                        return Some(BufferHandle(i as u32));
                    }
                },
                None => {},
            }
            i = i + 1;
        }
        None
    }

    /// Whether some buffer has changes that were not saved.
    pub fn any_needs_save(&self) -> (r: bool)
        ensures
            r == exists|i: int| 0 <= i < self.slots().len() && (#[trigger] self.slots()[i] matches Some(b) && b.needs_save),
    {
        let mut i: usize = 0;
        while i < self.buffers.len()
            invariant
                i <= self.slots().len(),
                forall|k: int| 0 <= k < i ==> !(#[trigger] self.slots()[k] matches Some(b) && b.needs_save),
            decreases self.slots().len() - i,
        {
            match &self.buffers[i] {
                Some(b) => {
                    if b.needs_save {
                        assert(self.slots()[i as int] matches Some(b) && b.needs_save);
                        return true;
                    }
                },
                None => {},
            }
            i = i + 1;
        }
        false
    }

    /// Marks the buffer for removal by the next `free_removed`.
    pub fn defer_remove(&mut self, handle: BufferHandle)
        ensures
            final(self).slots() == old(self).slots(),
            final(self).free() == old(self).free(),
            final(self).pending_removal() == old(self).pending_removal().push(handle.0),
    {
        self.removed.push(handle.0);
    }

    /// Drops every buffer marked for removal and frees its slot.
    pub fn free_removed(&mut self)
        requires
            old(self).wf(),
        ensures
            final(self).wf(),
            final(self).pending_removal().len() == 0,
            final(self).slots().len() == old(self).slots().len(),
            forall|i: int| 0 <= i < old(self).slots().len() ==> #[trigger] final(self).slots()[i] == (
                if marked(old(self).pending_removal(), i) { None } else { old(self).slots()[i] }),
    {
        let mut k: usize = 0;
        while k < self.removed.len()
            invariant
                k <= self.removed@.len(),
                self.removed@ == old(self).removed@,
                self.buffers@.len() == old(self).buffers@.len(),
                self.wf(),
                forall|i: int| 0 <= i < old(self).slots().len() ==> #[trigger] self.buffers@[i] == (
                    if marked(self.removed@.subrange(0, k as int), i) { None } else { old(self).slots()[i] }),
            decreases self.removed@.len() - k,
        {
            let index = self.removed[k];
            if (index as usize) < self.buffers.len() && self.buffers[index as usize].is_some() {
                self.buffers.set(index as usize, None);
                self.free_slots.push(index);
            }
            proof {
                assert forall|i: int| 0 <= i < old(self).slots().len() implies #[trigger] self.buffers@[i] == (
                    if marked(self.removed@.subrange(0, k + 1), i) { None } else { old(self).slots()[i] }) by {
                    let a = self.removed@.subrange(0, k as int);
                    let b = self.removed@.subrange(0, k + 1);
                    assert(b =~= a.push(index));
                    if i == index as int {
                        assert(b[k as int] == index);
                    }
                    if marked(b, i) && i != index as int {
                        let j = choose|j: int| 0 <= j < b.len() && b[j] as int == i;
                        assert(a[j] as int == i);
                    }
                    if marked(a, i) {
                        let j = choose|j: int| 0 <= j < a.len() && a[j] as int == i;
                        assert(b[j] as int == i);
                    }
                }
            }
            k = k + 1;
        }
        assert(self.removed@.subrange(0, k as int) =~= self.removed@);
        self.removed.clear();
    }
}

} // verus!

verus! {

proof fn lemma_split_no_newline_suffix(y: Seq<u8>, x: Seq<u8>)
    requires
        no_newline(x),
    ensures
        split_lines(y + x) == split_lines(y).update(split_lines(y).len() - 1, split_lines(y).last() + x),
    decreases x.len(),
{
    lemma_split_lines(y);
    if x.len() == 0 {
        assert(y + x =~= y);
        assert(split_lines(y).last() + x =~= split_lines(y).last());
        assert(split_lines(y).update(split_lines(y).len() - 1, split_lines(y).last()) =~= split_lines(y));
    } else {
        let x0 = x.drop_last();
        assert(no_newline(x0));
        lemma_split_no_newline_suffix(y, x0);
        assert((y + x).drop_last() =~= y + x0);
        assert((y + x).last() == x.last());
        let s = split_lines(y);
        assert(x.last() != NEWLINE);
        assert(x0 + seq![x.last()] =~= x);
        assert((s.last() + x0).push(x.last()) =~= s.last() + x);
        assert(split_lines(y + x) =~= s.update(s.len() - 1, s.last() + x));
    }
}

proof fn lemma_split_no_newline_prefix(a: Seq<u8>, y: Seq<u8>)
    requires
        no_newline(a),
    ensures
        split_lines(a + y) == split_lines(y).update(0, a + split_lines(y)[0]),
    decreases y.len(),
{
    lemma_split_lines(y);
    if y.len() == 0 {
        lemma_split_no_newline_suffix(Seq::empty(), a);
        assert(Seq::<u8>::empty() + a =~= a);
        assert(a + y =~= a);
        assert(split_lines(y).update(0, a + split_lines(y)[0]) =~= seq![a]);
        assert(split_lines(Seq::<u8>::empty()).update(0, Seq::<u8>::empty() + a) =~= seq![a]);
    } else {
        let y0 = y.drop_last();
        lemma_split_no_newline_prefix(a, y0);
        lemma_split_lines(y0);
        assert((a + y).drop_last() =~= a + y0);
        assert((a + y).last() == y.last());
        let s = split_lines(y0);
        if y.last() == NEWLINE {
            assert(split_lines(a + y) =~= split_lines(y).update(0, a + split_lines(y)[0]));
        } else {
            if s.len() == 1 {
                assert(split_lines(y) =~= seq![s[0].push(y.last())]);
                assert(split_lines(a + y) =~= seq![(a + s[0]).push(y.last())]);
                assert((a + s[0]).push(y.last()) =~= a + s[0].push(y.last()));
            }
            assert(split_lines(a + y) =~= split_lines(y).update(0, a + split_lines(y)[0]));
        }
    }
}

proof fn lemma_join_split(y: Seq<u8>)
    ensures
        join_lines(split_lines(y)) == y,
    decreases y.len(),
{
    lemma_split_lines(y);
    if y.len() > 0 {
        let y0 = y.drop_last();
        lemma_join_split(y0);
        lemma_split_lines(y0);
        let s = split_lines(y0);
        if y.last() == NEWLINE {
            assert(s.push(Seq::empty()).drop_last() =~= s);
            assert(join_lines(s.push(Seq::empty())) =~= join_lines(s) + seq![NEWLINE]);
        } else {
            let s2 = s.update(s.len() - 1, s.last().push(y.last()));
            if s.len() == 1 {
                assert(join_lines(s2) == s2[0]);
                assert(join_lines(s) == s[0]);
            } else {
                assert(s2.drop_last() =~= s.drop_last());
                assert(join_lines(s2) =~= join_lines(s) + seq![y.last()]);
            }
        }
        assert(y0 + seq![y.last()] =~= y);
    }
}

/// Deleting the range that an insertion reports takes the content back to
/// what it was, and the text of that range is the inserted text. The
/// insertion is at a valid position, and neither the text nor a line starts
/// with a byte that continues a char (as UTF-8 text never does).
#[verifier::rlimit(60)]
pub proof fn lemma_insert_then_delete_restores(ls: Seq<Seq<u8>>, p: BufferPosition, t: Seq<u8>)
    requires
        content_wf(ls),
        valid_position(ls, p),
        t.len() > 0 ==> !is_continuation(t[0]),
        ls.len() + t.len() <= usize::MAX,
        forall|i: int| 0 <= i < ls.len() ==> #[trigger] ls[i].len() + t.len() <= usize::MAX,
        forall|i: int| 0 <= i < ls.len() && ls[i].len() > 0 ==> !is_continuation(#[trigger] ls[i][0]),
    ensures
        ({
            let ls2 = spec_insert_text(ls, p, t);
            let e = spec_insert_end(ls, p, t);
            &&& spec_clamp(ls2, p) == p
            &&& spec_clamp(ls2, e) == e
            &&& pos_le(p, e)
            &&& spec_delete_text(ls2, p, e) == ls
        }),
{
    let l = p.line_index as int;
    let c = p.column_byte_index as int;
    let line = ls[l];
    let prefix = line.subrange(0, c);
    let suffix = line.subrange(c, line.len() as int);
    assert(no_newline(prefix));
    assert(no_newline(suffix));
    let tt = split_lines(t);
    lemma_split_lines(t);
    let m = tt.len() as int;
    lemma_split_no_newline_prefix(prefix, t);
    let s1 = split_lines(prefix + t);
    assert(s1 == tt.update(0, prefix + tt[0]));
    lemma_split_lines(prefix + t);
    assert(s1[m - 1].len() <= c + t.len());
    lemma_split_no_newline_suffix(prefix + t, suffix);
    let s = split_lines(prefix + t + suffix);
    assert(s == s1.update(m - 1, s1[m - 1] + suffix));
    let ls2 = spec_insert_text(ls, p, t);
    assert(ls2 == ls.subrange(0, l) + s + ls.subrange(l + 1, ls.len() as int));
    let e = spec_insert_end(ls, p, t);
    assert(e.line_index == l + m - 1);
    assert(e.column_byte_index == s1[m - 1].len());
    assert(ls2[l] == s[0]);
    assert(ls2[l + m - 1] == s[m - 1]);
    assert(s[m - 1] == s1[m - 1] + suffix);
    // the first new line starts with the prefix
    if m == 1 {
        assert(s[0] == prefix + tt[0] + suffix);
        assert(s[0].subrange(0, c) =~= prefix);
    } else {
        assert(s[0] == prefix + tt[0]);
        assert(s[0].subrange(0, c) =~= prefix);
    }
    assert(s[m - 1].subrange(s1[m - 1].len() as int, s[m - 1].len() as int) =~= suffix);
    // both ends are valid positions of the new content
    assert(l + m - 1 < ls2.len());
    lemma_round_down(ls2[l], c);
    lemma_round_down(ls2[l + m - 1], e.column_byte_index as int);
    if c < ls2[l].len() {
        if m == 1 {
            if tt[0].len() > 0 {
                assert(ls2[l][c] == tt[0][0]);
                assert(t.len() > 0);
                lemma_first_piece(t);
                assert(tt[0][0] == t[0]);
            } else {
                assert(ls2[l][c] == suffix[0]);
                assert(suffix[0] == line[c]);
            }
        } else {
            assert(tt[0].len() > 0);
            lemma_first_piece(t);
            assert(ls2[l][c] == t[0]);
        }
    }
    assert(round_down(ls2[l], c) == c);
    if e.column_byte_index < ls2[l + m - 1].len() {
        assert(ls2[l + m - 1][e.column_byte_index as int] == suffix[0]);
        assert(suffix[0] == line[c]);
        assert(!is_continuation(line[c]));
    }
    assert(round_down(ls2[l + m - 1], e.column_byte_index as int) == e.column_byte_index);
    let mid = ls2[l].subrange(0, c) + ls2[l + m - 1].subrange(e.column_byte_index as int, ls2[l + m - 1].len() as int);
    assert(mid =~= prefix + suffix);
    assert(prefix + suffix =~= line);
    assert(ls2.subrange(0, l) =~= ls.subrange(0, l));
    assert(ls2.subrange(l + m, ls2.len() as int) =~= ls.subrange(l + 1, ls.len() as int));
    assert(spec_delete_text(ls2, p, e) =~= ls.subrange(0, l) + seq![line] + ls.subrange(l + 1, ls.len() as int));
    assert(ls.subrange(0, l) + seq![line] + ls.subrange(l + 1, ls.len() as int) =~= ls);
}

proof fn lemma_first_piece(t: Seq<u8>)
    requires
        t.len() > 0,
    ensures
        t[0] == NEWLINE ==> split_lines(t).len() >= 2 && split_lines(t)[0].len() == 0,
        t[0] != NEWLINE ==> split_lines(t)[0].len() > 0 && split_lines(t)[0][0] == t[0],
    decreases t.len(),
{
    lemma_split_lines(t);
    let t0 = t.drop_last();
    lemma_split_lines(t0);
    if t.len() == 1 {
        assert(t0 =~= Seq::<u8>::empty());
    } else {
        lemma_first_piece(t0);
        assert(t0[0] == t[0]);
    }
}

} // verus!

verus! {

proof fn lemma_clamp_valid(ls: Seq<Seq<u8>>, p: BufferPosition)
    requires
        content_wf(ls),
    ensures
        valid_position(ls, spec_clamp(ls, p)),
{
    let l = if p.line_index >= ls.len() { (ls.len() - 1) as usize } else { p.line_index };
    lemma_round_down(ls[l as int], p.column_byte_index as int);
}

/// Undo right after an insertion takes the content back to what it was: the
/// insertion is committed as a group of its own, and undoing it deletes
/// exactly the text it inserted. The text and the lines are UTF-8 in the
/// sense that none starts with a byte that continues a char.
pub proof fn lemma_undo_restores_insert(ls: Seq<Seq<u8>>, h: HistoryView, position: BufferPosition, t: Seq<u8>, cursor_index: u8)
    requires
        content_wf(ls),
        h.wf(),
        h.state is IterIndex,
        h.groups.len() < usize::MAX,
        h.edits.len() < usize::MAX,
        t.len() > 0 ==> !is_continuation(t[0]),
        ls.len() + t.len() <= usize::MAX,
        forall|i: int| 0 <= i < ls.len() ==> #[trigger] ls[i].len() + t.len() <= usize::MAX,
        forall|i: int| 0 <= i < ls.len() && ls[i].len() > 0 ==> !is_continuation(#[trigger] ls[i][0]),
    ensures
        ({
            let p = spec_clamp(ls, position);
            let r = BufferRange { from: p, to: spec_insert_end(ls, p, t) };
            let h2 = h.add_edit(EditView { kind: EditKind::Insert, range: r, text: t, cursor_index }).commit();
            apply_edits(spec_insert_text(ls, p, t), h2.undo_result()) == ls
        }),
{
    let p = spec_clamp(ls, position);
    lemma_clamp_valid(ls, p);
    lemma_clamp_valid(ls, position);
    lemma_insert_then_delete_restores(ls, p, t);
    let r = BufferRange { from: p, to: spec_insert_end(ls, p, t) };
    let e = EditView { kind: EditKind::Insert, range: r, text: t, cursor_index };
    let h2 = h.add_edit(e).commit();
    let u = h2.undo_result();
    let d = EditView { kind: EditKind::Delete, ..e };
    let b = h.open_group();
    let i = match h.state { HistoryState::IterIndex(i) => i as int, _ => 0 };
    if i < h.groups.len() {
        crate::history::lemma_group_within_edits(h, i);
    }
    let lo = b.edits.len() as int;
    assert(b.state == HistoryState::InsertGroup(lo as usize, lo as usize));
    let h1 = h.add_edit(e);
    assert(h1.edits == b.edits.push(e));
    assert(h1.state == HistoryState::InsertGroup(lo as usize, (lo + 1) as usize));
    assert(h2.groups == b.groups.push((lo as usize, (lo + 1) as usize)));
    assert(h2.iter_index() == b.groups.len() + 1);
    assert(h2.commit() == h2);
    assert(h2.group_edits(b.groups.len() as int) =~= seq![e]);
    assert(u.len() == 1);
    assert(u[0] == d);
    assert(u.drop_last() =~= Seq::<EditView>::empty());
    let ls2 = spec_insert_text(ls, p, t);
    assert(apply_edits(ls2, u) == apply_edit(apply_edits(ls2, u.drop_last()), d));
}

} // verus!

verus! {

proof fn lemma_split_join(ls: Seq<Seq<u8>>)
    requires
        ls.len() >= 1,
        forall|i: int| 0 <= i < ls.len() ==> no_newline(#[trigger] ls[i]),
    ensures
        split_lines(join_lines(ls)) == ls,
    decreases ls.len(),
{
    if ls.len() == 1 {
        lemma_split_no_newline_suffix(Seq::empty(), ls[0]);
        assert(Seq::<u8>::empty() + ls[0] =~= ls[0]);
        assert(split_lines(Seq::<u8>::empty()).update(0, Seq::<u8>::empty() + ls[0]) =~= ls);
    } else {
        let init = ls.drop_last();
        lemma_split_join(init);
        let j0 = join_lines(init);
        // join(ls) = j0 + NL + last
        lemma_split_no_newline_suffix(j0 + seq![NEWLINE], ls.last());
        assert((j0 + seq![NEWLINE]).drop_last() =~= j0);
        assert(split_lines(j0 + seq![NEWLINE]) =~= init.push(Seq::empty()));
        assert(Seq::<u8>::empty() + ls.last() =~= ls.last());
        assert(init.push(Seq::empty()).update(init.len() as int, ls.last()) =~= ls);
    }
}

proof fn lemma_join_edges(ls: Seq<Seq<u8>>, a: Seq<u8>, b: Seq<u8>)
    requires
        ls.len() >= 1,
    ensures
        ls.len() == 1 ==> join_lines(seq![a + ls[0] + b]) == a + join_lines(ls) + b,
        ls.len() >= 2 ==> join_lines(ls.update(0, a + ls[0]).update(ls.len() - 1, ls.last() + b)) == a + join_lines(ls) + b,
    decreases ls.len(),
{
    if ls.len() >= 2 {
        let m = ls.update(0, a + ls[0]).update(ls.len() - 1, ls.last() + b);
        lemma_join_prepend(ls.drop_last(), a);
        if ls.len() == 2 {
            assert(m.drop_last() =~= seq![a + ls[0]]);
            assert(ls.drop_last() =~= seq![ls[0]]);
        } else {
            assert(m.drop_last() =~= ls.drop_last().update(0, a + ls[0]));
        }
        assert(join_lines(m) == join_lines(m.drop_last()) + seq![NEWLINE] + m.last());
        assert(join_lines(ls) == join_lines(ls.drop_last()) + seq![NEWLINE] + ls.last());
        assert(join_lines(m) =~= a + join_lines(ls) + b);
    }
}

proof fn lemma_join_prepend(ls: Seq<Seq<u8>>, a: Seq<u8>)
    requires
        ls.len() >= 1,
    ensures
        join_lines(ls.update(0, a + ls[0])) == a + join_lines(ls),
    decreases ls.len(),
{
    let m = ls.update(0, a + ls[0]);
    if ls.len() == 1 {
        assert(join_lines(m) == m[0]);
    } else {
        lemma_join_prepend(ls.drop_last(), a);
        assert(m.drop_last() =~= ls.drop_last().update(0, a + ls[0]));
        assert(join_lines(m) =~= a + join_lines(ls));
    }
}

/// Inserting, at the start of a deleted range, the text that the deletion
/// took takes the content back to what it was.
#[verifier::rlimit(60)]
pub proof fn lemma_delete_then_insert_restores(ls: Seq<Seq<u8>>, f: BufferPosition, t: BufferPosition)
    requires
        content_wf(ls),
        valid_position(ls, f),
        valid_position(ls, t),
        pos_le(f, t),
        forall|i: int| 0 <= i < ls.len() && ls[i].len() > 0 ==> !is_continuation(#[trigger] ls[i][0]),
    ensures
        ({
            let ls2 = spec_delete_text(ls, f, t);
            &&& spec_clamp(ls2, f) == f
            &&& spec_insert_text(ls2, f, spec_range_text(ls, f, t)) == ls
        }),
{
    let fl = f.line_index as int;
    let tl = t.line_index as int;
    let fc = f.column_byte_index as int;
    let tc = t.column_byte_index as int;
    let prefix = ls[fl].subrange(0, fc);
    let suffix = ls[tl].subrange(tc, ls[tl].len() as int);
    let ls2 = spec_delete_text(ls, f, t);
    let txt = spec_range_text(ls, f, t);
    assert(ls2[fl] == prefix + suffix);
    assert(ls2[fl].subrange(0, fc) =~= prefix);
    assert(ls2[fl].subrange(fc, ls2[fl].len() as int) =~= suffix);
    // the start of the deleted range is a valid position afterwards
    lemma_round_down(ls2[fl], fc);
    if fc < ls2[fl].len() {
        assert(ls2[fl][fc] == ls[tl][tc]);
    }
    assert(round_down(ls2[fl], fc) == fc);
    // the pieces put back are the deleted lines
    let whole = prefix + txt + suffix;
    let orig = ls.subrange(fl, tl + 1);
    assert forall|i: int| 0 <= i < orig.len() implies no_newline(#[trigger] orig[i]) by {
        assert(orig[i] == ls[fl + i]);
    }
    if fl == tl {
        assert(whole =~= ls[fl]);
        lemma_split_join(seq![ls[fl]]);
        assert(join_lines(seq![ls[fl]]) == ls[fl]);
        assert(split_lines(whole) =~= seq![ls[fl]]);
    } else {
        let mid = orig.update(0, ls[fl].subrange(fc, ls[fl].len() as int)).update(tl - fl, ls[tl].subrange(0, tc));
        assert(txt == join_lines(mid));
        lemma_join_edges(mid, prefix, suffix);
        assert(mid[0] == ls[fl].subrange(fc, ls[fl].len() as int));
        assert(mid.last() == ls[tl].subrange(0, tc));
        assert(prefix + mid[0] =~= ls[fl]);
        assert(mid.last() + suffix =~= ls[tl]);
        assert(mid.update(0, prefix + mid[0]).update(mid.len() - 1, mid.last() + suffix) =~= orig);
        lemma_split_join(orig);
    }
    assert(split_lines(whole) == orig);
    assert(spec_insert_text(ls2, f, txt) =~= ls);
}

} // verus!

verus! {

/// Undo right after a deletion takes the content back to what it was: the
/// deletion is committed as a group of its own, and undoing it inserts the
/// text it took where it took it. No line starts with a byte that continues
/// a char, as in UTF-8 text.
pub proof fn lemma_undo_restores_delete(ls: Seq<Seq<u8>>, h: HistoryView, range: BufferRange, cursor_index: u8)
    requires
        content_wf(ls),
        h.wf(),
        h.state is IterIndex,
        h.groups.len() < usize::MAX,
        h.edits.len() < usize::MAX,
        forall|i: int| 0 <= i < ls.len() && ls[i].len() > 0 ==> !is_continuation(#[trigger] ls[i][0]),
    ensures
        ({
            let r = spec_delete_ends(ls, range);
            let e = EditView { kind: EditKind::Delete, range: r, text: spec_range_text(ls, r.from, r.to), cursor_index };
            let h2 = h.add_edit(e).commit();
            apply_edits(spec_delete_text(ls, r.from, r.to), h2.undo_result()) == ls
        }),
{
    let r = spec_delete_ends(ls, range);
    lemma_clamp_valid(ls, range.from);
    lemma_clamp_valid(ls, range.to);
    lemma_delete_then_insert_restores(ls, r.from, r.to);
    let e = EditView { kind: EditKind::Delete, range: r, text: spec_range_text(ls, r.from, r.to), cursor_index };
    let h2 = h.add_edit(e).commit();
    let u = h2.undo_result();
    let ins = EditView { kind: EditKind::Insert, ..e };
    let b = h.open_group();
    let i = match h.state { HistoryState::IterIndex(i) => i as int, _ => 0 };
    if i < h.groups.len() {
        crate::history::lemma_group_within_edits(h, i);
    }
    let lo = b.edits.len() as int;
    assert(b.state == HistoryState::InsertGroup(lo as usize, lo as usize));
    let h1 = h.add_edit(e);
    assert(h1.edits == b.edits.push(e));
    assert(h1.state == HistoryState::InsertGroup(lo as usize, (lo + 1) as usize));
    assert(h2.groups == b.groups.push((lo as usize, (lo + 1) as usize)));
    assert(h2.iter_index() == b.groups.len() + 1);
    assert(h2.commit() == h2);
    assert(h2.group_edits(b.groups.len() as int) =~= seq![e]);
    assert(u.len() == 1);
    assert(u[0] == ins);
    assert(u.drop_last() =~= Seq::<EditView>::empty());
    let ls2 = spec_delete_text(ls, r.from, r.to);
    assert(apply_edits(ls2, u) == apply_edit(apply_edits(ls2, u.drop_last()), ins));
}

} // verus!

verus! {

proof fn lemma_clamp_valid_identity(ls: Seq<Seq<u8>>, p: BufferPosition)
    requires
        content_wf(ls),
        valid_position(ls, p),
    ensures
        spec_clamp(ls, p) == p,
{
    let line = ls[p.line_index as int];
    let c = p.column_byte_index as int;
    if 0 < c < line.len() {
        assert(!is_continuation(line[c]));
    }
}

/// Redo right after undo of an insertion puts the content back as it was
/// after the insertion, and the history back as it was once committed.
pub proof fn lemma_redo_after_undo_of_insert(ls: Seq<Seq<u8>>, h: HistoryView, position: BufferPosition, t: Seq<u8>, cursor_index: u8)
    requires
        content_wf(ls),
        h.wf(),
        h.state is IterIndex,
        h.groups.len() < usize::MAX,
        h.edits.len() < usize::MAX,
        t.len() > 0 ==> !is_continuation(t[0]),
        ls.len() + t.len() <= usize::MAX,
        forall|i: int| 0 <= i < ls.len() ==> #[trigger] ls[i].len() + t.len() <= usize::MAX,
        forall|i: int| 0 <= i < ls.len() && ls[i].len() > 0 ==> !is_continuation(#[trigger] ls[i][0]),
    ensures
        ({
            let p = spec_clamp(ls, position);
            let r = BufferRange { from: p, to: spec_insert_end(ls, p, t) };
            let h2 = h.add_edit(EditView { kind: EditKind::Insert, range: r, text: t, cursor_index }).commit();
            let after = spec_insert_text(ls, p, t);
            let undone = apply_edits(after, h2.undo_result());
            &&& undone == ls
            &&& apply_edits(undone, h2.undo().redo_result()) == after
            &&& h2.undo().redo() == h2
        }),
{
    let p = spec_clamp(ls, position);
    lemma_undo_restores_insert(ls, h, position, t, cursor_index);
    lemma_clamp_valid(ls, position);
    lemma_clamp_valid_identity(ls, p);
    let r = BufferRange { from: p, to: spec_insert_end(ls, p, t) };
    let e = EditView { kind: EditKind::Insert, range: r, text: t, cursor_index };
    let h2 = h.add_edit(e).commit();
    let b = h.open_group();
    let i = match h.state { HistoryState::IterIndex(i) => i as int, _ => 0 };
    if i < h.groups.len() {
        crate::history::lemma_group_within_edits(h, i);
    }
    let lo = b.edits.len() as int;
    assert(h2.groups == b.groups.push((lo as usize, (lo + 1) as usize)));
    assert(h2.iter_index() == b.groups.len() + 1);
    assert(h2.commit() == h2);
    assert(h.add_edit(e).wf());
    assert(h2.wf());
    crate::history::lemma_redo_after_undo(h2);
    let g = h2.undo().redo_result();
    assert(g == h2.group_edits(b.groups.len() as int));
    assert(g =~= seq![e]);
    assert(g.drop_last() =~= Seq::<EditView>::empty());
    assert(apply_edits(ls, g.drop_last()) == ls);
    assert(apply_edits(ls, g) == apply_edit(ls, e));
    assert(apply_edit(ls, e) == spec_insert_text(ls, p, t));
    assert(h2.undo().redo() == h2.commit());
}

} // verus!

verus! {

/// An insertion or a deletion asked of a buffer.
pub enum EditRequest {
    Insert(BufferPosition, Seq<u8>),
    Delete(BufferRange),
}

/// What the buffer records for a request on content `ls`.
pub open spec fn recorded_edit(ls: Seq<Seq<u8>>, q: EditRequest) -> EditView {
    match q {
        EditRequest::Insert(pos, t) => {
            let p = spec_clamp(ls, pos);
            EditView { kind: EditKind::Insert, range: BufferRange { from: p, to: spec_insert_end(ls, p, t) }, text: t, cursor_index: 0 }
        },
        EditRequest::Delete(range) => {
            let r = spec_delete_ends(ls, range);
            EditView { kind: EditKind::Delete, range: r, text: spec_range_text(ls, r.from, r.to), cursor_index: 0 }
        },
    }
}

/// The content after the requests, in order.
pub open spec fn run_requests(ls: Seq<Seq<u8>>, qs: Seq<EditRequest>) -> Seq<Seq<u8>>
    decreases qs.len(),
{
    if qs.len() == 0 {
        ls
    } else {
        let cur = run_requests(ls, qs.drop_last());
        apply_edit(cur, recorded_edit(cur, qs.last()))
    }
}

/// What undoing the requests applies: their recorded edits, last first, each
/// with its kind flipped.
pub open spec fn undo_requests(ls: Seq<Seq<u8>>, qs: Seq<EditRequest>) -> Seq<EditView>
    decreases qs.len(),
{
    if qs.len() == 0 {
        Seq::empty()
    } else {
        let cur = run_requests(ls, qs.drop_last());
        let e = recorded_edit(cur, qs.last());
        seq![EditView { kind: crate::history::flip_kind(e.kind), ..e }] + undo_requests(ls, qs.drop_last())
    }
}

/// Content as UTF-8 text leaves it: well formed, no line starting with a
/// byte that continues a char.
pub open spec fn text_like(ls: Seq<Seq<u8>>) -> bool {
    &&& content_wf(ls)
    &&& forall|i: int| 0 <= i < ls.len() && ls[i].len() > 0 ==> !is_continuation(#[trigger] ls[i][0])
}

/// Each request meets content that is text-like, and an inserted text does
/// not start with a continuing byte nor make lengths overflow.
pub open spec fn requests_ok(ls: Seq<Seq<u8>>, qs: Seq<EditRequest>) -> bool
    decreases qs.len(),
{
    if qs.len() == 0 {
        true
    } else {
        let cur = run_requests(ls, qs.drop_last());
        &&& requests_ok(ls, qs.drop_last())
        &&& text_like(cur)
        &&& match qs.last() {
            EditRequest::Insert(_, t) => {
                &&& (t.len() > 0 ==> !is_continuation(t[0]))
                &&& cur.len() + t.len() <= usize::MAX
                &&& forall|i: int| 0 <= i < cur.len() ==> #[trigger] cur[i].len() + t.len() <= usize::MAX
            },
            EditRequest::Delete(_) => true,
        }
    }
}

proof fn lemma_apply_edits_front(ls: Seq<Seq<u8>>, a: EditView, rest: Seq<EditView>)
    ensures
        apply_edits(ls, seq![a] + rest) == apply_edits(apply_edit(ls, a), rest),
    decreases rest.len(),
{
    let s = seq![a] + rest;
    if rest.len() == 0 {
        assert(s.drop_last() =~= Seq::<EditView>::empty());
        assert(s.last() == a);
        assert(apply_edits(ls, s.drop_last()) == ls);
        assert(apply_edits(ls, s) == apply_edit(apply_edits(ls, s.drop_last()), s.last()));
        assert(apply_edits(apply_edit(ls, a), rest) == apply_edit(ls, a));
    } else {
        lemma_apply_edits_front(ls, a, rest.drop_last());
        assert(s.drop_last() =~= seq![a] + rest.drop_last());
        assert(s.last() == rest.last());
        assert(apply_edits(ls, s) == apply_edit(apply_edits(ls, s.drop_last()), s.last()));
        assert(apply_edits(apply_edit(ls, a), rest) == apply_edit(apply_edits(apply_edit(ls, a), rest.drop_last()), rest.last()));
    }
}

/// Undoing any sequence of insertions and deletions, by applying what was
/// recorded for each, last first and with its kind flipped, gives back the
/// content it started from.
pub proof fn lemma_undo_requests_restores(ls: Seq<Seq<u8>>, qs: Seq<EditRequest>)
    requires
        requests_ok(ls, qs),
    ensures
        apply_edits(run_requests(ls, qs), undo_requests(ls, qs)) == ls,
    decreases qs.len(),
{
    if qs.len() > 0 {
        let init = qs.drop_last();
        let cur = run_requests(ls, init);
        let e = recorded_edit(cur, qs.last());
        let u = EditView { kind: crate::history::flip_kind(e.kind), ..e };
        lemma_apply_edits_front(run_requests(ls, qs), u, undo_requests(ls, init));
        match qs.last() {
            EditRequest::Insert(pos, t) => {
                let p = spec_clamp(cur, pos);
                lemma_clamp_valid(cur, pos);
                lemma_insert_then_delete_restores(cur, p, t);
                lemma_clamp_valid_identity(cur, p);
                assert(apply_edit(run_requests(ls, qs), u) == cur);
            },
            EditRequest::Delete(range) => {
                let r = spec_delete_ends(cur, range);
                lemma_clamp_valid(cur, range.from);
                lemma_clamp_valid(cur, range.to);
                lemma_delete_then_insert_restores(cur, r.from, r.to);
                assert(apply_edit(run_requests(ls, qs), u) == cur);
            },
        }
        lemma_undo_requests_restores(ls, init);
    }
}

} // verus!

verus! {

/// What the buffer records for each request, in order.
pub open spec fn recorded_edits(ls: Seq<Seq<u8>>, qs: Seq<EditRequest>) -> Seq<EditView>
    decreases qs.len(),
{
    if qs.len() == 0 {
        Seq::empty()
    } else {
        recorded_edits(ls, qs.drop_last()).push(recorded_edit(run_requests(ls, qs.drop_last()), qs.last()))
    }
}

/// The edits last first, each with its kind flipped.
pub open spec fn reversed_flipped(g: Seq<EditView>) -> Seq<EditView> {
    Seq::new(g.len(), |k: int| EditView { kind: crate::history::flip_kind(g[g.len() - 1 - k].kind), ..g[g.len() - 1 - k] })
}

proof fn lemma_undo_requests_shape(ls: Seq<Seq<u8>>, qs: Seq<EditRequest>)
    ensures
        recorded_edits(ls, qs).len() == qs.len(),
        undo_requests(ls, qs) == reversed_flipped(recorded_edits(ls, qs)),
    decreases qs.len(),
{
    if qs.len() > 0 {
        lemma_undo_requests_shape(ls, qs.drop_last());
        assert(undo_requests(ls, qs) =~= reversed_flipped(recorded_edits(ls, qs)));
    }
}

/// Undo of a group whose edits are exactly those recorded for a sequence of
/// requests (no edit of the group was coalesced with another) takes the
/// content back to what it was before the requests.
pub proof fn lemma_undo_uncoalesced_group(ls: Seq<Seq<u8>>, qs: Seq<EditRequest>, h: HistoryView)
    requires
        requests_ok(ls, qs),
        h.wf(),
        h.iter_index() > 0,
        h.commit().group_edits(h.iter_index() - 1) == recorded_edits(ls, qs),
    ensures
        apply_edits(run_requests(ls, qs), h.undo_result()) == ls,
{
    lemma_undo_requests_shape(ls, qs);
    lemma_undo_requests_restores(ls, qs);
    assert(h.undo_result() =~= reversed_flipped(recorded_edits(ls, qs)));
}

} // verus!
