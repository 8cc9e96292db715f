use vstd::prelude::*;
use vstd::string::StringSliceAdditionalSpecFns;

use crate::buffer::{
    apply_edits, is_boundary, split_lines, is_continuation, round_down, spec_clamp, spec_delete_ends,
    spec_delete_text, spec_insert_text, spec_range_text, valid_position, Buffer,
    BufferCollection, BufferContent, BufferHandle, lemma_round_down, NEWLINE,
};
use crate::history::EditKind;
use crate::cursor::{collapsed, covered_by, ends_from, sorted_disjoint, Cursor, CursorCollection};
use crate::position::{BufferPosition, BufferRange};
use crate::word::{kind_of, spec_kind_of, spec_word_end, spec_word_start, word_end, word_start, WordKind};

verus! {

pub enum CursorMovement {
    ColumnsForward(usize),
    ColumnsBackward(usize),
    LinesForward(usize),
    LinesBackward(usize),
    WordsForward(usize),
    WordsBackward(usize),
    Home,
    HomeNonWhitespace,
    End,
    FirstLine,
    LastLine,
}

#[derive(Clone, Copy, Debug, PartialEq, Eq, Structural)]
pub enum CursorMovementKind {
    /// The anchor follows the position: selections collapse.
    PositionAndAnchor,
    /// Only the position moves: selections grow or shrink.
    PositionOnly,
}

/// The first char boundary of `line` at or after `j`.
pub open spec fn boundary_from(line: Seq<u8>, j: int) -> int
    decreases line.len() - j,
{
    if j >= line.len() {
        line.len() as int
    } else if j <= 0 || !is_continuation(line[j]) {
        j
    } else {
        boundary_from(line, j + 1)
    }
}

proof fn lemma_boundary_from(line: Seq<u8>, j: int)
    requires
        0 < j,
    ensures
        j <= boundary_from(line, j) <= line.len() || (j > line.len() && boundary_from(line, j) == line.len()),
        is_boundary(line, boundary_from(line, j)),
    decreases line.len() - j,
{
    if j < line.len() && is_continuation(line[j]) {
        lemma_boundary_from(line, j + 1);
    }
}

/// One char forward; at a line's end, onto the start of the next line; at the
/// buffer's end, nowhere.
pub open spec fn step_forward(ls: Seq<Seq<u8>>, p: BufferPosition) -> BufferPosition {
    let line = ls[p.line_index as int];
    if p.column_byte_index < line.len() {
        BufferPosition { column_byte_index: boundary_from(line, p.column_byte_index + 1) as usize, ..p }
    } else if p.line_index + 1 < ls.len() {
        BufferPosition { line_index: (p.line_index + 1) as usize, column_byte_index: 0 }
    } else {
        p
    }
}

/// One char backward; at a line's start, onto the end of the previous line;
/// at the buffer's start, nowhere.
pub open spec fn step_backward(ls: Seq<Seq<u8>>, p: BufferPosition) -> BufferPosition {
    if p.column_byte_index > 0 {
        BufferPosition { column_byte_index: round_down(ls[p.line_index as int], p.column_byte_index - 1) as usize, ..p }
    } else if p.line_index > 0 {
        BufferPosition { line_index: (p.line_index - 1) as usize, column_byte_index: ls[p.line_index - 1].len() as usize }
    } else {
        p
    }
}

pub open spec fn columns_forward(ls: Seq<Seq<u8>>, p: BufferPosition, n: nat) -> BufferPosition
    decreases n,
{
    if n == 0 {
        p
    } else {
        columns_forward(ls, step_forward(ls, p), (n - 1) as nat)
    }
}

pub open spec fn columns_backward(ls: Seq<Seq<u8>>, p: BufferPosition, n: nat) -> BufferPosition
    decreases n,
{
    if n == 0 {
        p
    } else {
        columns_backward(ls, step_backward(ls, p), (n - 1) as nat)
    }
}

proof fn lemma_forward_fixpoint(ls: Seq<Seq<u8>>, p: BufferPosition, n: nat)
    requires
        step_forward(ls, p) == p,
    ensures
        columns_forward(ls, p, n) == p,
    decreases n,
{
    if n > 0 {
        lemma_forward_fixpoint(ls, p, (n - 1) as nat);
    }
}

proof fn lemma_backward_fixpoint(ls: Seq<Seq<u8>>, p: BufferPosition, n: nat)
    requires
        step_backward(ls, p) == p,
    ensures
        columns_backward(ls, p, n) == p,
    decreases n,
{
    if n > 0 {
        lemma_backward_fixpoint(ls, p, (n - 1) as nat);
    }
}

/// Where a vertical motion lands: on line `line`, at the remembered column
/// if any, else at the current one, clamped onto the content.
pub open spec fn vertical_target(ls: Seq<Seq<u8>>, p: BufferPosition, line: int, saved: Option<usize>) -> BufferPosition {
    spec_clamp(ls, BufferPosition {
        line_index: line as usize,
        column_byte_index: match saved { Some(c) => c, None => p.column_byte_index },
    })
}

/// Where `movement` takes a cursor at `p` (a valid position). `saved` is the
/// column remembered for it.
pub open spec fn spec_move(ls: Seq<Seq<u8>>, p: BufferPosition, movement: CursorMovement, saved: Option<usize>) -> BufferPosition {
    match movement {
        CursorMovement::ColumnsForward(n) => columns_forward(ls, p, n as nat),
        CursorMovement::ColumnsBackward(n) => columns_backward(ls, p, n as nat),
        CursorMovement::LinesForward(n) => vertical_target(ls, p, if p.line_index + n >= ls.len() { ls.len() - 1 } else { p.line_index + n }, saved),
        CursorMovement::LinesBackward(n) => vertical_target(ls, p, if p.line_index >= n { p.line_index - n } else { 0 }, saved),
        CursorMovement::Home => BufferPosition { column_byte_index: 0, ..p },
        CursorMovement::End => BufferPosition { column_byte_index: ls[p.line_index as int].len() as usize, ..p },
        CursorMovement::FirstLine => spec_clamp(ls, BufferPosition { line_index: 0, ..p }),
        CursorMovement::LastLine => spec_clamp(ls, BufferPosition { line_index: (ls.len() - 1) as usize, ..p }),
        CursorMovement::WordsForward(n) => spec_clamp(ls, pair_position(words_forward(ls, p.line_index as int, p.column_byte_index as int, n as int))),
        CursorMovement::WordsBackward(n) => spec_clamp(ls, pair_position(words_backward(ls, p.line_index as int, p.column_byte_index as int, n as int))),
        CursorMovement::HomeNonWhitespace => spec_clamp(ls, BufferPosition { column_byte_index: home_column(ls[p.line_index as int]) as usize, ..p }),
    }
}

/// Where the first word of `line` ends when it is whitespace, else 0.
pub open spec fn home_column(line: Seq<u8>) -> int {
    if line.len() > 0 && spec_kind_of(line[0]) == WordKind::Whitespace { spec_word_end(line, 0) } else { 0 }
}

pub open spec fn is_vertical(movement: CursorMovement) -> bool {
    movement is LinesForward || movement is LinesBackward
}

fn next_char(line: &[u8], c: usize) -> (r: usize)
    requires
        c < line@.len(),
    ensures
        r == boundary_from(line@, c + 1),
        c < r <= line@.len(),
{
    let n = line.len();
    let mut j = c + 1;
    while j < n && line[j] >= 0x80 && line[j] <= 0xbf
        invariant
            c < j <= n,
            n == line@.len(),
            boundary_from(line@, j as int) == boundary_from(line@, c + 1),
        decreases n - j,
    {
        j = j + 1;
    }
    j
}

fn prev_char(line: &[u8], c: usize) -> (r: usize)
    requires
        0 < c <= line@.len(),
    ensures
        r == round_down(line@, c - 1),
        r < c,
{
    let mut j = c - 1;
    while j > 0 && line[j] >= 0x80 && line[j] <= 0xbf
        invariant
            j < c <= line@.len(),
            round_down(line@, j as int) == round_down(line@, c - 1),
        decreases j,
    {
        j = j - 1;
    }
    j
}

fn move_columns_forward(content: &BufferContent, p: BufferPosition, n: usize) -> (r: BufferPosition)
    requires
        content.wf(),
        valid_position(content@, p),
    ensures
        r == columns_forward(content@, p, n as nat),
        valid_position(content@, r),
{
    let ghost ls = content@;
    let line_count = content.line_count();
    let mut q = p;
    let mut k = n;
    while k > 0
        invariant
            content.wf(),
            ls == content@,
            line_count == ls.len(),
            valid_position(ls, q),
            columns_forward(ls, q, k as nat) == columns_forward(ls, p, n as nat),
        decreases k,
    {
        let line = content.line(q.line_index).text.as_slice();
        if q.column_byte_index < line.len() {
            let c = next_char(line, q.column_byte_index);
            proof {
                lemma_boundary_from(line@, q.column_byte_index + 1);
            }
            q = BufferPosition { line_index: q.line_index, column_byte_index: c };
        } else if q.line_index + 1 < line_count {
            q = BufferPosition { line_index: q.line_index + 1, column_byte_index: 0 };
        } else {
            proof {
                lemma_forward_fixpoint(ls, q, k as nat);
            }
            return q;
        }
        k = k - 1;
    }
    q
}

fn move_columns_backward(content: &BufferContent, p: BufferPosition, n: usize) -> (r: BufferPosition)
    requires
        content.wf(),
        valid_position(content@, p),
    ensures
        r == columns_backward(content@, p, n as nat),
        valid_position(content@, r),
{
    let ghost ls = content@;
    let mut q = p;
    let mut k = n;
    while k > 0
        invariant
            content.wf(),
            ls == content@,
            valid_position(ls, q),
            columns_backward(ls, q, k as nat) == columns_backward(ls, p, n as nat),
        decreases k,
    {
        if q.column_byte_index > 0 {
            let line = content.line(q.line_index).text.as_slice();
            let c = prev_char(line, q.column_byte_index);
            proof {
                lemma_round_down(line@, q.column_byte_index - 1);
            }
            q = BufferPosition { line_index: q.line_index, column_byte_index: c };
        } else if q.line_index > 0 {
            let len = content.line(q.line_index - 1).text.len();
            q = BufferPosition { line_index: q.line_index - 1, column_byte_index: len };
        } else {
            proof {
                lemma_backward_fixpoint(ls, q, k as nat);
            }
            return q;
        }
        k = k - 1;
    }
    q
}

/// How a search along a line for the `m`-th word that is not whitespace
/// ended: on the start of that word, or at the line's end with `m` left.
pub enum Scan {
    Found(int),
    Exhausted(int),
}

/// Looks for the `m`-th (from 0) word that is not whitespace, from byte `pos`
/// on, where a word starts.
pub open spec fn scan_forward(line: Seq<u8>, pos: int, m: int) -> Scan
    decreases line.len() - pos,
{
    if pos < 0 || pos >= line.len() {
        Scan::Exhausted(m)
    } else {
        let e = spec_word_end(line, pos);
        if spec_kind_of(line[pos]) != WordKind::Whitespace {
            if m == 0 {
                Scan::Found(pos)
            } else if pos < e <= line.len() {
                scan_forward(line, e, m - 1)
            } else {
                Scan::Exhausted(m - 1)
            }
        } else if pos < e <= line.len() {
            scan_forward(line, e, m)
        } else {
            Scan::Exhausted(m)
        }
    }
}

/// Where `n` steps of word motion forward from line `l`, byte `c` end.
/// Each step goes to the start of the next word that is not whitespace; the
/// end of a line and the crossing to the next line take a step each.
pub open spec fn words_forward(ls: Seq<Seq<u8>>, l: int, c: int, n: int) -> (int, int)
    decreases n,
{
    if n <= 0 || l < 0 || l >= ls.len() {
        (l, c)
    } else if c >= ls[l].len() {
        if l + 1 >= ls.len() { (l, c) } else { words_forward(ls, l + 1, 0, n - 1) }
    } else {
        match scan_forward(ls[l], spec_word_end(ls[l], c), n - 1) {
            Scan::Found(pos) => (l, pos),
            Scan::Exhausted(m) => if 0 <= m < n { words_forward(ls, l, ls[l].len() as int, m) } else { (l, ls[l].len() as int) },
        }
    }
}

/// Looks back from byte `pos` for the `m`-th (from 0) word that is not
/// whitespace; also gives the kind of the last word passed.
pub open spec fn scan_backward(line: Seq<u8>, pos: int, m: int, last: WordKind) -> (Scan, WordKind)
    decreases pos,
{
    if pos <= 0 || pos > line.len() {
        (Scan::Exhausted(m), last)
    } else {
        let s = spec_word_start(line, pos);
        let k = spec_kind_of(line[s]);
        if k != WordKind::Whitespace {
            if m == 0 {
                (Scan::Found(s), k)
            } else if 0 <= s < pos {
                scan_backward(line, s, m - 1, k)
            } else {
                (Scan::Exhausted(m - 1), k)
            }
        } else if 0 <= s < pos {
            scan_backward(line, s, m, k)
        } else {
            (Scan::Exhausted(m), k)
        }
    }
}

/// Where `n` steps of word motion backward from line `l`, byte `c` end.
/// Each step goes to the start of the previous word that is not whitespace;
/// crossing to the end of the previous line takes a step, and so does a line
/// that starts with whitespace.
pub open spec fn words_backward(ls: Seq<Seq<u8>>, l: int, c: int, n: int) -> (int, int)
    decreases n,
{
    if n <= 0 || l < 0 || l >= ls.len() {
        (l, c)
    } else {
        let (r, last) = scan_backward(ls[l], c, n - 1, WordKind::Identifier);
        match r {
            Scan::Found(s) => (l, s),
            Scan::Exhausted(m) => {
                let n2 = if last == WordKind::Whitespace { m } else { m + 1 };
                if n2 <= 0 || l == 0 {
                    (l, 0)
                } else if n2 - 1 < n {
                    words_backward(ls, l - 1, ls[l - 1].len() as int, n2 - 1)
                } else {
                    (l - 1, ls[l - 1].len() as int)
                }
            },
        }
    }
}

pub open spec fn pair_position(p: (int, int)) -> BufferPosition {
    BufferPosition { line_index: p.0 as usize, column_byte_index: p.1 as usize }
}

/// Word motion forward by `n` steps: each step lands on the start of the next
/// word that is not whitespace; reaching a line's end and crossing to the next
/// line count as a step each.
fn move_words_forward(content: &BufferContent, p: BufferPosition, n: usize) -> (r: BufferPosition)
    requires
        content.wf(),
        valid_position(content@, p),
    ensures
        valid_position(content@, r),
        r == spec_clamp(content@, pair_position(words_forward(content@, p.line_index as int, p.column_byte_index as int, n as int))),
{
    let ghost ls = content@;
    let ghost n0 = n;
    let last_line_index = content.line_count() - 1;
    let mut q = p;
    let mut n = n;
    while n > 0
        invariant
            content.wf(),
            ls == content@,
            last_line_index == ls.len() - 1,
            q.line_index < ls.len(),
            q.column_byte_index <= ls[q.line_index as int].len(),
            words_forward(ls, q.line_index as int, q.column_byte_index as int, n as int)
                == words_forward(ls, p.line_index as int, p.column_byte_index as int, n0 as int),
        decreases n,
    {
        let line = content.line(q.line_index).text.as_slice();
        if q.column_byte_index == line.len() {
            if q.line_index == last_line_index {
                n = 0;
            } else {
                q = BufferPosition { line_index: q.line_index + 1, column_byte_index: 0 };
                n = n - 1;
            }
        } else {
            let start = word_end(line, q.column_byte_index);
            let mut pos = start;
            let mut m = n - 1;
            let mut found = false;
            while pos < line.len() && !found
                invariant
                    start <= pos <= line@.len(),
                    m < n,
                    !found ==> scan_forward(line@, pos as int, m as int) == scan_forward(line@, start as int, n - 1),
                    found ==> scan_forward(line@, start as int, n - 1) == Scan::Found(pos as int),
                decreases line@.len() - pos, (if found { 0int } else { 1int }),
            {
                let e = word_end(line, pos);
                if kind_of(line[pos]) != WordKind::Whitespace {
                    if m == 0 {
                        found = true;
                    } else {
                        m = m - 1;
                        pos = e;
                    }
                } else {
                    pos = e;
                }
            }
            q = BufferPosition { line_index: q.line_index, column_byte_index: pos };
            if found {
                n = 0;
            } else {
                n = m;
            }
        }
    }
    let mut r = q;
    content.clamp_position(&mut r);
    r
}

/// Word motion backward by `n` steps: each step lands on the start of the
/// previous word that is not whitespace; crossing to the previous line's end
/// counts as a step, and so does a line that starts with whitespace.
fn move_words_backward(content: &BufferContent, p: BufferPosition, n: usize) -> (r: BufferPosition)
    requires
        content.wf(),
        valid_position(content@, p),
    ensures
        valid_position(content@, r),
        r == spec_clamp(content@, pair_position(words_backward(content@, p.line_index as int, p.column_byte_index as int, n as int))),
{
    let ghost ls = content@;
    let ghost n0 = n;
    let mut q = p;
    let mut n = n;
    while n > 0
        invariant
            content.wf(),
            ls == content@,
            q.line_index < ls.len(),
            q.column_byte_index <= ls[q.line_index as int].len(),
            words_backward(ls, q.line_index as int, q.column_byte_index as int, n as int)
                == words_backward(ls, p.line_index as int, p.column_byte_index as int, n0 as int),
        decreases n,
    {
        let line = content.line(q.line_index).text.as_slice();
        let start = q.column_byte_index;
        let mut pos = start;
        let mut m = n - 1;
        let mut found = false;
        let mut last_kind = WordKind::Identifier;
        while pos > 0 && !found
            invariant
                pos <= start <= line@.len(),
                m < n,
                !found ==> scan_backward(line@, pos as int, m as int, last_kind) == scan_backward(line@, start as int, n - 1, WordKind::Identifier),
                found ==> scan_backward(line@, start as int, n - 1, WordKind::Identifier) == (Scan::Found(pos as int), last_kind),
            decreases pos,
        {
            let s = word_start(line, pos);
            let kind = kind_of(line[s]);
            if kind != WordKind::Whitespace && m == 0 {
                found = true;
                pos = s;
            } else {
                if kind != WordKind::Whitespace {
                    m = m - 1;
                }
                pos = s;
            }
            last_kind = kind;
        }
        if found {
            q = BufferPosition { line_index: q.line_index, column_byte_index: pos };
            n = 0;
        } else {
            q = BufferPosition { line_index: q.line_index, column_byte_index: 0 };
            let n2 = if last_kind == WordKind::Whitespace { m } else { m + 1 };
            if n2 == 0 || q.line_index == 0 {
                n = 0;
            } else {
                let len = content.line(q.line_index - 1).text.len();
                q = BufferPosition { line_index: q.line_index - 1, column_byte_index: len };
                n = n2 - 1;
            }
        }
    }
    let mut r = q;
    content.clamp_position(&mut r);
    r
}

/// The end of the whitespace that starts the line, or its start when the line
/// starts otherwise.
fn home_non_whitespace(content: &BufferContent, p: BufferPosition) -> (r: BufferPosition)
    requires
        content.wf(),
        valid_position(content@, p),
    ensures
        valid_position(content@, r),
        r == spec_clamp(content@, BufferPosition { column_byte_index: home_column(content@[p.line_index as int]) as usize, ..p }),
{
    let line = content.line(p.line_index).text.as_slice();
    let mut r = if line.len() > 0 && kind_of(line[0]) == WordKind::Whitespace {
        BufferPosition { line_index: p.line_index, column_byte_index: word_end(line, 0) }
    } else {
        BufferPosition { line_index: p.line_index, column_byte_index: 0 }
    };
    content.clamp_position(&mut r);
    r
}

/// Where `movement` takes a cursor at `p`, which is clamped first.
pub fn move_position(content: &BufferContent, p: BufferPosition, movement: &CursorMovement, saved: Option<usize>) -> (r: BufferPosition)
    requires
        content.wf(),
    ensures
        valid_position(content@, r),
        r == spec_move(content@, spec_clamp(content@, p), *movement, saved),
{
    let mut p = p;
    content.clamp_position(&mut p);
    let line_count = content.line_count();
    match movement {
        CursorMovement::ColumnsForward(n) => move_columns_forward(content, p, *n),
        CursorMovement::ColumnsBackward(n) => move_columns_backward(content, p, *n),
        CursorMovement::LinesForward(n) => {
            let line = if p.line_index >= line_count - 1 || *n >= line_count - 1 - p.line_index {
                line_count - 1
            } else {
                p.line_index + *n
            };
            let mut r = BufferPosition {
                line_index: line,
                column_byte_index: match saved { Some(c) => c, None => p.column_byte_index },
            };
            content.clamp_position(&mut r);
            r
        },
        CursorMovement::LinesBackward(n) => {
            let line = if p.line_index >= *n { p.line_index - *n } else { 0 };
            let mut r = BufferPosition {
                line_index: line,
                column_byte_index: match saved { Some(c) => c, None => p.column_byte_index },
            };
            content.clamp_position(&mut r);
            r
        },
        CursorMovement::WordsForward(n) => move_words_forward(content, p, *n),
        CursorMovement::WordsBackward(n) => move_words_backward(content, p, *n),
        CursorMovement::Home => BufferPosition { line_index: p.line_index, column_byte_index: 0 },
        CursorMovement::HomeNonWhitespace => home_non_whitespace(content, p),
        CursorMovement::End => BufferPosition {
            line_index: p.line_index,
            column_byte_index: content.line(p.line_index).text.len(),
        },
        CursorMovement::FirstLine => {
            let mut r = BufferPosition { line_index: 0, column_byte_index: p.column_byte_index };
            content.clamp_position(&mut r);
            r
        },
        CursorMovement::LastLine => {
            let mut r = BufferPosition { line_index: line_count - 1, column_byte_index: p.column_byte_index };
            content.clamp_position(&mut r);
            r
        },
    }
}

/// The first line to show so that line `line` is within `height` rows
/// starting at `scroll`: unchanged when it already is, else moved just enough.
pub fn scroll_to_show(scroll: usize, line: usize, height: usize) -> (r: usize)
    ensures
        line < scroll ==> r == line,
        height > 0 && scroll <= line ==> (if line - scroll < height { r == scroll } else { r == line + 1 - height }),
        height > 0 ==> r <= line < r + height,
        height == 0 && scroll <= line ==> r == scroll,
{
    if line < scroll {
        line
    } else if height > 0 && line - scroll >= height {
        line - (height - 1)
    } else {
        scroll
    }
}

/// Names a connected client.
#[derive(Clone, Copy, Debug, PartialEq, Eq, Structural)]
pub struct ClientHandle(pub u8);

/// What a cursor becomes under `movement`, given the column remembered for it.
pub open spec fn moved_cursor(ls: Seq<Seq<u8>>, c: Cursor, movement: CursorMovement, kind: CursorMovementKind, saved: Option<usize>) -> Cursor {
    let p = spec_move(ls, spec_clamp(ls, c.position), movement, saved);
    Cursor { anchor: if kind == CursorMovementKind::PositionAndAnchor { p } else { c.anchor }, position: p }
}

/// The content after `text` is inserted at each position, last one first.
pub open spec fn insert_all(ls: Seq<Seq<u8>>, ps: Seq<BufferPosition>, text: Seq<u8>) -> Seq<Seq<u8>>
    decreases ps.len(),
{
    if ps.len() == 0 {
        ls
    } else {
        let next = spec_insert_text(ls, spec_clamp(ls, ps.last()), text);
        insert_all(next, ps.drop_last(), text)
    }
}

/// The content after the text of each range is deleted, last one first.
pub open spec fn delete_all(ls: Seq<Seq<u8>>, rs: Seq<BufferRange>) -> Seq<Seq<u8>>
    decreases rs.len(),
{
    if rs.len() == 0 {
        ls
    } else {
        let r = spec_delete_ends(ls, rs.last());
        delete_all(spec_delete_text(ls, r.from, r.to), rs.drop_last())
    }
}

/// The clamped ends of a cursor's selection, the end no earlier than the
/// start.
pub open spec fn selection_ends(ls: Seq<Seq<u8>>, c: Cursor) -> BufferRange {
    spec_delete_ends(ls, c.range())
}

/// The selected text of the first `n` cursors, with a newline between two
/// selections that are not on the same line.
pub open spec fn selection_text(ls: Seq<Seq<u8>>, cs: Seq<Cursor>, n: int) -> Seq<u8>
    decreases n,
{
    if n <= 0 {
        Seq::empty()
    } else {
        let r = selection_ends(ls, cs[n - 1]);
        let sep = if n > 1 && r.from.line_index > selection_ends(ls, cs[n - 2]).to.line_index {
            seq![NEWLINE]
        } else {
            Seq::empty()
        };
        selection_text(ls, cs, n - 1) + sep + spec_range_text(ls, r.from, r.to)
    }
}

/// The content after completing the word before `pos`: an identifier that
/// ends there is deleted and `completion` put in its place; elsewhere
/// `completion` is inserted at `pos`.
pub open spec fn complete_one(ls: Seq<Seq<u8>>, pos: BufferPosition, completion: Seq<u8>) -> Seq<Seq<u8>> {
    let p = spec_clamp(ls, pos);
    let line = ls[p.line_index as int];
    let c = p.column_byte_index as int;
    if c > 0 && spec_kind_of(line[spec_word_start(line, c)]) == WordKind::Identifier {
        let w = BufferPosition { line_index: p.line_index, column_byte_index: spec_word_start(line, c) as usize };
        let r = spec_delete_ends(ls, BufferRange { from: crate::position::pos_min(w, p), to: crate::position::pos_max(w, p) });
        let ls2 = spec_delete_text(ls, r.from, r.to);
        spec_insert_text(ls2, spec_clamp(ls2, w), completion)
    } else {
        spec_insert_text(ls, spec_clamp(ls, p), completion)
    }
}

/// The content after completing at each position, last one first.
pub open spec fn complete_all(ls: Seq<Seq<u8>>, ps: Seq<BufferPosition>, completion: Seq<u8>) -> Seq<Seq<u8>>
    decreases ps.len(),
{
    if ps.len() == 0 {
        ls
    } else {
        complete_all(complete_one(ls, ps.last(), completion), ps.drop_last(), completion)
    }
}

/// The cursor index that the history records for the cursor at `i`.
pub open spec fn history_cursor_index(i: int) -> u8 {
    if i < 255 { i as u8 } else { 255u8 }
}

fn cursor_index_for(i: usize) -> (r: u8)
    ensures
        r == history_cursor_index(i as int),
{
    if i < 255 { i as u8 } else { 255 }
}

/// Each cursor of `cs` moved by `movement`, with the columns remembered for
/// vertical motions.
pub open spec fn moved_cursors(ls: Seq<Seq<u8>>, cs: Seq<Cursor>, movement: CursorMovement, kind: CursorMovementKind, saved: Seq<usize>) -> Seq<Cursor> {
    Seq::new(cs.len(), |i: int| moved_cursor(ls, cs[i], movement, kind,
        if is_vertical(movement) && i < saved.len() { Some(saved[i]) } else { None }))
}

/// A client's view of a buffer: the buffer and the client's own cursors.
pub struct BufferView {
    pub client_handle: ClientHandle,
    pub buffer_handle: BufferHandle,
    pub cursors: CursorCollection,
}

impl BufferView {
    pub fn new(client_handle: ClientHandle, buffer_handle: BufferHandle) -> (r: Self)
        ensures
            r.client_handle == client_handle,
            r.buffer_handle == buffer_handle,
            r.cursors.wf(),
            r.cursors@ == seq![Cursor { anchor: BufferPosition { line_index: 0, column_byte_index: 0 }, position: BufferPosition { line_index: 0, column_byte_index: 0 } }],
    {
        BufferView { client_handle, buffer_handle, cursors: CursorCollection::new() }
    }

    /// A view of the same buffer for another client, with a copy of the cursors.
    pub fn clone_with_client_handle(&self, client_handle: ClientHandle) -> (r: Self)
        ensures
            r.client_handle == client_handle,
            r.buffer_handle == self.buffer_handle,
            r.cursors@ == self.cursors@,
            r.cursors.main_idx() == self.cursors.main_idx(),
    {
        BufferView { client_handle, buffer_handle: self.buffer_handle, cursors: self.cursors.duplicate() }
    }

    /// Moves every cursor by `movement`, then sorts and merges them. Vertical
    /// motions keep the column that a run of them started from; the others
    /// forget it. A view whose buffer is gone is left as it is.
    pub fn move_cursors(&mut self, buffers: &BufferCollection, movement: CursorMovement, movement_kind: CursorMovementKind)
        requires
            buffers.wf(),
        ensures
            final(self).client_handle == old(self).client_handle,
            final(self).buffer_handle == old(self).buffer_handle,
            buffers.get_spec(old(self).buffer_handle) is None ==> final(self).cursors@ == old(self).cursors@,
            buffers.get_spec(old(self).buffer_handle) matches Some(b) ==> {
                let ls = b.content@;
                &&& final(self).cursors.wf()
                &&& crate::cursor::sorted_disjoint(final(self).cursors@)
                &&& (movement_kind == CursorMovementKind::PositionAndAnchor || forall|i: int| 0 <= i < old(self).cursors@.len()
                    ==> valid_position(ls, #[trigger] old(self).cursors@[i].anchor))
                    ==> forall|i: int| 0 <= i < final(self).cursors@.len() ==> valid_position(ls, #[trigger] final(self).cursors@[i].position)
                        && valid_position(ls, final(self).cursors@[i].anchor)
                &&& old(self).cursors@.len() > 0 ==> ends_from(final(self).cursors@, moved_cursors(
                    ls, old(self).cursors@, movement, movement_kind, final(self).cursors.saved_columns()))
                &&& covered_by(moved_cursors(ls, old(self).cursors@, movement, movement_kind, final(self).cursors.saved_columns()), final(self).cursors@)
                &&& movement_kind == CursorMovementKind::PositionAndAnchor ==> collapsed(final(self).cursors@)
                &&& (sorted_disjoint(moved_cursors(ls, old(self).cursors@, movement, movement_kind, final(self).cursors.saved_columns()))
                    && old(self).cursors.main_idx() < old(self).cursors@.len())
                    ==> final(self).cursors@ == moved_cursors(ls, old(self).cursors@, movement, movement_kind, final(self).cursors.saved_columns())
                        && final(self).cursors.main_idx() == old(self).cursors.main_idx()
            },
    {
        let buffer = match buffers.get(self.buffer_handle) {
            Some(buffer) => &buffer.content,
            None => return,
        };
        proof {
            assert(buffers.get_spec(old(self).buffer_handle)->0.content == *buffer);
        }
        let vertical = match movement {
            CursorMovement::LinesForward(_) | CursorMovement::LinesBackward(_) => true,
            _ => false,
        };
        if vertical {
            self.cursors.save_column_byte_indices();
        } else {
            self.cursors.clear_saved_column_byte_indices();
        }
        let ghost ls = buffer@;
        let ghost before = self.cursors@;
        let ghost saved = self.cursors.saved_columns();
        let ghost moved = Seq::new(before.len(), |i: int| moved_cursor(
            ls,
            before[i],
            movement,
            movement_kind,
            if is_vertical(movement) && i < saved.len() { Some(saved[i]) } else { None },
        ));
        let n = self.cursors.len();
        let mut i: usize = 0;
        while i < n
            invariant
                buffer.wf(),
                ls == buffer@,
                self.client_handle == old(self).client_handle,
                self.buffer_handle == old(self).buffer_handle,
                n == before.len(),
                i <= n,
                self.cursors@.len() == n,
                self.cursors.saved_columns() == saved,
                self.cursors.main_idx() == old(self).cursors.main_idx(),
                vertical == is_vertical(movement),
                moved.len() == n,
                forall|k: int| 0 <= k < n ==> #[trigger] moved[k] == moved_cursor(
                    ls,
                    before[k],
                    movement,
                    movement_kind,
                    if is_vertical(movement) && k < saved.len() { Some(saved[k]) } else { None },
                ),
                forall|k: int| i <= k < n ==> self.cursors@[k] == before[k],
                forall|k: int| 0 <= k < i ==> #[trigger] self.cursors@[k] == moved[k],
                forall|k: int| 0 <= k < i ==> movement_kind == CursorMovementKind::PositionAndAnchor ==> #[trigger] self.cursors@[k].anchor == self.cursors@[k].position,
                forall|k: int| 0 <= k < i ==> movement_kind == CursorMovementKind::PositionOnly ==> #[trigger] self.cursors@[k].anchor == before[k].anchor,
                forall|k: int| 0 <= k < i ==> valid_position(ls, #[trigger] self.cursors@[k].position),
            decreases n - i,
        {
            let c = self.cursors.get(i);
            let saved_column = if vertical {
                self.cursors.get_saved_column_byte_index(i)
            } else {
                None
            };
            let position = move_position(buffer, c.position, &movement, saved_column);
            let anchor = match movement_kind {
                CursorMovementKind::PositionAndAnchor => position,
                CursorMovementKind::PositionOnly => c.anchor,
            };
            self.cursors.set(i, Cursor { anchor, position });
            i = i + 1;
        }
        let ghost pre = self.cursors@;
        assert(pre =~= moved);
        assert(moved == moved_cursors(ls, before, movement, movement_kind, saved));
        let ghost main0 = self.cursors.main_idx();
        self.cursors.normalize();
        proof {
            if movement_kind == CursorMovementKind::PositionAndAnchor || forall|i: int| 0 <= i < before.len()
                ==> valid_position(ls, #[trigger] before[i].anchor) {
                assert forall|k: int| 0 <= k < self.cursors@.len() implies valid_position(ls, #[trigger] self.cursors@[k].position)
                    && valid_position(ls, self.cursors@[k].anchor) by {
                    if pre.len() > 0 {
                        let c = self.cursors@[k];
                        assert(ends_from(self.cursors@, pre));
                        assert(crate::cursor::is_end_of(pre, self.cursors@[k].anchor));
                        assert(crate::cursor::is_end_of(pre, c.anchor) && crate::cursor::is_end_of(pre, c.position));
                        let j1 = choose|j: int| 0 <= j < pre.len() && (pre[j].anchor == c.position || pre[j].position == c.position);
                        let j2 = choose|j: int| 0 <= j < pre.len() && (pre[j].anchor == c.anchor || pre[j].position == c.anchor);
                        assert(valid_position(ls, pre[j1].position));
                        assert(valid_position(ls, pre[j2].position));
                    }
                }
            }
        }
    }
}

impl BufferView {
    /// Replaces `text` with the selected text of each cursor, in order; the
    /// selections of cursors on different lines are separated by a newline.
    pub fn get_selection_text(&self, buffers: &BufferCollection, text: &mut Vec<u8>)
        requires
            buffers.wf(),
        ensures
            buffers.get_spec(self.buffer_handle) is None ==> final(text)@.len() == 0,
            buffers.get_spec(self.buffer_handle) matches Some(b) ==> final(text)@ == selection_text(
                b.content@,
                self.cursors@,
                self.cursors@.len() as int,
            ),
    {
        text.clear();
        let buffer = match buffers.get(self.buffer_handle) {
            Some(buffer) => &buffer.content,
            None => return,
        };
        let ghost ls = buffer@;
        let ghost cs = self.cursors@;
        let n = self.cursors.len();
        let mut i: usize = 0;
        let mut last_to_line: usize = 0;
        while i < n
            invariant
                buffer.wf(),
                ls == buffer@,
                cs == self.cursors@,
                n == cs.len(),
                i <= n,
                text@ == selection_text(ls, cs, i as int),
                i > 0 ==> last_to_line == selection_ends(ls, cs[i - 1]).to.line_index,
            decreases n - i,
        {
            let c = self.cursors.get(i);
            let range = c.to_range();
            let mut from = range.from;
            buffer.clamp_position(&mut from);
            let mut to = range.to;
            buffer.clamp_position(&mut to);
            if !from.is_at_or_before(&to) {
                to = from;
            }
            if i > 0 && from.line_index > last_to_line {
                text.push(NEWLINE);
            }
            let selected = buffer.range_text(from, to);
            crate::bytes::push_all(text, selected.as_slice());
            last_to_line = to.line_index;
            i = i + 1;
            assert(text@ =~= selection_text(ls, cs, i as int));
        }
    }

    /// Inserts `text` at every cursor, the last cursor first, so that earlier
    /// positions stay put; returns the range of each insertion, in the order
    /// they were made. Other views learn of them through the view collection.
    pub fn insert_text_at_cursor_positions(&mut self, buffers: &mut BufferCollection, text: &str) -> (r: Vec<BufferRange>)
        requires
            old(buffers).wf(),
        ensures
            final(buffers).wf(),
            final(self).cursors@ == old(self).cursors@,
            old(buffers).get_spec(old(self).buffer_handle) is None ==> r@.len() == 0 && final(buffers).slots() == old(buffers).slots(),
            old(buffers).get_spec(old(self).buffer_handle) matches Some(b) ==> {
                &&& r@.len() == old(self).cursors@.len()
                &&& final(buffers).get_spec(old(self).buffer_handle) matches Some(nb) && nb.content@ == insert_all(
                    b.content@,
                    old(self).cursors@.map_values(|c: Cursor| c.position),
                    text.spec_bytes(),
                ) && nb.needs_save == (b.needs_save || r@.len() > 0) && nb.path == b.path
            },
    {
        let mut buffer = match buffers.take(self.buffer_handle) {
            Some(buffer) => buffer,
            None => return Vec::new(),
        };
        let ghost ps = self.cursors@.map_values(|c: Cursor| c.position);
        let ghost ls0 = buffer.content@;
        let ghost b0_needs_save = buffer.needs_save;
        let ghost b0_path = buffer.path;
        let mut ranges: Vec<BufferRange> = Vec::new();
        let n = self.cursors.len();
        let mut i = n;
        assert(ps.subrange(0, n as int) =~= ps);
        while i > 0
            invariant
                buffer.wf(),
                i <= n,
                n == ps.len(),
                ps == self.cursors@.map_values(|c: Cursor| c.position),
                ranges@.len() == n - i,
                buffer.needs_save == (b0_needs_save || ranges@.len() > 0),
                buffer.path == b0_path,
                insert_all(buffer.content@, ps.subrange(0, i as int), text.spec_bytes()) == insert_all(ls0, ps, text.spec_bytes()),
            decreases i,
        {
            i = i - 1;
            let c = self.cursors.get(i);
            let ghost before = buffer.content@;
            assert(ps.subrange(0, i + 1).drop_last() =~= ps.subrange(0, i as int));
            assert(ps.subrange(0, i + 1).last() == c.position);
            let range = buffer.insert_text(c.position, text, cursor_index_for(i));
            ranges.push(range);
        }
        assert(ps.subrange(0, 0) =~= Seq::<BufferPosition>::empty());
        assert(ps.subrange(0, n as int) =~= ps);
        buffers.put_back(self.buffer_handle, buffer);
        ranges
    }

    /// Deletes the selection of every cursor, the last cursor first; returns
    /// the range of each deletion, in the order they were made.
    pub fn delete_text_in_cursor_ranges(&mut self, buffers: &mut BufferCollection) -> (r: Vec<BufferRange>)
        requires
            old(buffers).wf(),
        ensures
            final(buffers).wf(),
            final(self).cursors@ == old(self).cursors@,
            old(buffers).get_spec(old(self).buffer_handle) is None ==> r@.len() == 0 && final(buffers).slots() == old(buffers).slots(),
            old(buffers).get_spec(old(self).buffer_handle) matches Some(b) ==> {
                &&& r@.len() == old(self).cursors@.len()
                &&& final(buffers).get_spec(old(self).buffer_handle) matches Some(nb) && nb.content@ == delete_all(
                    b.content@,
                    old(self).cursors@.map_values(|c: Cursor| c.range()),
                ) && nb.needs_save == (b.needs_save || r@.len() > 0) && nb.path == b.path
            },
    {
        let mut buffer = match buffers.take(self.buffer_handle) {
            Some(buffer) => buffer,
            None => return Vec::new(),
        };
        let ghost rs = self.cursors@.map_values(|c: Cursor| c.range());
        let ghost ls0 = buffer.content@;
        let ghost b0_needs_save = buffer.needs_save;
        let ghost b0_path = buffer.path;
        let mut ranges: Vec<BufferRange> = Vec::new();
        let n = self.cursors.len();
        let mut i = n;
        assert(rs.subrange(0, n as int) =~= rs);
        while i > 0
            invariant
                buffer.wf(),
                i <= n,
                n == rs.len(),
                rs == self.cursors@.map_values(|c: Cursor| c.range()),
                ranges@.len() == n - i,
                buffer.needs_save == (b0_needs_save || ranges@.len() > 0),
                buffer.path == b0_path,
                delete_all(buffer.content@, rs.subrange(0, i as int)) == delete_all(ls0, rs),
            decreases i,
        {
            i = i - 1;
            let c = self.cursors.get(i);
            assert(rs.subrange(0, i + 1).drop_last() =~= rs.subrange(0, i as int));
            assert(rs.subrange(0, i + 1).last() == c.range());
            let range = c.to_range();
            let ends = buffer.delete_ends(range);
            buffer.delete_range(range, cursor_index_for(i));
            ranges.push(ends);
        }
        assert(rs.subrange(0, 0) =~= Seq::<BufferRange>::empty());
        assert(rs.subrange(0, n as int) =~= rs);
        buffers.put_back(self.buffer_handle, buffer);
        ranges
    }

    /// Completes the word before each cursor, the last cursor first: an
    /// identifier that ends at the cursor is replaced by `completion`;
    /// elsewhere `completion` is inserted at the cursor.
    pub fn apply_completion(&mut self, buffers: &mut BufferCollection, completion: &str)
        requires
            old(buffers).wf(),
        ensures
            final(buffers).wf(),
            final(self).cursors@ == old(self).cursors@,
            old(buffers).get_spec(old(self).buffer_handle) is None ==> final(buffers).slots() == old(buffers).slots(),
            old(buffers).get_spec(old(self).buffer_handle) matches Some(b) ==> (final(buffers).get_spec(old(self).buffer_handle) matches Some(nb)
                && nb.content@ == complete_all(b.content@, old(self).cursors@.map_values(|c: Cursor| c.position), completion.spec_bytes())),
    {
        if buffers.get(self.buffer_handle).is_none() {
            return;
        }
        let mut buffer = match buffers.take(self.buffer_handle) {
            Some(buffer) => buffer,
            None => return,
        };
        let ghost ps = self.cursors@.map_values(|c: Cursor| c.position);
        let ghost ls0 = buffer.content@;
        let n = self.cursors.len();
        let mut i = n;
        assert(ps.subrange(0, n as int) =~= ps);
        while i > 0
            invariant
                buffer.wf(),
                i <= n,
                n == self.cursors@.len(),
                n == ps.len(),
                ps == self.cursors@.map_values(|c: Cursor| c.position),
                complete_all(buffer.content@, ps.subrange(0, i as int), completion.spec_bytes())
                    == complete_all(ls0, ps, completion.spec_bytes()),
            decreases i,
        {
            i = i - 1;
            assert(ps.subrange(0, i + 1).drop_last() =~= ps.subrange(0, i as int));
            assert(ps.subrange(0, i + 1).last() == self.cursors@[i as int].position);
            let mut position = self.cursors.get(i).position;
            buffer.content.clamp_position(&mut position);
            let line = buffer.content.line(position.line_index).text.as_slice();
            let mut insert_at = position;
            if position.column_byte_index > 0 {
                let start = word_start(line, position.column_byte_index);
                if kind_of(line[start]) == WordKind::Identifier {
                    let word_position = BufferPosition { line_index: position.line_index, column_byte_index: start };
                    buffer.delete_range(BufferRange::between(word_position, position), cursor_index_for(i));
                    insert_at = word_position;
                }
            }
            let _ = buffer.insert_text(insert_at, completion, cursor_index_for(i));
        }
        assert(ps.subrange(0, 0) =~= Seq::<BufferPosition>::empty());
        buffers.put_back(self.buffer_handle, buffer);
    }

    /// Undoes the buffer's last group of edits and puts a cursor where each
    /// edit of the group's last run of one kind happened. Returns the kind
    /// and range of every edit applied, for the other views.
    pub fn undo(&mut self, buffers: &mut BufferCollection) -> (r: Vec<(EditKind, BufferRange)>)
        requires
            old(buffers).wf(),
        ensures
            final(buffers).wf(),
            old(buffers).get_spec(old(self).buffer_handle) is None ==> r@.len() == 0
                && final(buffers).slots() == old(buffers).slots()
                && final(buffers).free() == old(buffers).free()
                && final(buffers).pending_removal() == old(buffers).pending_removal(),
            old(buffers).get_spec(old(self).buffer_handle) matches Some(b) ==> {
                &&& final(buffers).get_spec(old(self).buffer_handle) matches Some(nb)
                    && nb.content@ == apply_edits(b.content@, b.history@.undo_result())
                    && nb.history@ == b.history@.undo()
                &&& r@.len() == b.history@.undo_result().len()
            },
            final(self).buffer_handle == old(self).buffer_handle,
            final(self).client_handle == old(self).client_handle,
            r@.len() == 0 ==> final(self).cursors@ == old(self).cursors@
                && final(self).cursors.main_idx() == old(self).cursors.main_idx(),
            r@.len() > 0 ==> final(self).cursors.wf() && sorted_disjoint(final(self).cursors@)
                && collapsed(final(self).cursors@),
    {
        if buffers.get(self.buffer_handle).is_none() {
            return Vec::new();
        }
        let mut buffer = match buffers.take(self.buffer_handle) {
            Some(buffer) => buffer,
            None => return Vec::new(),
        };
        let edits = buffer.undo();
        buffers.put_back(self.buffer_handle, buffer);
        if edits.len() > 0 {
            self.cursors.clear();
            let mut ignore_kind: Option<EditKind> = None;
            let mut previous_kind: Option<EditKind> = None;
            let mut i: usize = 0;
            while i < edits.len()
                invariant
                    i <= edits@.len(),
                    collapsed(self.cursors@),
                    self.buffer_handle == old(self).buffer_handle,
                    self.client_handle == old(self).client_handle,
                decreases edits@.len() - i,
            {
                let (kind, range) = edits[i];
                let mut skip = false;
                match ignore_kind {
                    Some(k) => {
                        if k == kind {
                            skip = true;
                        }
                    },
                    None => {
                        if previous_kind != Some(kind) {
                            ignore_kind = previous_kind;
                            self.cursors.clear();
                        }
                        previous_kind = Some(kind);
                    },
                }
                if !skip {
                    self.cursors.add(Cursor { anchor: range.from, position: range.from });
                }
                i = i + 1;
            }
            self.cursors.normalize();
        }
        edits
    }

    /// Redoes the buffer's next group of edits and puts a cursor at each of
    /// them, moved along by the edits that follow it. Returns the kind and
    /// range of every edit applied, for the other views.
    pub fn redo(&mut self, buffers: &mut BufferCollection) -> (r: Vec<(EditKind, BufferRange)>)
        requires
            old(buffers).wf(),
        ensures
            final(buffers).wf(),
            old(buffers).get_spec(old(self).buffer_handle) is None ==> r@.len() == 0
                && final(buffers).slots() == old(buffers).slots()
                && final(buffers).free() == old(buffers).free()
                && final(buffers).pending_removal() == old(buffers).pending_removal(),
            old(buffers).get_spec(old(self).buffer_handle) matches Some(b) ==> {
                &&& final(buffers).get_spec(old(self).buffer_handle) matches Some(nb)
                    && nb.content@ == apply_edits(b.content@, b.history@.redo_result())
                    && nb.history@ == b.history@.redo()
                &&& r@.len() == b.history@.redo_result().len()
            },
            final(self).buffer_handle == old(self).buffer_handle,
            final(self).client_handle == old(self).client_handle,
            r@.len() == 0 ==> final(self).cursors@ == old(self).cursors@
                && final(self).cursors.main_idx() == old(self).cursors.main_idx(),
            r@.len() > 0 ==> final(self).cursors.wf() && sorted_disjoint(final(self).cursors@)
                && collapsed(final(self).cursors@),
    {
        if buffers.get(self.buffer_handle).is_none() {
            return Vec::new();
        }
        let mut buffer = match buffers.take(self.buffer_handle) {
            Some(buffer) => buffer,
            None => return Vec::new(),
        };
        let edits = buffer.redo();
        buffers.put_back(self.buffer_handle, buffer);
        if edits.len() > 0 {
            self.cursors.clear();
            let mut i = edits.len();
            while i > 0
                invariant
                    i <= edits@.len(),
                    collapsed(self.cursors@),
                    self.buffer_handle == old(self).buffer_handle,
                    self.client_handle == old(self).client_handle,
                decreases i,
            {
                i = i - 1;
                let (kind, range) = edits[i];
                let mut k: usize = 0;
                while k < self.cursors.len()
                    invariant
                        k <= self.cursors@.len(),
                        collapsed(self.cursors@),
                        self.buffer_handle == old(self).buffer_handle,
                        self.client_handle == old(self).client_handle,
                    decreases self.cursors@.len() - k,
                {
                    let mut c = self.cursors.get(k);
                    match kind {
                        EditKind::Insert => c.delete(range),
                        EditKind::Delete => c.insert(range),
                    }
                    self.cursors.set(k, c);
                    k = k + 1;
                }
                self.cursors.add(Cursor { anchor: range.from, position: range.from });
            }
            self.cursors.normalize();
        }
        edits
    }
}

/// Names a slot of a `BufferViewCollection`.
#[derive(Clone, Copy, Debug, PartialEq, Eq, Structural)]
pub struct BufferViewHandle(pub u32);

#[derive(Clone, Copy, Debug, PartialEq, Eq, Structural)]
pub enum BufferViewError {
    InvalidPath,
}

/// The views of all clients, in slots that are reused once freed.
pub struct BufferViewCollection {
    buffer_views: Vec<Option<BufferView>>,
}

impl BufferViewCollection {
    pub closed spec fn slots(&self) -> Seq<Option<BufferView>> {
        self.buffer_views@
    }

    pub open spec fn get_spec(&self, handle: BufferViewHandle) -> Option<BufferView> {
        if handle.0 < self.slots().len() { self.slots()[handle.0 as int] } else { None }
    }

    pub fn new() -> (r: Self)
        ensures
            r.slots().len() == 0,
    {
        BufferViewCollection { buffer_views: Vec::new() }
    }

    pub fn slots_len(&self) -> (r: usize)
        ensures
            r == self.slots().len(),
    {
        self.buffer_views.len()
    }

    /// Stores the view in the first free slot, or in a new one.
    pub fn add(&mut self, buffer_view: BufferView) -> (r: BufferViewHandle)
        requires
            old(self).slots().len() < u32::MAX,
        ensures
            r.0 <= old(self).slots().len(),
            forall|i: int| 0 <= i < r.0 ==> old(self).slots()[i] is Some,
            r.0 < old(self).slots().len() ==> old(self).slots()[r.0 as int] is None
                && final(self).slots() == old(self).slots().update(r.0 as int, Some(buffer_view)),
            r.0 == old(self).slots().len() ==> final(self).slots() == old(self).slots().push(Some(buffer_view)),
    {
        let mut i: usize = 0;
        while i < self.buffer_views.len()
            invariant
                i <= self.slots().len(),
                self.slots().len() < u32::MAX,
                self.slots() == old(self).slots(),
                forall|k: int| 0 <= k < i ==> old(self).slots()[k] is Some,
            decreases self.slots().len() - i,
        {
            if self.buffer_views[i].is_none() {
                self.buffer_views.set(i, Some(buffer_view));
                return BufferViewHandle(i as u32);
            }
            i = i + 1;
        }
        let handle = BufferViewHandle(self.buffer_views.len() as u32);
        self.buffer_views.push(Some(buffer_view));
        handle
    }

    pub fn get(&self, handle: BufferViewHandle) -> (r: Option<&BufferView>)
        ensures
            r is Some <==> self.get_spec(handle) is Some,
            r matches Some(v) ==> self.get_spec(handle) == Some(*v),
    {
        if (handle.0 as usize) < self.buffer_views.len() {
            match &self.buffer_views[handle.0 as usize] {
                Some(v) => Some(v),
                None => None,
            }
        } else {
            None
        }
    }

    /// Takes the view out of its slot, to be put back with `put_back`.
    pub fn take(&mut self, handle: BufferViewHandle) -> (r: Option<BufferView>)
        ensures
            r == old(self).get_spec(handle),
            final(self).slots().len() == old(self).slots().len(),
            forall|i: int| 0 <= i < old(self).slots().len() && i != handle.0 ==> final(self).slots()[i] == old(self).slots()[i],
    {
        if (handle.0 as usize) < self.buffer_views.len() {
            let mut slot = None;
            std::mem::swap(&mut slot, &mut self.buffer_views[handle.0 as usize]);
            slot
        } else {
            None
        }
    }

    pub fn put_back(&mut self, handle: BufferViewHandle, view: BufferView)
        requires
            handle.0 < old(self).slots().len(),
        ensures
            final(self).slots() == old(self).slots().update(handle.0 as int, Some(view)),
    {
        self.buffer_views.set(handle.0 as usize, Some(view));
    }

    /// Moves every cursor of every view of `buffer_handle` past text inserted
    /// over `range`, then sorts and merges each view's cursors.
    pub fn on_buffer_insert_text(&mut self, buffer_handle: BufferHandle, range: BufferRange)
        ensures
            final(self).slots().len() == old(self).slots().len(),
            forall|i: int| 0 <= i < old(self).slots().len() ==> slot_shifted(#[trigger] old(self).slots()[i], final(self).slots()[i], buffer_handle, range, true),
    {
        self.shift_cursors(buffer_handle, range, true);
    }

    /// Moves every cursor of every view of `buffer_handle` over text deleted
    /// from `range`, then sorts and merges each view's cursors.
    pub fn on_buffer_delete_text(&mut self, buffer_handle: BufferHandle, range: BufferRange)
        ensures
            final(self).slots().len() == old(self).slots().len(),
            forall|i: int| 0 <= i < old(self).slots().len() ==> slot_shifted(#[trigger] old(self).slots()[i], final(self).slots()[i], buffer_handle, range, false),
    {
        self.shift_cursors(buffer_handle, range, false);
    }

    fn shift_cursors(&mut self, buffer_handle: BufferHandle, range: BufferRange, insert: bool)
        ensures
            final(self).slots().len() == old(self).slots().len(),
            forall|i: int| 0 <= i < old(self).slots().len() ==> slot_shifted(#[trigger] old(self).slots()[i], final(self).slots()[i], buffer_handle, range, insert),
    {
        let n = self.buffer_views.len();
        let mut i: usize = 0;
        while i < n
            invariant
                i <= n,
                n == self.slots().len(),
                n == old(self).slots().len(),
                forall|k: int| i <= k < n ==> self.slots()[k] == old(self).slots()[k],
                forall|k: int| 0 <= k < i ==> slot_shifted(#[trigger] old(self).slots()[k], self.slots()[k], buffer_handle, range, insert),
            decreases n - i,
        {
            let handle = BufferViewHandle(i as u32);
            let is_target = match &self.buffer_views[i] {
                Some(v) => v.buffer_handle == buffer_handle,
                None => false,
            };
            if is_target {
                let mut slot = None;
                std::mem::swap(&mut slot, &mut self.buffer_views[i]);
                let mut view = slot.unwrap();
                let ghost before = view.cursors@;
                let m = view.cursors.len();
                let mut k: usize = 0;
                while k < m
                    invariant
                        k <= m,
                        m == view.cursors@.len(),
                        m == before.len(),
                        view.buffer_handle == old(self).slots()[i as int]->0.buffer_handle,
                        view.client_handle == old(self).slots()[i as int]->0.client_handle,
                        view.cursors.main_idx() == old(self).slots()[i as int]->0.cursors.main_idx(),
                        forall|x: int| k <= x < m ==> view.cursors@[x] == before[x],
                        forall|x: int| 0 <= x < k ==> #[trigger] view.cursors@[x] == shifted_cursor(before[x], range, insert),
                    decreases m - k,
                {
                    let mut c = view.cursors.get(k);
                    if insert {
                        c.insert(range);
                    } else {
                        c.delete(range);
                    }
                    view.cursors.set(k, c);
                    k = k + 1;
                }
                assert(view.cursors@ =~= before.map_values(|c: Cursor| shifted_cursor(c, range, insert)));
                view.cursors.normalize();
                self.buffer_views.set(i, Some(view));
            }
            i = i + 1;
        }
    }

    /// Drops every view that `predicate` picks and marks its buffer for
    /// removal, in slot order.
    pub fn defer_remove_buffer_where<F: Fn(&BufferView) -> bool>(&mut self, buffers: &mut BufferCollection, predicate: F)
        requires
            forall|v: &BufferView| #[trigger] predicate.requires((v,)),
        ensures
            final(self).slots().len() == old(self).slots().len(),
            forall|i: int| 0 <= i < old(self).slots().len() ==> match #[trigger] old(self).slots()[i] {
                None => final(self).slots()[i] is None,
                Some(v) => (final(self).slots()[i] is None && predicate.ensures((&v,), true))
                    || (final(self).slots()[i] == old(self).slots()[i] && predicate.ensures((&v,), false)),
            },
            final(buffers).slots() == old(buffers).slots(),
            final(buffers).free() == old(buffers).free(),
            final(buffers).pending_removal() == old(buffers).pending_removal() + removed_handles(
                old(self).slots(),
                final(self).slots(),
                old(self).slots().len() as int,
            ),
    {
        let n = self.buffer_views.len();
        let mut i: usize = 0;
        while i < n
            invariant
                i <= n,
                n == self.slots().len(),
                n == old(self).slots().len(),
                forall|v: &BufferView| #[trigger] predicate.requires((v,)),
                forall|k: int| i <= k < n ==> #[trigger] self.slots()[k] == old(self).slots()[k],
                forall|k: int| 0 <= k < i ==> match #[trigger] old(self).slots()[k] {
                    None => self.slots()[k] is None,
                    Some(v) => (self.slots()[k] is None && predicate.ensures((&v,), true))
                        || (self.slots()[k] == old(self).slots()[k] && predicate.ensures((&v,), false)),
                },
                buffers.slots() == old(buffers).slots(),
                buffers.free() == old(buffers).free(),
                buffers.pending_removal() == old(buffers).pending_removal() + removed_handles(old(self).slots(), self.slots(), i as int),
            decreases n - i,
        {
            let ghost before = self.slots();
            let remove = match &self.buffer_views[i] {
                Some(view) => {
                    if predicate(view) {
                        buffers.defer_remove(view.buffer_handle);
                        true
                    } else {
                        false
                    }
                },
                None => false,
            };
            if remove {
                self.buffer_views.set(i, None);
            }
            proof {
                lemma_removed_handles_frame(old(self).slots(), before, self.slots(), i as int);
                let o = old(self).slots()[i as int];
                if remove {
                    assert(removed_handles(old(self).slots(), self.slots(), i + 1)
                        == removed_handles(old(self).slots(), self.slots(), i as int).push(o->0.buffer_handle.0));
                } else {
                    assert(removed_handles(old(self).slots(), self.slots(), i + 1)
                        == removed_handles(old(self).slots(), self.slots(), i as int));
                }
                assert(buffers.pending_removal() =~= old(buffers).pending_removal() + removed_handles(old(self).slots(), self.slots(), i + 1));
            }
            i = i + 1;
        }
    }

    /// The view of the buffer at `path`, for the client. A buffer that has
    /// that path already is reused; otherwise a new buffer holding `contents`
    /// is made for it, unless the path is empty. With a position, the view's
    /// only cursor is put there, clamped onto the buffer.
    pub fn buffer_view_handle_from_path(
        &mut self,
        client_handle: ClientHandle,
        buffers: &mut BufferCollection,
        path: &str,
        contents: &str,
        position: Option<BufferPosition>,
    ) -> (r: Result<BufferViewHandle, BufferViewError>)
        requires
            old(self).slots().len() < u32::MAX,
            old(buffers).wf(),
            old(buffers).free().len() > 0 || old(buffers).slots().len() < u32::MAX,
        ensures
            final(buffers).wf(),
            r is Err <==> (path.spec_bytes().len() == 0
                && forall|i: int| 0 <= i < old(buffers).slots().len() ==> !(#[trigger] old(buffers).slots()[i] matches Some(b) && b.path@ == path.spec_bytes())),
            match r {
                Err(_) => true,
                Ok(h) => match final(self).get_spec(h) {
                    None => false,
                    Some(v) => v.client_handle == client_handle && match final(buffers).get_spec(v.buffer_handle) {
                        None => false,
                        Some(b) => b.path@ == path.spec_bytes()
                            && ((forall|i: int| 0 <= i < old(buffers).slots().len() ==> !(#[trigger] old(buffers).slots()[i] matches Some(b) && b.path@ == path.spec_bytes()))
                                ==> b.content@ == split_lines(contents.spec_bytes()) && !b.needs_save)
                            && match position {
                                None => true,
                                Some(q) => v.cursors@ == seq![Cursor { anchor: spec_clamp(b.content@, q), position: spec_clamp(b.content@, q) }]
                                    && v.cursors.main_idx() == 0,
                            },
                    },
                },
            },
    {
        let buffer_handle = match buffers.find_with_path(path) {
            Some(handle) => handle,
            None => {
                if path.is_empty() {
                    return Err(BufferViewError::InvalidPath);
                }
                let mut buffer = Buffer::with_contents(BufferContent::from_str(contents));
                buffer.set_path(path);
                buffers.add(buffer)
            },
        };
        let handle = self.buffer_view_handle_from_buffer_handle(client_handle, buffer_handle);
        if let Some(mut position) = position {
            let mut view = self.take(handle).unwrap();
            match buffers.get(view.buffer_handle) {
                Some(buffer) => buffer.content.clamp_position(&mut position),
                None => {},
            }
            view.cursors.clear();
            view.cursors.add(Cursor { anchor: position, position });
            assert(sorted_disjoint(view.cursors@));
            view.cursors.normalize();
            self.put_back(handle, view);
        }
        Ok(handle)
    }

    /// The view of `buffer_handle` for the client: the first one there is,
    /// left as it is, or else a new one.
    pub fn buffer_view_handle_from_buffer_handle(&mut self, client_handle: ClientHandle, buffer_handle: BufferHandle) -> (r: BufferViewHandle)
        requires
            old(self).slots().len() < u32::MAX,
        ensures
            final(self).get_spec(r) matches Some(v) && v.client_handle == client_handle && v.buffer_handle == buffer_handle,
            forall|i: int| 0 <= i < old(self).slots().len() && i != r.0 ==> final(self).slots()[i] == old(self).slots()[i],
            (exists|i: int| 0 <= i < old(self).slots().len() && #[trigger] is_view_of(old(self).slots()[i], client_handle, buffer_handle))
                ==> final(self).slots() == old(self).slots() && r.0 < old(self).slots().len()
                    && forall|i: int| 0 <= i < r.0 ==> !is_view_of(#[trigger] old(self).slots()[i], client_handle, buffer_handle),
            !(exists|i: int| 0 <= i < old(self).slots().len() && #[trigger] is_view_of(old(self).slots()[i], client_handle, buffer_handle))
                ==> (r.0 == old(self).slots().len() || old(self).slots()[r.0 as int] is None)
                    && match final(self).get_spec(r) {
                        None => false,
                        Some(v) => v.cursors@ == seq![Cursor {
                            anchor: BufferPosition { line_index: 0, column_byte_index: 0 },
                            position: BufferPosition { line_index: 0, column_byte_index: 0 },
                        }],
                    },
    {
        let mut i: usize = 0;
        while i < self.buffer_views.len()
            invariant
                i <= self.slots().len(),
                self.slots().len() < u32::MAX,
                self.slots() == old(self).slots(),
                forall|k: int| 0 <= k < i ==> !is_view_of(#[trigger] old(self).slots()[k], client_handle, buffer_handle),
            decreases self.slots().len() - i,
        {
            let found = match &self.buffer_views[i] {
                Some(v) => v.buffer_handle == buffer_handle && v.client_handle == client_handle,
                None => false,
            };
            if found {
                assert(is_view_of(old(self).slots()[i as int], client_handle, buffer_handle));
                return BufferViewHandle(i as u32);
            }
            i = i + 1;
        }
        self.add(BufferView::new(client_handle, buffer_handle))
    }
}

/// The slot holds the view of `buffer` for `client`.
pub open spec fn is_view_of(slot: Option<BufferView>, client: ClientHandle, buffer: BufferHandle) -> bool {
    slot matches Some(v) && v.client_handle == client && v.buffer_handle == buffer
}

/// The buffer handles of the views in the first `n` slots of `old` that are
/// gone in `new`, in slot order.
pub open spec fn removed_handles(old: Seq<Option<BufferView>>, new: Seq<Option<BufferView>>, n: int) -> Seq<u32>
    decreases n,
{
    if n <= 0 {
        Seq::empty()
    } else {
        let prev = removed_handles(old, new, n - 1);
        match old[n - 1] {
            Some(v) => if new[n - 1] is None { prev.push(v.buffer_handle.0) } else { prev },
            None => prev,
        }
    }
}

proof fn lemma_removed_handles_frame(old: Seq<Option<BufferView>>, a: Seq<Option<BufferView>>, b: Seq<Option<BufferView>>, n: int)
    requires
        0 <= n <= a.len(),
        a.len() == b.len(),
        forall|k: int| 0 <= k < n ==> a[k] == b[k],
    ensures
        removed_handles(old, a, n) == removed_handles(old, b, n),
    decreases n,
{
    if n > 0 {
        lemma_removed_handles_frame(old, a, b, n - 1);
    }
}

/// What fanning an edit out does to one slot: a view of the edited buffer
/// has its cursors moved, then sorted and merged; other slots stay.
pub open spec fn slot_shifted(o: Option<BufferView>, f: Option<BufferView>, buffer_handle: BufferHandle, range: BufferRange, insert: bool) -> bool {
    match o {
        None => f is None,
        Some(v) => if v.buffer_handle != buffer_handle {
            f == o
        } else {
            match f {
                None => false,
                Some(w) => w.buffer_handle == v.buffer_handle && w.client_handle == v.client_handle
                    && crate::cursor::sorted_disjoint(w.cursors@) && w.cursors.wf()
                    && (v.cursors@.len() > 0 ==> ends_from(w.cursors@, v.cursors@.map_values(|c: Cursor| shifted_cursor(c, range, insert))))
                    && covered_by(v.cursors@.map_values(|c: Cursor| shifted_cursor(c, range, insert)), w.cursors@)
                    && (sorted_disjoint(v.cursors@.map_values(|c: Cursor| shifted_cursor(c, range, insert)))
                        && v.cursors.main_idx() < v.cursors@.len()
                        ==> w.cursors@ == v.cursors@.map_values(|c: Cursor| shifted_cursor(c, range, insert))
                            && w.cursors.main_idx() == v.cursors.main_idx()),
            }
        },
    }
}

pub open spec fn shifted_cursor(c: Cursor, range: BufferRange, insert: bool) -> Cursor {
    if insert {
        Cursor { anchor: crate::position::spec_insert(c.anchor, range), position: crate::position::spec_insert(c.position, range) }
    } else {
        Cursor { anchor: crate::position::spec_delete(c.anchor, range), position: crate::position::spec_delete(c.position, range) }
    }
}

} // verus!

verus! {

proof fn lemma_insert_monotone(p: BufferPosition, q: BufferPosition, r: BufferRange)
    requires
        r.wf(),
        crate::position::insert_fits(p, r),
        crate::position::insert_fits(q, r),
    ensures
        crate::position::pos_lt(p, q) ==> crate::position::pos_lt(
            crate::position::spec_insert(p, r),
            crate::position::spec_insert(q, r),
        ),
        p == q ==> crate::position::spec_insert(p, r) == crate::position::spec_insert(q, r),
{
}

/// Fanning out an insertion and then the deletion of the same range gives a
/// view its cursors back: the insertion keeps sorted, disjoint cursors
/// sorted and disjoint, and the deletion undoes it on every end.
pub proof fn lemma_insert_then_delete_cursors(cs: Seq<Cursor>, r: BufferRange)
    requires
        sorted_disjoint(cs),
        r.wf(),
        forall|i: int| 0 <= i < cs.len() ==> crate::position::insert_fits((#[trigger] cs[i]).anchor, r)
            && crate::position::insert_fits(cs[i].position, r),
    ensures
        sorted_disjoint(cs.map_values(|c: Cursor| shifted_cursor(c, r, true))),
        cs.map_values(|c: Cursor| shifted_cursor(c, r, true)).map_values(|c: Cursor| shifted_cursor(c, r, false)) == cs,
{
    let ins = cs.map_values(|c: Cursor| shifted_cursor(c, r, true));
    assert forall|i: int| 0 <= i < cs.len() implies (#[trigger] ins[i]).range() == (BufferRange {
        from: crate::position::spec_insert(cs[i].range().from, r),
        to: crate::position::spec_insert(cs[i].range().to, r),
    }) by {
        let c = cs[i];
        lemma_insert_monotone(c.anchor, c.position, r);
        lemma_insert_monotone(c.position, c.anchor, r);
    }
    assert forall|i: int| 0 <= i < ins.len() - 1 implies crate::position::pos_lt(#[trigger] ins[i].range().to, ins[i + 1].range().from) by {
        let a = cs[i].range().to;
        let b = cs[i + 1].range().from;
        assert(crate::position::pos_lt(a, b));
        assert(a == cs[i].anchor || a == cs[i].position);
        assert(b == cs[i + 1].anchor || b == cs[i + 1].position);
        lemma_insert_monotone(a, b, r);
        assert(ins[i + 1].range().from == crate::position::spec_insert(b, r));
    }
    let back = ins.map_values(|c: Cursor| shifted_cursor(c, r, false));
    assert forall|i: int| 0 <= i < cs.len() implies #[trigger] back[i] == cs[i] by {
        crate::position::lemma_insert_then_delete(cs[i].anchor, r);
        crate::position::lemma_insert_then_delete(cs[i].position, r);
    }
    assert(back =~= cs);
}

/// At the level of one view: after the fan-out of an insertion and then of
/// the deletion of the same range, a view whose cursors were sorted and
/// disjoint has exactly the cursors and main cursor it had.
pub proof fn lemma_fan_out_round_trip(o: Option<BufferView>, f1: Option<BufferView>, f2: Option<BufferView>, h: BufferHandle, r: BufferRange)
    requires
        slot_shifted(o, f1, h, r, true),
        slot_shifted(f1, f2, h, r, false),
        o matches Some(v) && v.cursors.wf() && sorted_disjoint(v.cursors@)
            && (forall|i: int| 0 <= i < v.cursors@.len() ==> crate::position::insert_fits((#[trigger] v.cursors@[i]).anchor, r)
                && crate::position::insert_fits(v.cursors@[i].position, r)),
        r.wf(),
    ensures
        f2 matches Some(w) && w.cursors@ == o->0.cursors@ && w.cursors.main_idx() == o->0.cursors.main_idx(),
{
    let v = o->0;
    lemma_insert_then_delete_cursors(v.cursors@, r);
    if v.buffer_handle == h {
        let w1 = f1->0;
        assert(w1.cursors@ == v.cursors@.map_values(|c: Cursor| shifted_cursor(c, r, true)));
    }
}

} // verus!
