use vstd::prelude::*;

use crate::buffer::is_continuation;

verus! {

/// What a word of a line is made of.
#[derive(Clone, Copy, Debug, PartialEq, Eq, Structural)]
pub enum WordKind {
    /// ASCII letters, digits and `_`.
    Identifier,
    /// Other ASCII punctuation, or a single non-ASCII char.
    Symbol,
    /// ASCII spaces, tabs and line feeds.
    Whitespace,
}

pub open spec fn spec_is_ascii_whitespace(b: u8) -> bool {
    b == 32 || b == 9 || b == 10 || b == 12 || b == 13
}

pub open spec fn spec_is_identifier_byte(b: u8) -> bool {
    (48 <= b <= 57) || (65 <= b <= 90) || (97 <= b <= 122) || b == 95
}

/// The kind of word that byte `b` starts or continues.
pub open spec fn spec_kind_of(b: u8) -> WordKind {
    if spec_is_ascii_whitespace(b) {
        WordKind::Whitespace
    } else if spec_is_identifier_byte(b) {
        WordKind::Identifier
    } else {
        WordKind::Symbol
    }
}

pub fn kind_of(b: u8) -> (r: WordKind)
    ensures
        r == spec_kind_of(b),
{
    if b == 32 || b == 9 || b == 10 || b == 12 || b == 13 {
        WordKind::Whitespace
    } else if (48 <= b && b <= 57) || (65 <= b && b <= 90) || (97 <= b && b <= 122) || b == 95 {
        WordKind::Identifier
    } else {
        WordKind::Symbol
    }
}

/// Whether the bytes at `i` and `j` belong to one run of ASCII bytes of a kind.
pub open spec fn same_run(line: Seq<u8>, i: int, j: int) -> bool {
    line[i] < 0x80 && line[j] < 0x80 && spec_kind_of(line[i]) == spec_kind_of(line[j])
}

/// Where the word that starts at byte `i` ends: a run of ASCII bytes of one
/// kind, or a single non-ASCII char.
pub open spec fn word_end_from(line: Seq<u8>, i: int, j: int) -> int
    decreases line.len() - j,
{
    if j >= line.len() || j <= i {
        if j <= i { i + 1 } else { line.len() as int }
    } else if line[i] < 0x80 {
        if same_run(line, i, j) { word_end_from(line, i, j + 1) } else { j }
    } else {
        if is_continuation(line[j]) { word_end_from(line, i, j + 1) } else { j }
    }
}

pub open spec fn spec_word_end(line: Seq<u8>, i: int) -> int {
    if i >= line.len() { line.len() as int } else { word_end_from(line, i, i + 1) }
}

pub proof fn lemma_word_end_from(line: Seq<u8>, i: int, j: int)
    requires
        0 <= i < j <= line.len(),
    ensures
        j <= word_end_from(line, i, j) <= line.len(),
    decreases line.len() - j,
{
    if j < line.len() {
        if (line[i] < 0x80 && same_run(line, i, j)) || (line[i] >= 0x80 && is_continuation(line[j])) {
            lemma_word_end_from(line, i, j + 1);
        }
    }
}

/// The end of the word that starts at byte `start` of `line`.
pub fn word_end(line: &[u8], start: usize) -> (r: usize)
    requires
        start < line@.len(),
    ensures
        r == spec_word_end(line@, start as int),
        start < r <= line@.len(),
{
    let n = line.len();
    let mut j = start + 1;
    proof {
        lemma_word_end_from(line@, start as int, j as int);
    }
    while j < line.len()
        invariant
            start < j <= line@.len(),
            word_end_from(line@, start as int, j as int) == word_end_from(line@, start as int, start + 1),
        decreases line@.len() - j,
    {
        let go_on = if line[start] < 0x80 {
            line[j] < 0x80 && kind_of(line[start]) == kind_of(line[j])
        } else {
            line[j] >= 0x80 && line[j] <= 0xbf
        };
        if !go_on {
            assert(word_end_from(line@, start as int, j as int) == j);
            return j;
        }
        j = j + 1;
    }
    assert(word_end_from(line@, start as int, j as int) == j);
    j
}

/// Back from byte `i` over ASCII bytes of kind `kind`.
pub open spec fn run_start(line: Seq<u8>, i: int, kind: WordKind) -> int
    decreases i,
{
    if i > 0 && line[i - 1] < 0x80 && spec_kind_of(line[i - 1]) == kind {
        run_start(line, i - 1, kind)
    } else {
        i
    }
}

/// Back from byte `i` over bytes that continue a char.
pub open spec fn char_start(line: Seq<u8>, i: int) -> int
    decreases i,
{
    if i > 0 && is_continuation(line[i]) {
        char_start(line, i - 1)
    } else {
        i
    }
}

/// Where the word that ends at byte `end` starts: back over a run of ASCII
/// bytes of one kind, or over a single non-ASCII char.
pub open spec fn spec_word_start(line: Seq<u8>, end: int) -> int {
    if line[end - 1] < 0x80 {
        run_start(line, end - 1, spec_kind_of(line[end - 1]))
    } else {
        char_start(line, end - 1)
    }
}

proof fn lemma_run_start(line: Seq<u8>, i: int, kind: WordKind)
    requires
        0 <= i,
    ensures
        0 <= run_start(line, i, kind) <= i,
    decreases i,
{
    if i > 0 && line[i - 1] < 0x80 && spec_kind_of(line[i - 1]) == kind {
        lemma_run_start(line, i - 1, kind);
    }
}

proof fn lemma_char_start(line: Seq<u8>, i: int)
    requires
        0 <= i,
    ensures
        0 <= char_start(line, i) <= i,
    decreases i,
{
    if i > 0 && is_continuation(line[i]) {
        lemma_char_start(line, i - 1);
    }
}

/// The start of the word that ends at byte `end` of `line`.
pub fn word_start(line: &[u8], end: usize) -> (r: usize)
    requires
        0 < end <= line@.len(),
    ensures
        r == spec_word_start(line@, end as int),
        r < end,
{
    let last = line[end - 1];
    let mut i = end - 1;
    if last < 0x80 {
        let kind = kind_of(last);
        proof {
            lemma_run_start(line@, i as int, kind);
        }
        while i > 0 && line[i - 1] < 0x80 && kind_of(line[i - 1]) == kind
            invariant
                i < end <= line@.len(),
                kind == spec_kind_of(line@[end - 1]),
                run_start(line@, i as int, kind) == run_start(line@, end - 1, kind),
            decreases i,
        {
            i = i - 1;
        }
    } else {
        proof {
            lemma_char_start(line@, i as int);
        }
        while i > 0 && line[i] >= 0x80 && line[i] <= 0xbf
            invariant
                i < end <= line@.len(),
                char_start(line@, i as int) == char_start(line@, end - 1),
            decreases i,
        {
            i = i - 1;
        }
    }
    i
}

} // verus!
