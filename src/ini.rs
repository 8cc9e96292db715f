use vstd::prelude::*;
use vstd::string::StringSliceAdditionalSpecFns;

use crate::bytes::str_bytes;
use crate::command::{line_end, TextRange};
use crate::position::BufferPosition;

verus! {

#[derive(Clone, Copy, Debug, PartialEq, Eq, Structural)]
pub enum IniErrorKind {
    ExpectedSection,
    ExpectedEquals,
    ExpectedCloseSquareBrackets,
    SectionNotEndedWithCloseSquareBrackets,
    EmptySectionName,
    EmptyPropertyName,
}

/// The description of each kind of error.
pub open spec fn ini_error_message(v: IniErrorKind) -> &'static str {
    match v {
        IniErrorKind::ExpectedSection => "expected section",
        IniErrorKind::ExpectedEquals => "expected '='",
        IniErrorKind::ExpectedCloseSquareBrackets => "expected ']'",
        IniErrorKind::SectionNotEndedWithCloseSquareBrackets => "section did not end with ']'",
        IniErrorKind::EmptySectionName => "sections can not have an empty name",
        IniErrorKind::EmptyPropertyName => "properties can not have an empty name",
    }
}

impl IniErrorKind {
    /// A short description of the error.
    pub fn message(&self) -> (r: &'static str) 
        ensures
            r == ini_error_message(*self),
    {
        match self {
            IniErrorKind::ExpectedSection => "expected section",
            IniErrorKind::ExpectedEquals => "expected '='",
            IniErrorKind::ExpectedCloseSquareBrackets => "expected ']'",
            IniErrorKind::SectionNotEndedWithCloseSquareBrackets => "section did not end with ']'",
            IniErrorKind::EmptySectionName => "sections can not have an empty name",
            IniErrorKind::EmptyPropertyName => "properties can not have an empty name",
        }
    }
}

/// What went wrong, and where: the line index and the byte column.
#[derive(Clone, Copy, Debug, PartialEq, Eq, Structural)]
pub struct IniError {
    pub kind: IniErrorKind,
    pub position: BufferPosition,
}

/// A `key=value` line; both parts are ranges of the parsed text.
#[derive(Clone, Copy, Debug, PartialEq, Eq, Structural)]
pub struct Property {
    pub key: TextRange,
    pub value: TextRange,
}

/// A `[name]` line and the properties under it.
pub struct Section {
    pub name: TextRange,
    pub properties: Vec<Property>,
}

pub ghost struct SectionView {
    pub name: TextRange,
    pub properties: Seq<Property>,
}

impl View for Section {
    type V = SectionView;

    open spec fn view(&self) -> SectionView {
        SectionView { name: self.name, properties: self.properties@ }
    }
}

/// The first index in `start..end` holding byte `b`, if any.
pub open spec fn find_in(t: Seq<u8>, k: int, end: int, b: u8) -> Option<int>
    decreases end - k,
{
    if k >= end {
        None
    } else if t[k] == b {
        Some(k)
    } else {
        find_in(t, k + 1, end, b)
    }
}

pub open spec fn err_at(kind: IniErrorKind, line: int, column: int) -> IniError {
    IniError { kind, position: BufferPosition { line_index: line as usize, column_byte_index: column as usize } }
}

/// What line `i`, the bytes `s..e` of `t`, does to the sections read so far.
pub open spec fn ini_line(t: Seq<u8>, s: int, e: int, i: int, acc: Seq<SectionView>) -> Result<Seq<SectionView>, IniError> {
    if s >= e || t[s] == 59 {
        Ok(acc)
    } else if t[s] == 91 {
        match find_in(t, s + 1, e, 93) {
            None => Err(err_at(IniErrorKind::ExpectedCloseSquareBrackets, i, e - s)),
            Some(j) => if j == s + 1 {
                Err(err_at(IniErrorKind::EmptySectionName, i, 1))
            } else if e - j > 1 {
                Err(err_at(IniErrorKind::SectionNotEndedWithCloseSquareBrackets, i, j - s))
            } else {
                Ok(acc.push(SectionView { name: TextRange { start: (s + 1) as usize, end: j as usize }, properties: Seq::empty() }))
            },
        }
    } else if acc.len() == 0 {
        Err(err_at(IniErrorKind::ExpectedSection, i, 0))
    } else {
        match find_in(t, s, e, 61) {
            None => Err(err_at(IniErrorKind::ExpectedEquals, i, e - s)),
            Some(j) => if j == s {
                Err(err_at(IniErrorKind::EmptyPropertyName, i, 0))
            } else {
                let p = Property { key: TextRange { start: s as usize, end: j as usize }, value: TextRange { start: (j + 1) as usize, end: e as usize } };
                Ok(acc.update(acc.len() - 1, SectionView { properties: acc.last().properties.push(p), ..acc.last() }))
            },
        }
    }
}

/// Where the line that starts at `k` ends, without its line break: a
/// carriage return before the newline is dropped too.
pub open spec fn line_content_end(t: Seq<u8>, k: int) -> int {
    let e = line_end(t, k);
    if e < t.len() && e > k && t[e - 1] == 13 { e - 1 } else { e }
}

/// The sections of `t` from byte `k` on, which starts line `i`, added to
/// `acc`; or the first error.
pub open spec fn ini_from(t: Seq<u8>, k: int, i: int, acc: Seq<SectionView>) -> Result<Seq<SectionView>, IniError>
    decreases t.len() - k,
{
    if k < 0 || k >= t.len() {
        Ok(acc)
    } else {
        let e = line_end(t, k);
        match ini_line(t, k, line_content_end(t, k), i, acc) {
            Err(x) => Err(x),
            Ok(next) => if k <= e < t.len() { ini_from(t, e + 1, i + 1, next) } else { Ok(next) },
        }
    }
}

/// The sections of an INI text: `[name]` lines, each followed by `key=value`
/// lines. Blank lines and lines starting with `;` are skipped.
pub struct Ini {
    sections: Vec<Section>,
}

proof fn lemma_line_end_bounds(t: Seq<u8>, i: int)
    requires
        0 <= i <= t.len(),
    ensures
        i <= line_end(t, i) <= t.len(),
        line_end(t, i) < t.len() ==> t[line_end(t, i)] == 10,
    decreases t.len() - i,
{
    if i < t.len() && t[i] != 10 {
        lemma_line_end_bounds(t, i + 1);
    }
}

proof fn lemma_find_in(t: Seq<u8>, k: int, end: int, b: u8)
    requires
        0 <= k,
        end <= t.len(),
    ensures
        find_in(t, k, end, b) matches Some(j) ==> k <= j < end && t[j] == b,
    decreases end - k,
{
    if k < end && t[k] != b {
        lemma_find_in(t, k + 1, end, b);
    }
}

fn find_byte_in(t: &[u8], k: usize, end: usize, b: u8) -> (r: Option<usize>)
    requires
        k <= end <= t@.len(),
    ensures
        r is Some <==> find_in(t@, k as int, end as int, b) is Some,
        r matches Some(j) ==> find_in(t@, k as int, end as int, b) == Some(j as int),
        r matches Some(j) ==> k <= j < end,
{
    proof {
        lemma_find_in(t@, k as int, end as int, b);
    }
    let mut j = k;
    while j < end
        invariant
            k <= j <= end <= t@.len(),
            find_in(t@, j as int, end as int, b) == find_in(t@, k as int, end as int, b),
        decreases end - j,
    {
        if t[j] == b {
            return Some(j);
        }
        j = j + 1;
    }
    None
}

impl Ini {
    pub closed spec fn view_sections(&self) -> Seq<SectionView> {
        self.sections@.map_values(|s: Section| s@)
    }

    pub fn new() -> (r: Self)
        ensures
            r.view_sections().len() == 0,
    {
        Ini { sections: Vec::new() }
    }

    pub fn clear(&mut self)
        ensures
            final(self).view_sections().len() == 0,
    {
        self.sections.clear();
    }

    pub fn sections(&self) -> (r: &Vec<Section>)
        ensures
            r@.map_values(|s: Section| s@) == self.view_sections(),
    {
        &self.sections
    }

    fn add_line(&mut self, t: &[u8], s: usize, e: usize, i: usize) -> (r: Result<(), IniError>)
        requires
            s <= e <= t@.len(),
        ensures
            match ini_line(t@, s as int, e as int, i as int, old(self).view_sections()) {
                Ok(acc) => r is Ok && final(self).view_sections() == acc,
                Err(x) => r == Err::<(), IniError>(x),
            },
    {
        if s >= e || t[s] == 59 {
            return Ok(());
        }
        if t[s] == 91 {
            match find_byte_in(t, s + 1, e, 93) {
                None => Err(IniError { kind: IniErrorKind::ExpectedCloseSquareBrackets, position: BufferPosition { line_index: i, column_byte_index: e - s } }),
                Some(j) => if j == s + 1 {
                    Err(IniError { kind: IniErrorKind::EmptySectionName, position: BufferPosition { line_index: i, column_byte_index: 1 } })
                } else if e - j > 1 {
                    Err(IniError { kind: IniErrorKind::SectionNotEndedWithCloseSquareBrackets, position: BufferPosition { line_index: i, column_byte_index: j - s } })
                } else {
                    self.sections.push(Section { name: TextRange { start: s + 1, end: j }, properties: Vec::new() });
                    assert(self.view_sections() =~= old(self).view_sections().push(SectionView { name: TextRange { start: (s + 1) as usize, end: j }, properties: Seq::empty() }));
                    Ok(())
                },
            }
        } else if self.sections.len() == 0 {
            Err(IniError { kind: IniErrorKind::ExpectedSection, position: BufferPosition { line_index: i, column_byte_index: 0 } })
        } else {
            match find_byte_in(t, s, e, 61) {
                None => Err(IniError { kind: IniErrorKind::ExpectedEquals, position: BufferPosition { line_index: i, column_byte_index: e - s } }),
                Some(j) => if j == s {
                    Err(IniError { kind: IniErrorKind::EmptyPropertyName, position: BufferPosition { line_index: i, column_byte_index: 0 } })
                } else {
                    let p = Property { key: TextRange { start: s, end: j }, value: TextRange { start: j + 1, end: e } };
                    let last = self.sections.len() - 1;
                    let mut section = self.sections.pop().unwrap();
                    section.properties.push(p);
                    self.sections.push(section);
                    assert(self.view_sections() =~= old(self).view_sections().update(
                        last as int,
                        SectionView { properties: old(self).view_sections().last().properties.push(p), ..old(self).view_sections().last() },
                    ));
                    Ok(())
                },
            }
        }
    }

    /// Reads `text`, replacing what the parser held. On an error the parser
    /// holds the sections read before it.
    pub fn parse(&mut self, text: &str) -> (r: Result<(), IniError>)
        ensures
            match ini_from(text.spec_bytes(), 0, 0, Seq::empty()) {
                Ok(acc) => r is Ok && final(self).view_sections() == acc,
                Err(x) => r == Err::<(), IniError>(x),
            },
    {
        self.sections.clear();
        let bytes = str_bytes(text);
        let t = bytes.as_slice();
        let ghost tv = t@;
        let n = t.len();
        let mut k: usize = 0;
        let mut i: usize = 0;
        assert(self.view_sections() =~= Seq::<SectionView>::empty());
        while k < n
            invariant
                k <= n,
                n == tv.len(),
                t@ == tv,
                tv == text.spec_bytes(),
                i <= k,
                ini_from(tv, k as int, i as int, self.view_sections()) == ini_from(tv, 0, 0, Seq::empty()),
            decreases n - k,
        {
            proof {
                lemma_line_end_bounds(tv, k as int);
            }
            let mut e = k;
            while e < n && t[e] != 10
                invariant
                    k <= e <= n,
                    n == tv.len(),
                    t@ == tv,
                    line_end(tv, e as int) == line_end(tv, k as int),
                decreases n - e,
            {
                e = e + 1;
            }
            assert(line_end(tv, e as int) == e);
            let content_end = if e < n && e > k && t[e - 1] == 13 { e - 1 } else { e };
            assert(content_end == line_content_end(tv, k as int));
            let ghost acc0 = self.view_sections();
            assert(ini_from(tv, k as int, i as int, acc0) == (match ini_line(tv, k as int, content_end as int, i as int, acc0) {
                Err(x) => Err(x),
                Ok(next) => if k <= e < n { ini_from(tv, e + 1, i + 1, next) } else { Ok(next) },
            }));
            match self.add_line(t, k, content_end, i) {
                Err(x) => return Err(x),
                Ok(()) => {},
            }
            if e >= n {
                return Ok(());
            }
            k = e + 1;
            i = i + 1;
        }
        Ok(())
    }
}

} // verus!

verus! {

proof fn lemma_line_end_extended(t: Seq<u8>, w: Seq<u8>, k: int)
    requires
        0 <= k <= t.len(),
    ensures
        line_end(t + seq![10u8] + w, k) == line_end(t, k),
    decreases t.len() - k,
{
    let u = t + seq![10u8] + w;
    if k < t.len() {
        assert(u[k] == t[k]);
        if t[k] != 10 {
            lemma_line_end_extended(t, w, k + 1);
        }
    } else {
        assert(u[k] == 10);
    }
}

proof fn lemma_find_in_extended(t: Seq<u8>, u: Seq<u8>, k: int, end: int, b: u8)
    requires
        end <= t.len() <= u.len(),
        forall|i: int| 0 <= i < t.len() ==> u[i] == t[i],
    ensures
        k >= 0 ==> find_in(u, k, end, b) == find_in(t, k, end, b),
    decreases end - k,
{
    if 0 <= k < end {
        lemma_find_in_extended(t, u, k + 1, end, b);
    }
}

/// An error stays as it is when lines are added below the text: everything
/// up to the error reads the same. (The text must not end with a carriage
/// return, which the added newline would turn into part of a line break.)
pub proof fn lemma_error_kept_when_appending(t: Seq<u8>, w: Seq<u8>, k: int, i: int, acc: Seq<SectionView>)
    requires
        0 <= k <= t.len(),
        ini_from(t, k, i, acc) is Err,
        t.len() == 0 || t.last() != 13,
    ensures
        ini_from(t + seq![10u8] + w, k, i, acc) == ini_from(t, k, i, acc),
    decreases t.len() - k,
{
    let u = t + seq![10u8] + w;
    if k < t.len() {
        lemma_line_end_extended(t, w, k);
        lemma_line_end_bounds(t, k);
        let e = line_end(t, k);
        assert(forall|j: int| 0 <= j < t.len() ==> u[j] == t[j]);
        if e > k {
            assert(u[e - 1] == t[e - 1]);
        }
        let ce = line_content_end(t, k);
        assert(line_content_end(u, k) == ce);
        lemma_find_in_extended(t, u, k + 1, ce, 93);
        lemma_find_in_extended(t, u, k, ce, 61);
        if k < ce {
            assert(u[k] == t[k]);
        }
        assert(ini_line(u, k, ce, i, acc) == ini_line(t, k, ce, i, acc));
        match ini_line(t, k, ce, i, acc) {
            Err(_) => {},
            Ok(next) => {
                if e < t.len() {
                    lemma_error_kept_when_appending(t, w, e + 1, i + 1, next);
                }
            },
        }
    }
}

} // verus!

verus! {

/// The error moved down by `d` lines.
pub open spec fn shift_error(x: IniError, d: int) -> IniError {
    IniError { position: BufferPosition { line_index: (x.position.line_index + d) as usize, ..x.position }, ..x }
}

proof fn lemma_line_end_shifted(p: Seq<u8>, t: Seq<u8>, k: int)
    requires
        0 <= k <= t.len(),
    ensures
        line_end(p + t, p.len() + k) == p.len() + line_end(t, k),
    decreases t.len() - k,
{
    let u = p + t;
    if k < t.len() {
        assert(u[p.len() + k] == t[k]);
        if t[k] != 10 {
            lemma_line_end_shifted(p, t, k + 1);
        }
    }
}

proof fn lemma_find_in_shifted(p: Seq<u8>, t: Seq<u8>, k: int, end: int, b: u8)
    requires
        0 <= k,
        end <= t.len(),
    ensures
        match find_in(t, k, end, b) {
            Some(j) => find_in(p + t, p.len() + k, p.len() + end, b) == Some(p.len() + j),
            None => find_in(p + t, p.len() + k, p.len() + end, b) is None,
        },
    decreases end - k,
{
    if k < end {
        assert((p + t)[p.len() + k] == t[k]);
        lemma_find_in_shifted(p, t, k + 1, end, b);
    }
}

/// Lines added above a text move its first error down by as many lines and
/// leave the rest of it as it is, as long as they leave the count of sections
/// read so far the same.
pub proof fn lemma_error_shifts_with_lines_above(
    p: Seq<u8>,
    t: Seq<u8>,
    k: int,
    i: int,
    d: int,
    acc1: Seq<SectionView>,
    acc2: Seq<SectionView>,
)
    requires
        0 <= k <= t.len(),
        0 <= i,
        0 <= d,
        i + d + t.len() - k <= usize::MAX,
        acc1.len() == acc2.len(),
    ensures
        match (ini_from(p + t, p.len() + k, i + d, acc1), ini_from(t, k, i, acc2)) {
            (Err(x1), Err(x2)) => x1 == shift_error(x2, d),
            (Ok(_), Ok(_)) => true,
            _ => false,
        },
    decreases t.len() - k,
{
    let u = p + t;
    let q = p.len() as int;
    if k < t.len() {
        lemma_line_end_shifted(p, t, k);
        lemma_line_end_bounds(t, k);
        let e = line_end(t, k);
        if e > k {
            assert(u[q + e - 1] == t[e - 1]);
        }
        let ce = line_content_end(t, k);
        assert(line_content_end(u, q + k) == q + ce);
        lemma_find_in_shifted(p, t, k + 1, ce, 93);
        lemma_find_in_shifted(p, t, k, ce, 61);
        if k < ce {
            assert(u[q + k] == t[k]);
        }
        let r1 = ini_line(u, q + k, q + ce, i + d, acc1);
        let r2 = ini_line(t, k, ce, i, acc2);
        match r2 {
            Err(x2) => {
                assert(r1 == Err::<Seq<SectionView>, IniError>(shift_error(x2, d)));
            },
            Ok(n2) => {
                assert(r1 is Ok);
                let n1 = r1->Ok_0;
                assert(n1.len() == n2.len());
                if e < t.len() {
                    lemma_error_shifts_with_lines_above(p, t, e + 1, i + 1, d, n1, n2);
                    assert(i + 1 + d == i + d + 1);
                }
            },
        }
    }
}

/// A comment or blank line put above a text moves its first error down by
/// one line and changes nothing else.
pub proof fn lemma_comment_line_above(c: Seq<u8>, t: Seq<u8>)
    requires
        c.len() == 0 || c[0] == 59,
        forall|j: int| 0 <= j < c.len() ==> c[j] != 10,
        1 + t.len() <= usize::MAX,
    ensures
        match (ini_from(c + seq![10u8] + t, 0, 0, Seq::empty()), ini_from(t, 0, 0, Seq::empty())) {
            (Err(x1), Err(x2)) => x1 == shift_error(x2, 1),
            (Ok(_), Ok(_)) => true,
            _ => false,
        },
{
    let p = c + seq![10u8];
    let u = c + seq![10u8] + t;
    assert(u =~= p + t);
    assert(forall|j: int| 0 <= j < c.len() ==> u[j] == c[j]);
    assert(u[c.len() as int] == 10);
    lemma_line_end_prefix_newline(c, t);
    assert(line_end(u, 0) == c.len());
    if c.len() > 0 {
        assert(u[0] == 59);
    }
    assert(ini_line(u, 0, line_content_end(u, 0), 0, Seq::empty()) == Ok::<Seq<SectionView>, IniError>(Seq::empty()));
    lemma_error_shifts_with_lines_above(p, t, 0, 0, 1, Seq::empty(), Seq::empty());
    assert(p.len() + 0 == c.len() + 1);
}

proof fn lemma_line_end_prefix_newline(c: Seq<u8>, t: Seq<u8>)
    requires
        forall|j: int| 0 <= j < c.len() ==> c[j] != 10,
    ensures
        line_end(c + seq![10u8] + t, 0) == c.len(),
{
    let u = c + seq![10u8] + t;
    lemma_line_end_walk(u, 0, c.len() as int);
}

proof fn lemma_line_end_walk(u: Seq<u8>, k: int, m: int)
    requires
        0 <= k <= m < u.len(),
        forall|j: int| k <= j < m ==> u[j] != 10,
        u[m] == 10,
    ensures
        line_end(u, k) == m,
    decreases m - k,
{
    if k < m {
        lemma_line_end_walk(u, k + 1, m);
    }
}

} // verus!
