use vstd::prelude::*;
use vstd::string::StringSliceAdditionalSpecFns;
use vstd::utf8::encode_utf8;

use fuzzy_matcher::skim::SkimMatcherV2;
use fuzzy_matcher::FuzzyMatcher;

verus! {

/// What the fuzzy matcher scores `choice` against `pattern`: higher is a
/// better match, `None` no match.
pub uninterp spec fn skim_score(choice: Seq<char>, pattern: Seq<char>) -> Option<i64>;

/// Relies on `SkimMatcherV2::fuzzy_match` of fuzzy-matcher, with the default
/// settings made afresh: the score is a function of the two strings, and an
/// empty pattern scores 0.
#[verifier::external_body]
fn skim_fuzzy_match(choice: &str, pattern: &str) -> (r: Option<i64>)
    ensures
        r == skim_score(choice@, pattern@),
        pattern@.len() == 0 ==> r == Some(0i64),
{
    SkimMatcherV2::default().fuzzy_match(choice, pattern)
}

/// The picker's score of `text`: the matcher's, one more when `text` is as
/// long as `pattern` (in bytes), so that a match of the pattern's length
/// comes before other matches of the same score.
pub open spec fn bonus_of(text: Seq<char>, pattern: Seq<char>) -> Option<i64> {
    with_bonus(skim_score(text, pattern), encode_utf8(text).len() as usize == encode_utf8(pattern).len() as usize)
}

/// The picker's score from a score of the matcher.
pub open spec fn with_bonus(score: Option<i64>, same_length: bool) -> Option<i64> {
    match score {
        None => None,
        Some(s) => Some(if same_length && s < i64::MAX { (s + 1) as i64 } else { s }),
    }
}

/// Adds the bonus to a score of the matcher.
pub fn add_length_bonus(score: Option<i64>, same_length: bool) -> (r: Option<i64>)
    ensures
        r == with_bonus(score, same_length),
{
    match score {
        None => None,
        Some(s) => Some(if same_length && s < i64::MAX { s + 1 } else { s }),
    }
}

/// An entry shown by the picker.
#[derive(Debug, PartialEq, Eq)]
pub struct PickerEntry {
    pub name: String,
    pub description: String,
    pub score: i64,
}

pub struct CustomEntry {
    pub name: String,
    pub description: String,
}

#[derive(Clone, Copy, Debug, PartialEq, Eq, Structural)]
pub enum FilteredEntrySource {
    Custom(usize),
    WordDatabase(usize),
    Command(usize),
}

#[derive(Clone, Copy, Debug, PartialEq, Eq, Structural)]
pub struct FilteredEntry {
    pub source: FilteredEntrySource,
    pub score: i64,
}

/// Scores non-increasing along the list.
pub open spec fn sorted_by_score(es: Seq<FilteredEntry>) -> bool {
    forall|i: int, j: int| 0 <= i < j < es.len() ==> #[trigger] es[i].score >= #[trigger] es[j].score
}

/// The larger of two optional scores.
pub open spec fn best_of(a: Option<i64>, b: Option<i64>) -> Option<i64> {
    match (a, b) {
        (None, None) => None,
        (Some(x), None) => Some(x),
        (None, Some(y)) => Some(y),
        (Some(x), Some(y)) => Some(if x >= y { x } else { y }),
    }
}

/// A fuzzy-filtered list of entries with a cursor and a scroll offset.
pub struct Picker {
    custom_entries: Vec<CustomEntry>,
    filtered_entries: Vec<FilteredEntry>,
    cursor: usize,
    scroll: usize,
}

impl Picker {
    pub closed spec fn filtered(&self) -> Seq<FilteredEntry> {
        self.filtered_entries@
    }

    pub closed spec fn cursor_spec(&self) -> int {
        self.cursor as int
    }

    pub closed spec fn scroll_spec(&self) -> int {
        self.scroll as int
    }

    pub closed spec fn custom_count(&self) -> int {
        self.custom_entries@.len() as int
    }

    pub closed spec fn custom_name(&self, i: int) -> Seq<char> {
        self.custom_entries@[i].name@
    }

    pub closed spec fn custom_description(&self, i: int) -> Seq<char> {
        self.custom_entries@[i].description@
    }

    /// The cursor is on an entry, or at 0 when there is none.
    pub open spec fn wf(&self) -> bool {
        (self.filtered().len() == 0 && self.cursor_spec() == 0) || self.cursor_spec() < self.filtered().len()
    }

    pub fn new() -> (r: Self)
        ensures
            r.wf(),
            r.filtered().len() == 0,
            r.custom_count() == 0,
            r.cursor_spec() == 0,
            r.scroll_spec() == 0,
    {
        Picker { custom_entries: Vec::new(), filtered_entries: Vec::new(), cursor: 0, scroll: 0 }
    }

    pub fn cursor(&self) -> (r: usize)
        ensures
            r == self.cursor_spec(),
    {
        self.cursor
    }

    pub fn scroll(&self) -> (r: usize)
        ensures
            r == self.scroll_spec(),
    {
        self.scroll
    }

    /// How many rows the picker takes with at most `max_height` of them.
    pub fn height(&self, max_height: usize) -> (r: usize)
        ensures
            r == if self.filtered().len() < max_height { self.filtered().len() as int } else { max_height as int },
    {
        if self.filtered_entries.len() < max_height {
            self.filtered_entries.len()
        } else {
            max_height
        }
    }

    pub fn len(&self) -> (r: usize)
        ensures
            r == self.filtered().len(),
    {
        self.filtered_entries.len()
    }

    /// The score of `text` against `pattern`, with the length bonus.
    pub fn fuzzy_match(&self, text: &str, pattern: &str) -> (r: Option<i64>)
        ensures
            r == bonus_of(text@, pattern@),
    {
        let score = skim_fuzzy_match(text, pattern);
        add_length_bonus(score, text.len() == pattern.len())
    }

    /// Moves the cursor by `offset` entries, stopping at either end; a step
    /// forward from the last entry goes to the first, and a step back from the
    /// first goes to the last.
    pub fn move_cursor(&mut self, offset: isize)
        requires
            old(self).wf(),
        ensures
            final(self).wf(),
            final(self).filtered() == old(self).filtered(),
            final(self).scroll_spec() == old(self).scroll_spec(),
            final(self).custom_names() == old(self).custom_names(),
            final(self).custom_descriptions() == old(self).custom_descriptions(),
            final(self).cursor_spec() == spec_move_cursor(old(self).cursor_spec(), offset as int, old(self).filtered().len() as int),
    {
        if self.filtered_entries.len() == 0 {
            return;
        }
        let end_index = self.filtered_entries.len() - 1;
        if offset > 0 {
            let mut offset = offset as usize;
            if self.cursor == end_index {
                offset = offset - 1;
                self.cursor = 0;
            }
            if offset < end_index - self.cursor {
                self.cursor = self.cursor + offset;
            } else {
                self.cursor = end_index;
            }
        } else if offset < 0 {
            let mut offset: usize = if offset == isize::MIN {
                (isize::MAX as usize) + 1
            } else {
                (-offset) as usize
            };
            if self.cursor == 0 {
                offset = offset - 1;
                self.cursor = end_index;
            }
            if offset < self.cursor {
                self.cursor = self.cursor - offset;
            } else {
                self.cursor = 0;
            }
        }
    }

    /// Scrolls so that the cursor is within the `height` rows shown, and
    /// returns that height.
    pub fn update_scroll(&mut self, max_height: usize) -> (r: usize)
        requires
            old(self).wf(),
        ensures
            final(self).wf(),
            final(self).filtered() == old(self).filtered(),
            final(self).cursor_spec() == old(self).cursor_spec(),
            r == if old(self).filtered().len() < max_height { old(self).filtered().len() as int } else { max_height as int },
            final(self).scroll_spec() + r <= old(self).filtered().len(),
            r > 0 ==> final(self).scroll_spec() <= final(self).cursor_spec() < final(self).scroll_spec() + r,
    {
        let height = self.height(max_height);
        let len = self.filtered_entries.len();
        if self.cursor < self.scroll {
            self.scroll = self.cursor;
        } else if self.cursor - self.scroll >= height {
            self.scroll = self.cursor + 1 - height;
        }
        let limit = self.filtered_entries.len() - height;
        if self.scroll > limit {
            self.scroll = limit;
        }
        height
    }

    /// Forgets the entries and the filtered list.
    pub fn clear(&mut self)
        ensures
            final(self).wf(),
            final(self).filtered().len() == 0,
            final(self).custom_count() == 0,
            final(self).cursor_spec() == 0,
            final(self).scroll_spec() == 0,
    {
        self.clear_filtered();
        self.custom_entries.clear();
    }

    pub fn add_custom_entry(&mut self, name: &str, description: &str)
        requires
            old(self).wf(),
        ensures
            final(self).wf(),
            final(self).filtered() == old(self).filtered(),
            final(self).cursor_spec() == old(self).cursor_spec(),
            final(self).custom_count() == old(self).custom_count() + 1,
            final(self).custom_name(old(self).custom_count()) == name@,
            final(self).custom_description(old(self).custom_count()) == description@,
            forall|i: int| 0 <= i < old(self).custom_count() ==> final(self).custom_name(i) == old(self).custom_name(i)
                && final(self).custom_description(i) == old(self).custom_description(i),
    {
        self.custom_entries.push(CustomEntry { name: name.to_owned(), description: description.to_owned() });
    }

    fn push_scored(&mut self, texts: &Vec<String>, pattern: &str, tag: usize)
        requires
            tag <= 1,
        ensures
            final(self).filtered() == old(self).filtered() + scored_list(strings_view(texts@), pattern@, tag as int),
            final(self).cursor_spec() == old(self).cursor_spec(),
            final(self).custom_entries@ == old(self).custom_entries@,
            final(self).custom_count() == old(self).custom_count(),
            forall|i: int| 0 <= i < old(self).custom_count() ==> final(self).custom_name(i) == old(self).custom_name(i)
                && final(self).custom_description(i) == old(self).custom_description(i),
    {
        let ghost tv = strings_view(texts@);
        let mut i: usize = 0;
        while i < texts.len()
            invariant
                i <= texts@.len(),
                tv == strings_view(texts@),
                tag <= 1,
                self.filtered() == old(self).filtered() + scored_list(tv.subrange(0, i as int), pattern@, tag as int),
                self.cursor_spec() == old(self).cursor_spec(),
                self.custom_entries@ == old(self).custom_entries@,
            decreases texts@.len() - i,
        {
            assert(tv.subrange(0, i + 1).drop_last() =~= tv.subrange(0, i as int));
            assert(tv.subrange(0, i + 1).last() == texts@[i as int]@);
            if let Some(score) = self.fuzzy_match(texts[i].as_str(), pattern) {
                let source = if tag == 0 { FilteredEntrySource::WordDatabase(i) } else { FilteredEntrySource::Command(i) };
                self.filtered_entries.push(FilteredEntry { source, score });
            }
            i = i + 1;
            assert(self.filtered() =~= old(self).filtered() + scored_list(tv.subrange(0, i as int), pattern@, tag as int));
        }
        assert(tv.subrange(0, i as int) =~= tv);
    }

    fn custom_score(&self, index: usize, pattern: &str) -> (r: Option<i64>)
        requires
            index < self.custom_count(),
        ensures
            r == best_of(bonus_of(self.custom_name(index as int), pattern@), bonus_of(self.custom_description(index as int), pattern@)),
    {
        let entry = &self.custom_entries[index];
        let name_score = self.fuzzy_match(entry.name.as_str(), pattern);
        let description_score = self.fuzzy_match(entry.description.as_str(), pattern);
        match (name_score, description_score) {
            (None, None) => None,
            (None, Some(s)) => Some(s),
            (Some(s), None) => Some(s),
            (Some(a), Some(b)) => Some(if a >= b { a } else { b }),
        }
    }

    pub closed spec fn custom_names(&self) -> Seq<Seq<char>> {
        self.custom_entries@.map_values(|e: CustomEntry| e.name@)
    }

    pub closed spec fn custom_descriptions(&self) -> Seq<Seq<char>> {
        self.custom_entries@.map_values(|e: CustomEntry| e.description@)
    }

    /// Scores the words, the commands and the custom entries against
    /// `pattern`, keeps those that match, sorts them by score, best first,
    /// equal scores in that order of sources, and keeps the cursor on an
    /// entry.
    pub fn filter(&mut self, words: &Vec<String>, commands: &Vec<String>, pattern: &str)
        requires
            old(self).wf(),
        ensures
            final(self).wf(),
            sorted_by_score(final(self).filtered()),
            same_entries(final(self).filtered(),
                scored_list(strings_view(words@), pattern@, 0) + scored_list(strings_view(commands@), pattern@, 1)
                    + scored_custom(old(self).custom_names(), old(self).custom_descriptions(), pattern@)),
            stably_sorted_from(final(self).filtered(),
                scored_list(strings_view(words@), pattern@, 0) + scored_list(strings_view(commands@), pattern@, 1)
                    + scored_custom(old(self).custom_names(), old(self).custom_descriptions(), pattern@)),
            final(self).custom_names() == old(self).custom_names(),
            final(self).custom_descriptions() == old(self).custom_descriptions(),
            final(self).cursor_spec() == if old(self).cursor_spec() < final(self).filtered().len() { old(self).cursor_spec() } else if final(self).filtered().len() == 0 { 0 } else { final(self).filtered().len() - 1 },
    {
        let ghost names = self.custom_names();
        let ghost descriptions = self.custom_descriptions();
        self.filtered_entries.clear();
        assert(self.filtered() =~= Seq::<FilteredEntry>::empty());
        self.push_scored(words, pattern, 0);
        self.push_scored(commands, pattern, 1);
        assert(self.custom_names() =~= names);
        assert(self.custom_descriptions() =~= descriptions);
        let ghost base = self.filtered();
        let mut i: usize = 0;
        while i < self.custom_entries.len()
            invariant
                i <= names.len(),
                names == self.custom_names(),
                descriptions == self.custom_descriptions(),
                names.len() == self.custom_count(),
                self.filtered() == base + scored_custom(names.subrange(0, i as int), descriptions, pattern@),
                self.cursor_spec() == old(self).cursor_spec(),
            decreases names.len() - i,
        {
            assert(names.subrange(0, i + 1).drop_last() =~= names.subrange(0, i as int));
            assert(names[i as int] == self.custom_name(i as int));
            assert(descriptions[i as int] == self.custom_description(i as int));
            if let Some(score) = self.custom_score(i, pattern) {
                self.filtered_entries.push(FilteredEntry { source: FilteredEntrySource::Custom(i), score });
            }
            i = i + 1;
            assert(self.filtered() =~= base + scored_custom(names.subrange(0, i as int), descriptions, pattern@));
        }
        assert(names.subrange(0, i as int) =~= names);
        self.sort_filtered();
        let len = self.filtered_entries.len();
        if self.cursor >= len {
            self.cursor = if len == 0 { 0 } else { len - 1 };
        }
    }

    /// Sorts the filtered entries by score, best first; entries of equal
    /// score keep their order.
    fn sort_filtered(&mut self)
        ensures
            sorted_by_score(final(self).filtered()),
            same_entries(final(self).filtered(), old(self).filtered()),
            stably_sorted_from(final(self).filtered(), old(self).filtered()),
            final(self).cursor_spec() == old(self).cursor_spec(),
            final(self).custom_entries@ == old(self).custom_entries@,
    {
        let ghost orig = self.filtered();
        let n = self.filtered_entries.len();
        let ghost mut perm: Seq<int> = Seq::new(n as nat, |k: int| k);
        if n == 0 {
            assert(is_permutation(perm, 0));
            return;
        }
        let mut i: usize = 1;
        while i < n
            invariant
                1 <= i <= n,
                n == self.filtered_entries@.len(),
                n == orig.len(),
                self.cursor == old(self).cursor,
                self.custom_entries@ == old(self).custom_entries@,
                forall|a: int, b: int| 0 <= a < b < i ==> #[trigger] self.filtered_entries@[a].score >= #[trigger] self.filtered_entries@[b].score,
                forall|x: FilteredEntry| self.filtered_entries@.contains(x) <==> orig.contains(x),
                is_permutation(perm, n as int),
                forall|k: int| 0 <= k < n ==> #[trigger] self.filtered_entries@[k] == orig[perm[k]],
                forall|k: int| i <= k < n ==> #[trigger] perm[k] == k,
                forall|k: int| 0 <= k < i ==> #[trigger] perm[k] < i,
                forall|a: int, b: int| 0 <= a < b < i && self.filtered_entries@[a].score == self.filtered_entries@[b].score
                    ==> #[trigger] perm[a] < #[trigger] perm[b],
            decreases n - i,
        {
            let mut j = i;
            while j > 0 && self.filtered_entries[j - 1].score < self.filtered_entries[j].score
                invariant
                    0 <= j <= i < n,
                    n == self.filtered_entries@.len(),
                    n == orig.len(),
                    self.cursor == old(self).cursor,
                    self.custom_entries@ == old(self).custom_entries@,
                    forall|a: int, b: int| 0 <= a < b <= i && a != j && b != j ==> #[trigger] self.filtered_entries@[a].score >= #[trigger] self.filtered_entries@[b].score,
                    forall|a: int| j < a <= i ==> #[trigger] self.filtered_entries@[j as int].score > self.filtered_entries@[a].score,
                    forall|a: int| 0 <= a < j ==> j < i ==> #[trigger] self.filtered_entries@[a].score >= self.filtered_entries@[j + 1].score,
                    forall|x: FilteredEntry| self.filtered_entries@.contains(x) <==> orig.contains(x),
                    is_permutation(perm, n as int),
                    forall|k: int| 0 <= k < n ==> #[trigger] self.filtered_entries@[k] == orig[perm[k]],
                    forall|k: int| i < k < n ==> #[trigger] perm[k] == k,
                    perm[j as int] == i,
                    forall|k: int| 0 <= k <= i && k != j ==> #[trigger] perm[k] < i,
                    forall|a: int, b: int| 0 <= a < b <= i && a != j && b != j && self.filtered_entries@[a].score == self.filtered_entries@[b].score
                        ==> #[trigger] perm[a] < #[trigger] perm[b],
                decreases j,
            {
                let a = self.filtered_entries[j - 1];
                let b = self.filtered_entries[j];
                let ghost before = self.filtered_entries@;
                let ghost pb = perm;
                self.filtered_entries.set(j - 1, b);
                self.filtered_entries.set(j, a);
                proof {
                    perm = pb.update(j - 1, pb[j as int]).update(j as int, pb[j - 1]);
                    let after = self.filtered_entries@;
                    assert forall|x: FilteredEntry| after.contains(x) <==> before.contains(x) by {
                        if after.contains(x) {
                            let w = choose|w: int| 0 <= w < after.len() && after[w] == x;
                            if w == j - 1 { assert(before[j as int] == x); } else if w == j { assert(before[j - 1] == x); } else { assert(before[w] == x); }
                        }
                        if before.contains(x) {
                            let w = choose|w: int| 0 <= w < before.len() && before[w] == x;
                            if w == j - 1 { assert(after[j as int] == x); } else if w == j { assert(after[j - 1] == x); } else { assert(after[w] == x); }
                        }
                    }
                    assert forall|x: int, y: int| 0 <= x < y < n implies #[trigger] perm[x] != #[trigger] perm[y] by {
                        let sx = if x == j - 1 { j as int } else if x == j { j - 1 } else { x };
                        let sy = if y == j - 1 { j as int } else if y == j { j - 1 } else { y };
                        assert(perm[x] == pb[sx]);
                        assert(perm[y] == pb[sy]);
                        assert(sx != sy);
                        if sx < sy {
                            assert(pb[sx] != pb[sy]);
                        } else {
                            assert(pb[sy] != pb[sx]);
                        }
                    }
                    assert forall|k: int| 0 <= k < n implies 0 <= #[trigger] perm[k] < n by {
                        let sk = if k == j - 1 { j as int } else if k == j { j - 1 } else { k };
                        assert(perm[k] == pb[sk]);
                    }
                }
                j = j - 1;
            }
            proof {
                assert forall|x: int, y: int| 0 <= x < y < i + 1 && self.filtered_entries@[x].score == self.filtered_entries@[y].score
                    implies #[trigger] perm[x] < #[trigger] perm[y] by {
                    if y == j {
                        assert(perm[x] < i);
                    } else if x == j {
                        assert(self.filtered_entries@[j as int].score > self.filtered_entries@[y].score);
                    }
                }
            }
            i = i + 1;
        }
    }

    /// Adds a custom entry and, where it matches `pattern`, puts it among the
    /// filtered entries by its score.
    pub fn add_custom_entry_filtered(&mut self, name: &str, description: &str, pattern: &str)
        requires
            old(self).wf(),
        ensures
            final(self).wf(),
            sorted_by_score(old(self).filtered()) ==> sorted_by_score(final(self).filtered()),
            final(self).custom_count() == old(self).custom_count() + 1,
            final(self).custom_name(old(self).custom_count()) == name@,
            final(self).custom_description(old(self).custom_count()) == description@,
            ({
                let s = best_of(bonus_of(name@, pattern@), bonus_of(description@, pattern@));
                let e = FilteredEntry { source: FilteredEntrySource::Custom(old(self).custom_count() as usize), score: s->0 };
                &&& s is None ==> final(self).filtered() == old(self).filtered()
                &&& s is Some ==> same_entries(final(self).filtered(), old(self).filtered().push(e))
            }),
    {
        self.add_custom_entry(name, description);
        let index = self.custom_entries.len() - 1;
        if let Some(score) = self.custom_score(index, pattern) {
            self.filtered_entries.push(FilteredEntry { source: FilteredEntrySource::Custom(index), score });
            self.sort_filtered();
            proof {
                if sorted_by_score(old(self).filtered()) {
                    assert(sorted_by_score(self.filtered()));
                }
            }
        }
    }

    /// The entry under the cursor.
    pub fn current_entry(&self, words: &Vec<String>, commands: &Vec<String>) -> (r: Option<PickerEntry>)
        requires
            self.wf(),
        ensures
            r is Some <==> self.filtered().len() > 0,
            r matches Some(e) ==> e.score == self.filtered()[self.cursor_spec()].score,
    {
        if self.cursor < self.filtered_entries.len() {
            Some(filtered_to_picker_entry(&self.filtered_entries[self.cursor], &self.custom_entries, words, commands))
        } else {
            None
        }
    }

    /// The filtered entries, best first.
    pub fn entries(&self, words: &Vec<String>, commands: &Vec<String>) -> (r: Vec<PickerEntry>)
        ensures
            r@.len() == self.filtered().len(),
            forall|i: int| 0 <= i < r@.len() ==> #[trigger] r@[i].score == self.filtered()[i].score,
    {
        let mut r: Vec<PickerEntry> = Vec::new();
        let mut i: usize = 0;
        while i < self.filtered_entries.len()
            invariant
                i <= self.filtered().len(),
                r@.len() == i,
                forall|k: int| 0 <= k < i ==> #[trigger] r@[k].score == self.filtered()[k].score,
            decreases self.filtered().len() - i,
        {
            r.push(filtered_to_picker_entry(&self.filtered_entries[i], &self.custom_entries, words, commands));
            i = i + 1;
        }
        r
    }

    pub fn clear_filtered(&mut self)
        ensures
            final(self).wf(),
            final(self).filtered().len() == 0,
            final(self).cursor_spec() == 0,
            final(self).scroll_spec() == 0,
            final(self).custom_count() == old(self).custom_count(),
            forall|i: int| 0 <= i < old(self).custom_count() ==> final(self).custom_name(i) == old(self).custom_name(i)
                && final(self).custom_description(i) == old(self).custom_description(i),
    {
        self.filtered_entries.clear();
        self.cursor = 0;
        self.scroll = 0;
    }
}

pub open spec fn source_of(tag: int, i: int) -> FilteredEntrySource {
    if tag == 0 { FilteredEntrySource::WordDatabase(i as usize) } else { FilteredEntrySource::Command(i as usize) }
}

/// The entries of `texts` that match `pattern`, in order, with their scores;
/// `tag` 0 marks words, any other commands.
pub open spec fn scored_list(texts: Seq<Seq<char>>, pattern: Seq<char>, tag: int) -> Seq<FilteredEntry>
    decreases texts.len(),
{
    if texts.len() == 0 {
        Seq::empty()
    } else {
        let prev = scored_list(texts.drop_last(), pattern, tag);
        match bonus_of(texts.last(), pattern) {
            None => prev,
            Some(s) => prev.push(FilteredEntry { source: source_of(tag, texts.len() - 1), score: s }),
        }
    }
}

/// The custom entries that match `pattern` by name or description, in
/// order, each with the better of its two scores.
pub open spec fn scored_custom(names: Seq<Seq<char>>, descriptions: Seq<Seq<char>>, pattern: Seq<char>) -> Seq<FilteredEntry>
    decreases names.len(),
{
    if names.len() == 0 {
        Seq::empty()
    } else {
        let prev = scored_custom(names.drop_last(), descriptions, pattern);
        let i = names.len() - 1;
        match best_of(bonus_of(names[i], pattern), bonus_of(descriptions[i], pattern)) {
            None => prev,
            Some(s) => prev.push(FilteredEntry { source: FilteredEntrySource::Custom(i as usize), score: s }),
        }
    }
}

pub open spec fn strings_view(v: Seq<String>) -> Seq<Seq<char>> {
    v.map_values(|s: String| s@)
}

/// The same entries, each as often, in any order.
pub open spec fn same_entries(a: Seq<FilteredEntry>, b: Seq<FilteredEntry>) -> bool {
    a.len() == b.len() && (forall|x: FilteredEntry| a.contains(x) <==> b.contains(x))
}

/// The name and description that a filtered entry stands for; a source out
/// of range gives empty text.
pub fn filtered_to_picker_entry(entry: &FilteredEntry, custom_entries: &Vec<CustomEntry>, words: &Vec<String>, commands: &Vec<String>) -> (r: PickerEntry)
    ensures
        r.score == entry.score,
        match entry.source {
            FilteredEntrySource::Custom(i) => i < custom_entries@.len() ==> r.name@ == custom_entries@[i as int].name@
                && r.description@ == custom_entries@[i as int].description@,
            FilteredEntrySource::WordDatabase(i) => i < words@.len() ==> r.name@ == words@[i as int]@ && r.description@.len() == 0,
            FilteredEntrySource::Command(i) => i < commands@.len() ==> r.name@ == commands@[i as int]@ && r.description@.len() == 0,
        },
{
    match entry.source {
        FilteredEntrySource::Custom(i) => {
            if i < custom_entries.len() {
                let e = &custom_entries[i];
                PickerEntry { name: e.name.clone(), description: e.description.clone(), score: entry.score }
            } else {
                PickerEntry { name: String::new(), description: String::new(), score: entry.score }
            }
        },
        FilteredEntrySource::WordDatabase(i) => {
            let name = if i < words.len() { words[i].clone() } else { String::new() };
            PickerEntry { name, description: String::new(), score: entry.score }
        },
        FilteredEntrySource::Command(i) => {
            let name = if i < commands.len() { commands[i].clone() } else { String::new() };
            PickerEntry { name, description: String::new(), score: entry.score }
        },
    }
}

/// After filtering, a match as long as the pattern comes before a match
/// that is not, when the matcher scores both the same: the length bonus
/// raises its score, and the list is sorted by score.
pub proof fn lemma_exact_length_first(es: Seq<FilteredEntry>, i: int, j: int, a: Seq<char>, b: Seq<char>, p: Seq<char>)
    requires
        sorted_by_score(es),
        0 <= i < es.len(),
        0 <= j < es.len(),
        skim_score(a, p) is Some,
        skim_score(a, p) == skim_score(b, p),
        skim_score(a, p)->0 < i64::MAX,
        encode_utf8(a).len() as usize == encode_utf8(p).len() as usize,
        encode_utf8(b).len() as usize != encode_utf8(p).len() as usize,
        es[i].score == bonus_of(a, p)->0,
        es[j].score == bonus_of(b, p)->0,
    ensures
        i < j,
{
    if j <= i {
        if j < i {
            assert(es[j].score >= es[i].score);
        }
    }
}

/// `perm` orders the indices `0..n`, each once.
pub open spec fn is_permutation(perm: Seq<int>, n: int) -> bool {
    &&& perm.len() == n
    &&& forall|k: int| 0 <= k < n ==> 0 <= #[trigger] perm[k] < n
    &&& forall|a: int, b: int| 0 <= a < b < n ==> #[trigger] perm[a] != #[trigger] perm[b]
}

/// `result` holds the entries of `input` rearranged so that entries of equal
/// score keep the order they had in `input`.
pub open spec fn stably_sorted_from(result: Seq<FilteredEntry>, input: Seq<FilteredEntry>) -> bool {
    exists|perm: Seq<int>| {
        &&& is_permutation(perm, input.len() as int)
        &&& result.len() == input.len()
        &&& forall|k: int| 0 <= k < result.len() ==> #[trigger] result[k] == input[perm[k]]
        &&& forall|a: int, b: int| 0 <= a < b < result.len() && result[a].score == result[b].score
            ==> #[trigger] perm[a] < #[trigger] perm[b]
    }
}

/// A key that the picker mode acts on.
#[derive(Clone, Copy, Debug, PartialEq, Eq, Structural)]
pub enum PickerKey {
    /// Ctrl-n, Ctrl-j or Down.
    Next,
    /// Ctrl-p, Ctrl-k or Up.
    Previous,
    /// Ctrl-d or PageDown.
    HalfPageDown,
    /// Ctrl-u or PageUp.
    HalfPageUp,
    /// Ctrl-b or Home.
    First,
    /// Ctrl-e or End.
    Last,
}

/// The cursor offset that `key` asks for, in a picker of `len` entries shown
/// on at most `max_height` rows, with the cursor at `cursor`.
pub open spec fn key_offset(key: PickerKey, cursor: int, len: int, max_height: int) -> int {
    let height = if len < max_height { len } else { max_height };
    match key {
        PickerKey::Next => 1,
        PickerKey::Previous => -1,
        PickerKey::HalfPageDown => height / 2,
        PickerKey::HalfPageUp => -(height / 2),
        PickerKey::First => -cursor,
        PickerKey::Last => len - cursor - 1,
    }
}

/// Fills the picker with `entries` for the user to pick from, filtered by an
/// empty pattern, with the cursor on the first. Returns whether there is any
/// entry to pick.
pub fn enter_mode(picker: &mut Picker, entries: &Vec<String>) -> (r: bool)
    ensures
        final(picker).wf(),
        r == (final(picker).filtered().len() > 0),
        same_entries(final(picker).filtered(), scored_custom(final(picker).custom_names(), final(picker).custom_descriptions(), Seq::empty())),
        final(picker).custom_count() == entries@.len(),
        forall|i: int| 0 <= i < entries@.len() ==> final(picker).custom_name(i) == entries@[i]@,
        final(picker).cursor_spec() == 0,
{
    picker.clear();
    let mut i: usize = 0;
    while i < entries.len()
        invariant
            i <= entries@.len(),
            picker.wf(),
            picker.custom_count() == i,
            picker.cursor_spec() == 0,
            forall|k: int| 0 <= k < i ==> picker.custom_name(k) == entries@[k]@,
        decreases entries@.len() - i,
    {
        picker.add_custom_entry(entries[i].as_str(), "");
        i = i + 1;
    }
    let ghost names = picker.custom_names();
    let ghost descriptions = picker.custom_descriptions();
    assert forall|k: int| 0 <= k < entries@.len() implies names[k] == entries@[k]@ by {
        assert(picker.custom_name(k) == entries@[k]@);
    }
    let no_strings: Vec<String> = Vec::new();
    picker.filter(&no_strings, &no_strings, "");
    let ghost filtered = picker.filtered();
    proof {
        reveal_strlit("");
        assert(""@ =~= Seq::<char>::empty());
        assert(strings_view(no_strings@) =~= Seq::<Seq<char>>::empty());
        assert(scored_list(Seq::<Seq<char>>::empty(), Seq::<char>::empty(), 0) =~= Seq::<FilteredEntry>::empty());
        assert(scored_list(Seq::<Seq<char>>::empty(), Seq::<char>::empty(), 1) =~= Seq::<FilteredEntry>::empty());
        assert(Seq::<FilteredEntry>::empty() + Seq::<FilteredEntry>::empty() + scored_custom(names, descriptions, Seq::<char>::empty())
            =~= scored_custom(names, descriptions, Seq::<char>::empty()));
        assert(picker.custom_names() == names);
        assert forall|k: int| 0 <= k < entries@.len() implies picker.custom_name(k) == entries@[k]@ by {
            assert(names[k] == entries@[k]@);
        }
    }
    assert(same_entries(filtered, scored_custom(names, descriptions, Seq::empty())));
    picker.move_cursor(0);
    proof {
        assert forall|k: int| 0 <= k < entries@.len() implies picker.custom_name(k) == entries@[k]@ by {
            assert(picker.custom_names()[k] == names[k]);
        }
        assert(picker.filtered() == filtered);
        assert(picker.custom_names() == names);
        assert(picker.custom_descriptions() == descriptions);
    }
    picker.len() > 0
}

impl Picker {
    /// Moves the cursor as `key` asks: a step, half the shown rows, or to
    /// either end.
    pub fn on_key(&mut self, key: PickerKey, max_height: usize)
        requires
            old(self).wf(),
            old(self).filtered().len() <= isize::MAX,
            max_height <= isize::MAX,
        ensures
            final(self).wf(),
            final(self).filtered() == old(self).filtered(),
            final(self).cursor_spec() == spec_move_cursor(
                old(self).cursor_spec(),
                key_offset(key, old(self).cursor_spec(), old(self).filtered().len() as int, max_height as int),
                old(self).filtered().len() as int,
            ),
    {
        let len = self.filtered_entries.len();
        let height = self.height(max_height) as isize;
        let cursor = self.cursor as isize;
        let offset: isize = match key {
            PickerKey::Next => 1,
            PickerKey::Previous => -1,
            PickerKey::HalfPageDown => height / 2,
            PickerKey::HalfPageUp => -(height / 2),
            PickerKey::First => -cursor,
            PickerKey::Last => len as isize - cursor - 1,
        };
        self.move_cursor(offset);
    }
}

/// Where `move_cursor(offset)` takes the cursor `c` of a list of `len` entries.
pub open spec fn spec_move_cursor(c: int, offset: int, len: int) -> int {
    if len == 0 {
        c
    } else if offset > 0 {
        let (o, c2) = if c == len - 1 { (offset - 1, 0) } else { (offset, c) };
        if o < len - 1 - c2 { c2 + o } else { len - 1 }
    } else if offset < 0 {
        let (o, c2) = if c == 0 { (-offset - 1, len - 1) } else { (-offset, c) };
        if o < c2 { c2 - o } else { 0 }
    } else {
        c
    }
}

/// A step forward and the same step back leave the cursor where it was, as
/// long as the step forward does not stop at the last entry early; from the
/// last entry a single step wraps to the first and back.
pub proof fn lemma_move_cursor_round_trip(c: int, n: int, len: int)
    requires
        0 <= c < len,
        0 <= n,
        c + n <= len - 1 || (c == len - 1 && n == 1),
    ensures
        spec_move_cursor(spec_move_cursor(c, n, len), -n, len) == c,
{
}

} // verus!
