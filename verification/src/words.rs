//! Loading and validation of the word list.
//!
//! Each input line becomes a [`WordEntry`] that keeps the original text for
//! reporting beside a lowercased form for comparison. A [`WordList`] is
//! valid when it has no empty line and between [`MIN_WORDS`] and
//! [`MAX_WORDS`] entries; [`load_word_list`] states exactly which error each
//! invalid input earns.

use vstd::prelude::*;

verus! {

/// Fewest words an input may hold.
pub const MIN_WORDS: usize = 2;

/// Most words an input may hold.
pub const MAX_WORDS: usize = 500_000;

/// Why an input was rejected before any computation began.
#[derive(Clone, Copy, PartialEq, Eq, Structural, Debug)]
pub enum ValidationError {
    /// Some input line was empty. A line of only whitespace is not empty.
    EmptyLine,
    /// The input held `count` lines, outside `min ..= max`.
    CountOutOfRange { count: usize, min: usize, max: usize },
}

/// One input word: the text as given, and its lowercased form used for
/// every comparison.
pub struct WordEntry {
    pub normalized: String,
    pub original: String,
}

/// The lowercase form of a string, character for character as
/// `str::to_lowercase` defines it. The name stands for what that function
/// returns; nothing in this crate computes the mapping.
pub uninterp spec fn lower_of(s: Seq<char>) -> Seq<char>;

/// Relies on `str::to_lowercase`: the result depends on the characters of
/// the input alone.
#[verifier::external_body]
pub(crate) fn lowercase(s: &str) -> (r: String)
    ensures
        r@ == lower_of(s@),
{
    s.to_lowercase()
}

/// The entry records `line` unchanged and carries its lowercase form.
pub open spec fn entry_models(e: WordEntry, line: Seq<char>) -> bool {
    &&& e.original@ == line
    &&& e.normalized@ == lower_of(line)
}

/// The ordered list of words the matrix is computed over.
pub struct WordList {
    pub entries: Vec<WordEntry>,
}

impl WordList {
    /// A loaded list: the count is in range and no original line is empty.
    pub open spec fn wf(self) -> bool {
        &&& MIN_WORDS <= self.entries@.len() <= MAX_WORDS
        &&& forall|i: int|
            0 <= i < self.entries@.len() ==> (#[trigger] self.entries@[i]).original@.len() > 0
    }

    /// The list holds exactly the given lines, in order, each beside its
    /// lowercase form.
    pub open spec fn models(self, lines: Seq<Seq<char>>) -> bool {
        &&& self.entries@.len() == lines.len()
        &&& forall|i: int|
            0 <= i < lines.len() ==> entry_models(#[trigger] self.entries@[i], lines[i])
    }

    /// The lowercase forms of the entries, in order.
    pub open spec fn norms(self) -> Seq<Seq<char>> {
        self.entries@.map_values(|e: WordEntry| e.normalized@)
    }

    /// How many words were loaded.
    pub fn len(&self) -> (n: usize)
        ensures
            n == self.entries@.len(),
    {
        self.entries.len()
    }
}

/// The views of a vector of lines.
pub open spec fn line_views(lines: Seq<String>) -> Seq<Seq<char>> {
    lines.map_values(|s: String| s@)
}

/// Whether some line is empty.
pub open spec fn has_empty_line(lines: Seq<Seq<char>>) -> bool {
    exists|i: int| 0 <= i < lines.len() && #[trigger] lines[i].len() == 0
}

/// Validates and normalizes the input lines.
///
/// An empty line is rejected first, whatever the count; then a count below
/// [`MIN_WORDS`] or above [`MAX_WORDS`] is rejected; any other input loads,
/// every line kept in order beside its lowercase form.
pub fn load_word_list(lines: &Vec<String>) -> (r: Result<WordList, ValidationError>)
    ensures
        match r {
            Ok(ws) => {
                &&& !has_empty_line(line_views(lines@))
                &&& MIN_WORDS <= lines@.len() <= MAX_WORDS
                &&& ws.wf()
                &&& ws.models(line_views(lines@))
            },
            Err(ValidationError::EmptyLine) => has_empty_line(line_views(lines@)),
            Err(ValidationError::CountOutOfRange { count, min, max }) => {
                &&& !has_empty_line(line_views(lines@))
                &&& (lines@.len() < MIN_WORDS || lines@.len() > MAX_WORDS)
                &&& count == lines@.len()
                &&& min == MIN_WORDS
                &&& max == MAX_WORDS
            },
        },
        r is Ok <==> (!has_empty_line(line_views(lines@)) && MIN_WORDS <= lines@.len()
            <= MAX_WORDS),
{
    let ghost views = line_views(lines@);
    let n = lines.len();
    let mut entries: Vec<WordEntry> = Vec::new();
    let mut idx: usize = 0;
    while idx < n
        invariant
            n == lines@.len(),
            views == line_views(lines@),
            0 <= idx <= n,
            entries@.len() == idx,
            forall|j: int| 0 <= j < idx ==> views[j].len() > 0,
            forall|j: int| 0 <= j < idx ==> entry_models(#[trigger] entries@[j], views[j]),
        decreases n - idx,
    {
        let line: &String = &lines[idx];
        if line.as_str().is_empty() {
            assert(views[idx as int].len() == 0);
            return Err(ValidationError::EmptyLine);
        }
        let normalized = lowercase(line.as_str());
        entries.push(WordEntry { normalized, original: line.clone() });
        idx += 1;
    }
    if n < MIN_WORDS || n > MAX_WORDS {
        return Err(
            ValidationError::CountOutOfRange { count: n, min: MIN_WORDS, max: MAX_WORDS },
        );
    }
    let ws = WordList { entries };
    assert forall|i: int| 0 <= i < ws.entries@.len() implies
        (#[trigger] ws.entries@[i]).original@.len() > 0 by {
        assert(entry_models(ws.entries@[i], views[i]));
    }
    Ok(ws)
}

} // verus!
