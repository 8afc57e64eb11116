//! The similarity matrix.
//!
//! For `n` words the engine computes the full `n x n` table of scores, one
//! row per word, rows in parallel. Row `i`, column `j` holds the edit
//! distance between the lowercase forms of words `i` and `j` together with
//! the length of the longer form. The matrix is symmetric, its diagonal is
//! exactly `1`, and every entry lies in `[0, 1]`; the lemmas at the end
//! state those three laws.

use vstd::prelude::*;

use crate::lev::{lev, levenshtein_distance};
use crate::score::Score;
use crate::words::WordList;

use rayon::iter::{IntoParallelIterator, ParallelIterator};

verus! {

use vstd::string::StrSliceExecFns;

/// The score records the edit distance between `a` and `b` and the longer
/// of the two lengths, together with what the metric grants of that
/// distance: symmetry, zero on equal strings, and the length bound.
pub open spec fn score_ok(s: Score, a: Seq<char>, b: Seq<char>) -> bool {
    &&& s.dist == lev(a, b)
    &&& lev(a, b) == lev(b, a)
    &&& (a == b ==> s.dist == 0)
    &&& s.len == if a.len() >= b.len() {
        a.len()
    } else {
        b.len()
    }
    &&& s.wf()
}

/// Row `i` of the matrix scores word `i` against every word, in order.
pub open spec fn row_ok(row: Seq<Score>, norms: Seq<Seq<char>>, i: int) -> bool {
    &&& row.len() == norms.len()
    &&& forall|j: int| 0 <= j < norms.len() ==> score_ok(#[trigger] row[j], norms[i], norms[j])
}

/// The full table of pairwise similarity scores.
pub struct SimilarityMatrix {
    pub rows: Vec<Vec<Score>>,
}

impl SimilarityMatrix {
    /// The matrix as a sequence of rows of scores.
    pub open spec fn matrix(self) -> Seq<Seq<Score>> {
        self.rows@.map_values(|r: Vec<Score>| r@)
    }

    /// The matrix scores exactly the given lowercase forms, every row
    /// against every column.
    pub open spec fn models(self, norms: Seq<Seq<char>>) -> bool {
        &&& self.matrix().len() == norms.len()
        &&& forall|i: int| 0 <= i < norms.len() ==> row_ok(#[trigger] self.matrix()[i], norms, i)
    }

    /// The table is square and every score is well formed. Follows from
    /// [`SimilarityMatrix::models`]; it is all the reporter needs.
    pub open spec fn square_wf(self) -> bool {
        forall|i: int|
            0 <= i < self.matrix().len() ==> (#[trigger] self.matrix()[i]).len()
                == self.matrix().len() && forall|j: int|
                0 <= j < self.matrix()[i].len() ==> (#[trigger] self.matrix()[i][j]).wf()
    }

    /// Number of rows (and of columns).
    pub fn size(&self) -> (n: usize)
        ensures
            n == self.matrix().len(),
    {
        self.rows.len()
    }

    /// The score of words `i` and `j`.
    pub fn score_at(&self, i: usize, j: usize) -> (s: Score)
        requires
            i < self.matrix().len(),
            j < self.matrix()[i as int].len(),
        ensures
            s == self.matrix()[i as int][j as int],
    {
        self.rows[i][j]
    }
}

/// Scores word `i` against every word of the list, in order.
fn similarity_row(words: &WordList, i: usize) -> (row: Vec<Score>)
    requires
        i < words.entries@.len(),
    ensures
        row_ok(row@, words.norms(), i as int),
{
    let n = words.entries.len();
    let a: &str = words.entries[i].normalized.as_str();
    let a_len = a.unicode_len();
    let mut row: Vec<Score> = Vec::new();
    let mut j: usize = 0;
    while j < n
        invariant
            n == words.entries@.len(),
            i < n,
            a@ == words.norms()[i as int],
            a_len == a@.len(),
            0 <= j <= n,
            row@.len() == j,
            forall|k: int|
                0 <= k < j ==> score_ok(#[trigger] row@[k], words.norms()[i as int],
                words.norms()[k]),
        decreases n - j,
    {
        let b: &str = words.entries[j].normalized.as_str();
        let b_len = b.unicode_len();
        let len = if a_len >= b_len {
            a_len
        } else {
            b_len
        };
        let dist = levenshtein_distance(a, b);
        row.push(Score { dist, len });
        j += 1;
    }
    row
}

/// Relies on rayon's parallel map over an index range: `collect` on an
/// indexed parallel iterator places each mapped value at its index, so the
/// rows come back in order, each exactly what `similarity_row` returns.
#[verifier::external_body]
fn parallel_rows(words: &WordList) -> (rows: Vec<Vec<Score>>)
    ensures
        rows@.len() == words.entries@.len(),
        forall|i: int| 0 <= i < rows@.len() ==> row_ok(#[trigger] rows@[i]@, words.norms(), i),
{
    (0..words.entries.len())
        .into_par_iter()
        .map(|i| similarity_row(words, i))
        .collect()
}

/// Computes the full similarity matrix of the word list, rows in parallel.
///
/// Every pair of words, including a word against itself, has a defined
/// score; there is no error path.
pub fn calculate_similarity_matrix(words: &WordList) -> (m: SimilarityMatrix)
    ensures
        m.models(words.norms()),
{
    let rows = parallel_rows(words);
    let m = SimilarityMatrix { rows };
    proof {
        assert forall|i: int| 0 <= i < words.norms().len() implies row_ok(
            #[trigger] m.matrix()[i],
            words.norms(),
            i,
        ) by {
            assert(m.matrix()[i] == m.rows@[i]@);
        }
    }
    m
}

/// The diagonal is exactly `1`: every word has similarity one to itself.
pub proof fn lemma_matrix_diagonal_one(m: SimilarityMatrix, norms: Seq<Seq<char>>)
    requires
        m.models(norms),
    ensures
        forall|i: int| 0 <= i < norms.len() ==> (#[trigger] m.matrix()[i][i]).is_one(),
{
    assert forall|i: int| 0 <= i < norms.len() implies (#[trigger] m.matrix()[i][i]).is_one() by {
        assert(score_ok(m.matrix()[i][i], norms[i], norms[i]));
    }
}

/// Words with the same lowercase form have similarity exactly `1`, whatever
/// their original casing.
pub proof fn lemma_equal_norms_score_one(m: SimilarityMatrix, norms: Seq<Seq<char>>, i: int, j: int)
    requires
        m.models(norms),
        0 <= i < norms.len(),
        0 <= j < norms.len(),
        norms[i] == norms[j],
    ensures
        m.matrix()[i][j].is_one(),
{
    assert(score_ok(m.matrix()[i][j], norms[i], norms[j]));
}

/// The matrix is symmetric: the score of `(i, j)` equals that of `(j, i)`,
/// whatever the two strings are.
pub proof fn lemma_matrix_symmetric(m: SimilarityMatrix, norms: Seq<Seq<char>>)
    requires
        m.models(norms),
    ensures
        forall|i: int, j: int|
            0 <= i < norms.len() && 0 <= j < norms.len() ==> #[trigger] m.matrix()[i][j]
                == m.matrix()[j][i],
{
    assert forall|i: int, j: int|
        0 <= i < norms.len() && 0 <= j < norms.len() implies #[trigger] m.matrix()[i][j]
        == m.matrix()[j][i] by {
        assert(score_ok(m.matrix()[i][j], norms[i], norms[j]));
        assert(score_ok(m.matrix()[j][i], norms[j], norms[i]));
    }
}

/// Every entry lies in `[0, 1]`: its numerator is at least `0` and at most
/// its (positive) denominator.
pub proof fn lemma_matrix_in_range(m: SimilarityMatrix, norms: Seq<Seq<char>>)
    requires
        m.models(norms),
    ensures
        forall|i: int, j: int|
            0 <= i < norms.len() && 0 <= j < norms.len() ==> 0 <= (#[trigger] m.matrix()[i][j]).num()
                <= m.matrix()[i][j].den(),
{
    assert forall|i: int, j: int|
        0 <= i < norms.len() && 0 <= j < norms.len() implies 0 <= (#[trigger] m.matrix()[i][j]).num()
        <= m.matrix()[i][j].den() by {
        assert(score_ok(m.matrix()[i][j], norms[i], norms[j]));
    }
}

} // verus!
