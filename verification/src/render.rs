//! Rendering the report, character by character.
//!
//! Each matching pair becomes one line,
//! `Row <i>: <word_i>\tRow <j>: <word_j>\tSimilarity: <p>%`,
//! rows 1-indexed, the percentage written with two decimals. The percentage
//! is computed from the exact score: `(len - dist) / len * 10000`, rounded
//! half-up to an integer count of hundredths.

use vstd::prelude::*;

use crate::report::{report_ok, MatchPair};
use crate::score::Score;
use crate::threshold::Threshold;
use crate::words::{WordEntry, WordList};

verus! {

use vstd::arithmetic::div_mod::lemma_multiply_divide_lt;
use vstd::string::StringExecFns;

/// The decimal digit `d` as a character.
pub open spec fn digit_char(d: int) -> char {
    if d == 0 {
        '0'
    } else if d == 1 {
        '1'
    } else if d == 2 {
        '2'
    } else if d == 3 {
        '3'
    } else if d == 4 {
        '4'
    } else if d == 5 {
        '5'
    } else if d == 6 {
        '6'
    } else if d == 7 {
        '7'
    } else if d == 8 {
        '8'
    } else {
        '9'
    }
}

/// The decimal digits of `n`, most significant first, no leading zero
/// except for `n == 0` itself.
pub open spec fn dec_chars(n: int) -> Seq<char>
    decreases n,
{
    if n < 10 {
        seq![digit_char(n)]
    } else {
        dec_chars(n / 10).push(digit_char(n % 10))
    }
}

/// The single decimal digit `d`, as a string.
fn digit_str(d: u64) -> (r: &'static str)
    requires
        d < 10,
    ensures
        r@ == seq![digit_char(d as int)],
{
    proof {
        reveal_strlit("0");
        reveal_strlit("1");
        reveal_strlit("2");
        reveal_strlit("3");
        reveal_strlit("4");
        reveal_strlit("5");
        reveal_strlit("6");
        reveal_strlit("7");
        reveal_strlit("8");
        reveal_strlit("9");
    }
    let r = if d == 0 {
        "0"
    } else if d == 1 {
        "1"
    } else if d == 2 {
        "2"
    } else if d == 3 {
        "3"
    } else if d == 4 {
        "4"
    } else if d == 5 {
        "5"
    } else if d == 6 {
        "6"
    } else if d == 7 {
        "7"
    } else if d == 8 {
        "8"
    } else {
        "9"
    };
    proof {
        assert(r@ =~= seq![digit_char(d as int)]);
    }
    r
}

/// Appends the decimal digits of `n` to `out`.
fn push_decimal(out: &mut String, n: u64)
    ensures
        final(out)@ == old(out)@ + dec_chars(n as int),
    decreases n,
{
    if n < 10 {
        out.append(digit_str(n));
        proof {
            assert(out@ =~= old(out)@ + dec_chars(n as int));
        }
    } else {
        push_decimal(out, n / 10);
        out.append(digit_str(n % 10));
        proof {
            assert(out@ =~= old(out)@ + dec_chars(n as int));
        }
    }
}

/// The score's similarity as hundredths of a percent, in `0 ..= 10000`:
/// `(len - dist) / len * 10000`, rounded half-up, with the empty-on-empty
/// case read as exactly `1`.
pub open spec fn percent_centi(s: Score) -> int {
    if s.len == 0 {
        10000
    } else {
        (2 * (s.len - s.dist) * 10000 + s.len) / (2 * s.len)
    }
}

/// Computes [`percent_centi`] exactly, in 128-bit arithmetic.
fn percent_of(s: &Score) -> (q: u64)
    requires
        s.wf(),
    ensures
        q == percent_centi(*s),
        q <= 10000,
{
    if s.len == 0 {
        10000
    } else {
        let diff = (s.len - s.dist) as u128;
        let len = s.len as u128;
        let v: u128 = 2 * diff * 10000 + len;
        let q128 = v / (2 * len);
        proof {
            assert(v < (2 * len as int) * 10001) by (nonlinear_arith)
                requires
                    v == 2 * diff * 10000 + len,
                    diff <= len,
                    len >= 1,
            ;
            lemma_multiply_divide_lt(v as int, 2 * len as int, 10001);
        }
        q128 as u64
    }
}

/// The percentage `q` (hundredths of a percent) written with two decimals:
/// the whole percents, a dot, then exactly two digits.
pub open spec fn percent_chars(q: int) -> Seq<char> {
    dec_chars(q / 100) + seq!['.', digit_char((q % 100) / 10), digit_char(q % 10)]
}

/// Appends the two-decimal percentage to `out`.
fn push_percent(out: &mut String, q: u64)
    requires
        q <= 10000,
    ensures
        final(out)@ == old(out)@ + percent_chars(q as int),
{
    push_decimal(out, q / 100);
    proof {
        reveal_strlit(".");
    }
    out.append(".");
    out.append(digit_str((q % 100) / 10));
    out.append(digit_str(q % 10));
    proof {
        assert(out@ =~= old(out)@ + percent_chars(q as int));
    }
}

/// The original texts of the words, in order.
pub open spec fn original_views(entries: Seq<WordEntry>) -> Seq<Seq<char>> {
    entries.map_values(|e: WordEntry| e.original@)
}

/// One report line: both words with their 1-indexed rows, then the
/// similarity as a percentage with two decimals.
pub open spec fn line_chars(p: MatchPair, origs: Seq<Seq<char>>) -> Seq<char> {
    "Row "@ + dec_chars(p.row_i + 1) + ": "@ + origs[p.row_i as int] + "\t"@ + "Row "@
        + dec_chars(p.row_j + 1) + ": "@ + origs[p.row_j as int] + "\tSimilarity: "@
        + percent_chars(percent_centi(p.score)) + "%"@
}

/// Renders one matching pair as its report line.
pub fn render_line(p: &MatchPair, words: &WordList) -> (line: String)
    requires
        words.wf(),
        p.score.wf(),
        p.row_i < p.row_j < words.entries@.len(),
    ensures
        line@ == line_chars(*p, original_views(words.entries@)),
{
    let mut out = String::new();
    out.append("Row ");
    push_decimal(&mut out, (p.row_i + 1) as u64);
    out.append(": ");
    out.append(words.entries[p.row_i].original.as_str());
    out.append("\t");
    out.append("Row ");
    push_decimal(&mut out, (p.row_j + 1) as u64);
    out.append(": ");
    out.append(words.entries[p.row_j].original.as_str());
    out.append("\tSimilarity: ");
    let q = percent_of(&p.score);
    push_percent(&mut out, q);
    out.append("%");
    proof {
        assert(out@ =~= line_chars(*p, original_views(words.entries@)));
    }
    out
}

/// Every pair points into the word list and carries a well-formed score.
pub open spec fn renderable(ps: Seq<MatchPair>, ws: WordList) -> bool {
    forall|k: int|
        0 <= k < ps.len() ==> (#[trigger] ps[k]).score.wf() && ps[k].row_i < ps[k].row_j
            < ws.entries@.len()
}

/// Renders the sorted pairs as report lines, in order, one line per pair.
pub fn render_report(pairs: &Vec<MatchPair>, words: &WordList) -> (lines: Vec<String>)
    requires
        words.wf(),
        renderable(pairs@, *words),
    ensures
        lines@.len() == pairs@.len(),
        forall|k: int|
            0 <= k < pairs@.len() ==> (#[trigger] lines@[k])@ == line_chars(
                pairs@[k],
                original_views(words.entries@),
            ),
{
    let n = pairs.len();
    let mut lines: Vec<String> = Vec::new();
    let mut k: usize = 0;
    while k < n
        invariant
            n == pairs@.len(),
            words.wf(),
            renderable(pairs@, *words),
            0 <= k <= n,
            lines@.len() == k,
            forall|q: int|
                0 <= q < k ==> (#[trigger] lines@[q])@ == line_chars(
                    pairs@[q],
                    original_views(words.entries@),
                ),
        decreases n - k,
    {
        let line = render_line(&pairs[k], words);
        lines.push(line);
        k += 1;
    }
    lines
}

/// The rendered report is deterministic: two line sequences rendered from
/// pair sequences that both satisfy the report's contract for the same
/// matrix and threshold are equal, character for character.
pub proof fn lemma_report_lines_deterministic(
    ps1: Seq<MatchPair>,
    ps2: Seq<MatchPair>,
    l1: Seq<Seq<char>>,
    l2: Seq<Seq<char>>,
    mat: Seq<Seq<Score>>,
    t: Threshold,
    origs: Seq<Seq<char>>,
)
    requires
        report_ok(ps1, mat, t),
        report_ok(ps2, mat, t),
        l1.len() == ps1.len(),
        l2.len() == ps2.len(),
        forall|k: int| 0 <= k < ps1.len() ==> l1[k] == line_chars(#[trigger] ps1[k], origs),
        forall|k: int| 0 <= k < ps2.len() ==> l2[k] == line_chars(#[trigger] ps2[k], origs),
    ensures
        l1 =~= l2,
{
    crate::report::lemma_report_deterministic(ps1, ps2, mat, t);
    assert(ps1 == ps2);
    assert forall|k: int| 0 <= k < l1.len() implies l1[k] == l2[k] by {
        assert(l1[k] == line_chars(ps1[k], origs));
        assert(l2[k] == line_chars(ps2[k], origs));
    }
}

} // verus!
