//! Filtering and ordering of the matching pairs.
//!
//! The reporter walks the upper triangle of the matrix, keeps every pair
//! whose score meets the threshold, and sorts the pairs by descending
//! similarity. Ties are broken by ascending row-then-column index, which
//! makes the order total and the report deterministic:
//! [`lemma_report_deterministic`] proves that any two sequences satisfying
//! the report's contract are equal.

use vstd::prelude::*;

use crate::matrix::SimilarityMatrix;
use crate::score::Score;
use crate::threshold::Threshold;

verus! {

use vstd::relations::{sorted_by, total_ordering};
use vstd::seq_lib::lemma_multiset_commutative;
use vstd::seq_lib::lemma_sorted_unique;

/// One reported pair: the words at `row_i` and `row_j` of the list,
/// `row_i < row_j`, with their similarity score.
#[derive(Clone, Copy, PartialEq, Eq, Structural, Debug)]
pub struct MatchPair {
    pub row_i: usize,
    pub row_j: usize,
    pub score: Score,
}

/// Tie-break for pairs of equal similarity: ascending row, then column,
/// then the raw score fields. Total on all pairs.
pub open spec fn key_le(a: MatchPair, b: MatchPair) -> bool {
    if a.row_i != b.row_i {
        a.row_i < b.row_i
    } else if a.row_j != b.row_j {
        a.row_j < b.row_j
    } else if a.score.dist != b.score.dist {
        a.score.dist < b.score.dist
    } else {
        a.score.len <= b.score.len
    }
}

/// The report's order: descending similarity, ties by [`key_le`].
pub open spec fn pair_le(a: MatchPair, b: MatchPair) -> bool {
    ||| a.score.gt(b.score)
    ||| (a.score.same_sim(b.score) && key_le(a, b))
}

/// The report's order as a relation value.
pub open spec fn pair_order() -> spec_fn(MatchPair, MatchPair) -> bool {
    |a: MatchPair, b: MatchPair| pair_le(a, b)
}

/// `>` on fractions carries over a shared middle fraction when the first
/// step is strict.
proof fn lemma_frac_gt_ge_trans(n1: int, d1: int, n2: int, d2: int, n3: int, d3: int)
    requires
        d1 > 0,
        d2 > 0,
        d3 > 0,
        n1 * d2 > n2 * d1,
        n2 * d3 >= n3 * d2,
    ensures
        n1 * d3 > n3 * d1,
{
    assert(n1 * d3 > n3 * d1) by (nonlinear_arith)
        requires
            d1 > 0,
            d2 > 0,
            d3 > 0,
            n1 * d2 > n2 * d1,
            n2 * d3 >= n3 * d2,
    ;
}

/// `>` on fractions carries over a shared middle fraction when the second
/// step is strict.
proof fn lemma_frac_ge_gt_trans(n1: int, d1: int, n2: int, d2: int, n3: int, d3: int)
    requires
        d1 > 0,
        d2 > 0,
        d3 > 0,
        n1 * d2 >= n2 * d1,
        n2 * d3 > n3 * d2,
    ensures
        n1 * d3 > n3 * d1,
{
    assert(n1 * d3 > n3 * d1) by (nonlinear_arith)
        requires
            d1 > 0,
            d2 > 0,
            d3 > 0,
            n1 * d2 >= n2 * d1,
            n2 * d3 > n3 * d2,
    ;
}

/// Equality of fractions carries over a shared middle fraction.
proof fn lemma_frac_eq_trans(n1: int, d1: int, n2: int, d2: int, n3: int, d3: int)
    requires
        d1 > 0,
        d2 > 0,
        d3 > 0,
        n1 * d2 == n2 * d1,
        n2 * d3 == n3 * d2,
    ensures
        n1 * d3 == n3 * d1,
{
    assert(n1 * d3 == n3 * d1) by (nonlinear_arith)
        requires
            d1 > 0,
            d2 > 0,
            d3 > 0,
            n1 * d2 == n2 * d1,
            n2 * d3 == n3 * d2,
    ;
}

/// The report's order is a total ordering: reflexive, antisymmetric,
/// transitive and strongly connected. This is what makes the sorted report
/// unique.
pub proof fn lemma_pair_order_total()
    ensures
        total_ordering(pair_order()),
{
    let leq = pair_order();
    assert forall|a: MatchPair| #[trigger] leq(a, a) by {
        assert(a.score.same_sim(a.score));
    }
    assert forall|a: MatchPair, b: MatchPair| #[trigger] leq(a, b) && #[trigger] leq(b, a)
        implies a == b by {
        assert(!(a.score.gt(b.score) && b.score.gt(a.score)));
        assert(a.score.same_sim(b.score));
        assert(key_le(a, b) && key_le(b, a));
        assert(a.row_i == b.row_i && a.row_j == b.row_j && a.score.dist == b.score.dist
            && a.score.len == b.score.len);
    }
    assert forall|a: MatchPair, b: MatchPair, c: MatchPair|
        #[trigger] leq(a, b) && #[trigger] leq(b, c) implies leq(a, c) by {
        let (na, da) = (a.score.num(), a.score.den());
        let (nb, db) = (b.score.num(), b.score.den());
        let (nc, dc) = (c.score.num(), c.score.den());
        if a.score.gt(b.score) && b.score.gt(c.score) {
            lemma_frac_gt_ge_trans(na, da, nb, db, nc, dc);
        } else if a.score.gt(b.score) && b.score.same_sim(c.score) {
            lemma_frac_gt_ge_trans(na, da, nb, db, nc, dc);
        } else if a.score.same_sim(b.score) && b.score.gt(c.score) {
            lemma_frac_ge_gt_trans(na, da, nb, db, nc, dc);
        } else {
            lemma_frac_eq_trans(na, da, nb, db, nc, dc);
        }
    }
    assert forall|a: MatchPair, b: MatchPair| #[trigger] leq(a, b) || #[trigger] leq(b, a) by {
        if !a.score.gt(b.score) && !b.score.gt(a.score) {
            assert(a.score.same_sim(b.score));
            assert(b.score.same_sim(a.score));
            assert(key_le(a, b) || key_le(b, a));
        }
    }
}

/// Decides the report's order on two pairs.
pub fn pair_le_exec(a: &MatchPair, b: &MatchPair) -> (r: bool)
    requires
        a.score.wf(),
        b.score.wf(),
    ensures
        r == pair_le(*a, *b),
{
    if a.score.gt_exec(&b.score) {
        true
    } else if b.score.gt_exec(&a.score) {
        false
    } else {
        if a.row_i != b.row_i {
            a.row_i < b.row_i
        } else if a.row_j != b.row_j {
            a.row_j < b.row_j
        } else if a.score.dist != b.score.dist {
            a.score.dist < b.score.dist
        } else {
            a.score.len <= b.score.len
        }
    }
}

/// The pair at indices `(i, j)`.
pub open spec fn key_is(p: MatchPair, i: int, j: int) -> bool {
    p.row_i == i && p.row_j == j
}

/// Some pair of the sequence has indices `(i, j)`.
pub open spec fn contains_key(ps: Seq<MatchPair>, i: int, j: int) -> bool {
    exists|k: int| 0 <= k < ps.len() && key_is(#[trigger] ps[k], i, j)
}

/// No two pairs of the sequence share their indices.
pub open spec fn distinct_keys(ps: Seq<MatchPair>) -> bool {
    forall|k1: int, k2: int|
        #![trigger ps[k1], ps[k2]]
        0 <= k1 < k2 < ps.len() ==> !(ps[k1].row_i == ps[k2].row_i && ps[k1].row_j == ps[k2].row_j)
}

/// The pair belongs in the report of `mat` at threshold `t`: an upper
/// triangle entry, carrying that entry's score, which meets the threshold.
pub open spec fn in_report(p: MatchPair, mat: Seq<Seq<Score>>, t: Threshold) -> bool {
    &&& p.row_i < p.row_j < mat.len()
    &&& p.score == mat[p.row_i as int][p.row_j as int]
    &&& t.admits(p.score)
}

/// The report's whole contract: the sequence holds exactly the admitted
/// upper-triangle pairs, each once, sorted by descending similarity with
/// ties broken by ascending indices.
pub open spec fn report_ok(ps: Seq<MatchPair>, mat: Seq<Seq<Score>>, t: Threshold) -> bool {
    &&& forall|k: int| 0 <= k < ps.len() ==> in_report(#[trigger] ps[k], mat, t)
    &&& forall|i: int, j: int|
        0 <= i < j < mat.len() && t.admits(#[trigger] mat[i][j]) ==> contains_key(ps, i, j)
    &&& distinct_keys(ps)
    &&& sorted_by(ps, pair_order())
}

/// Walks the upper triangle in row-major order and keeps every pair whose
/// score meets the threshold.
fn collect_pairs(m: &SimilarityMatrix, t: &Threshold) -> (r: Vec<MatchPair>)
    requires
        m.square_wf(),
        t.wf(),
    ensures
        forall|k: int| 0 <= k < r@.len() ==> in_report(#[trigger] r@[k], m.matrix(), *t),
        forall|i: int, j: int|
            0 <= i < j < m.matrix().len() && t.admits(#[trigger] m.matrix()[i][j])
                ==> contains_key(r@, i, j),
        distinct_keys(r@),
{
    let ghost mat = m.matrix();
    let n = m.size();
    let mut r: Vec<MatchPair> = Vec::new();
    let mut i: usize = 0;
    while i < n
        invariant
            mat == m.matrix(),
            m.square_wf(),
            t.wf(),
            n == mat.len(),
            0 <= i <= n,
            forall|k: int|
                0 <= k < r@.len() ==> in_report(#[trigger] r@[k], mat, *t) && r@[k].row_i < i,
            forall|a: int, b: int|
                0 <= a < b < n && a < i && t.admits(#[trigger] mat[a][b]) ==> contains_key(
                    r@,
                    a,
                    b,
                ),
            distinct_keys(r@),
        decreases n - i,
    {
        let mut j: usize = i + 1;
        while j < n
            invariant
                mat == m.matrix(),
                m.square_wf(),
                t.wf(),
                n == mat.len(),
                0 <= i < n,
                i < j <= n,
                forall|k: int|
                    0 <= k < r@.len() ==> in_report(#[trigger] r@[k], mat, *t) && (r@[k].row_i < i
                        || (r@[k].row_i == i && r@[k].row_j < j)),
                forall|a: int, b: int|
                    0 <= a < b < n && (a < i || (a == i && b < j)) && t.admits(
                        #[trigger] mat[a][b],
                    ) ==> contains_key(r@, a, b),
                distinct_keys(r@),
            decreases n - j,
        {
            let s = m.score_at(i, j);
            if t.admits_exec(&s) {
                let p = MatchPair { row_i: i, row_j: j, score: s };
                let ghost old_r = r@;
                r.push(p);
                proof {
                    assert forall|a: int, b: int|
                        0 <= a < b < n && (a < i || (a == i && b < j + 1)) && t.admits(
                            #[trigger] mat[a][b],
                        ) implies contains_key(r@, a, b) by {
                        if a == i && b == j {
                            assert(key_is(r@[old_r.len() as int], a, b));
                        } else {
                            let k = choose|k: int|
                                0 <= k < old_r.len() && key_is(#[trigger] old_r[k], a, b);
                            assert(r@[k] == old_r[k]);
                            assert(key_is(r@[k], a, b));
                        }
                    }
                }
            }
            j += 1;
        }
        i += 1;
    }
    r
}

/// The multiset of a sequence with one element inserted is the sequence's
/// multiset with the element added.
proof fn lemma_insert_to_multiset(s: Seq<MatchPair>, k: int, p: MatchPair)
    requires
        0 <= k <= s.len(),
    ensures
        s.insert(k, p).to_multiset() =~= s.to_multiset().insert(p),
    decreases s.len(),
{
    broadcast use vstd::seq_lib::group_to_multiset_ensures;
    broadcast use vstd::multiset::group_multiset_axioms;

    let left = s.subrange(0, k);
    let right = s.subrange(k, s.len() as int);
    assert(s.insert(k, p) == left.push(p) + right);
    lemma_multiset_commutative(left.push(p), right);
    assert(left.push(p).to_multiset() =~= left.to_multiset().insert(p));
    assert(s =~= left + right);
    lemma_multiset_commutative(left, right);
}

/// Sorts the pairs by the report's order. Insertion sort: each pair is
/// inserted before the first element it does not come after.
pub fn sort_pairs(pairs: Vec<MatchPair>) -> (r: Vec<MatchPair>)
    requires
        forall|k: int| 0 <= k < pairs@.len() ==> (#[trigger] pairs@[k]).score.wf(),
    ensures
        sorted_by(r@, pair_order()),
        r@.to_multiset() == pairs@.to_multiset(),
{
    broadcast use vstd::seq_lib::group_to_multiset_ensures;

    proof {
        lemma_pair_order_total();
    }
    let ghost leq = pair_order();
    let n = pairs.len();
    let mut out: Vec<MatchPair> = Vec::new();
    proof {
        assert(pairs@.subrange(0, 0) =~= out@);
    }
    let mut idx: usize = 0;
    while idx < n
        invariant
            n == pairs@.len(),
            forall|k: int| 0 <= k < pairs@.len() ==> (#[trigger] pairs@[k]).score.wf(),
            leq == pair_order(),
            total_ordering(leq),
            0 <= idx <= n,
            sorted_by(out@, leq),
            out@.to_multiset() == pairs@.subrange(0, idx as int).to_multiset(),
            out@.len() == idx,
            forall|k: int| 0 <= k < out@.len() ==> (#[trigger] out@[k]).score.wf(),
        decreases n - idx,
    {
        let p = pairs[idx];
        let mut k: usize = 0;
        while k < out.len() && pair_le_exec(&out[k], &p)
            invariant
                leq == pair_order(),
                p.score.wf(),
                forall|q: int| 0 <= q < out@.len() ==> (#[trigger] out@[q]).score.wf(),
                0 <= k <= out@.len(),
                forall|q: int| 0 <= q < k ==> leq(#[trigger] out@[q], p),
            decreases out@.len() - k,
        {
            k += 1;
        }
        let ghost old_out = out@;
        proof {
            if k < out@.len() {
                assert(!leq(out@[k as int], p));
                assert(leq(p, out@[k as int]));
            }
            assert forall|q: int| k <= q < out@.len() implies leq(p, #[trigger] out@[q]) by {
                assert(leq(out@[k as int], out@[q]) || k == q);
            }
        }
        out.insert(k, p);
        proof {
            old_out.insert_ensures(k as int, p);
            assert forall|q1: int, q2: int| 0 <= q1 < q2 < out@.len() implies #[trigger] leq(
                out@[q1],
                out@[q2],
            ) by {
                if q1 < k && q2 < k {
                    assert(out@[q1] == old_out[q1] && out@[q2] == old_out[q2]);
                } else if q1 < k && q2 == k {
                    assert(out@[q1] == old_out[q1] && out@[q2] == p);
                } else if q1 < k && q2 > k {
                    assert(out@[q1] == old_out[q1] && out@[q2] == old_out[q2 - 1]);
                } else if q1 == k && q2 > k {
                    assert(out@[q1] == p && out@[q2] == old_out[q2 - 1]);
                } else {
                    assert(out@[q1] == old_out[q1 - 1] && out@[q2] == old_out[q2 - 1]);
                }
            }
            lemma_insert_to_multiset(old_out, k as int, p);
            assert(pairs@.subrange(0, idx + 1) =~= pairs@.subrange(0, idx as int).push(
                pairs@[idx as int],
            ));
            vstd::seq_lib::to_multiset_build(pairs@.subrange(0, idx as int), pairs@[idx as int]);
            assert(out@.to_multiset() =~= pairs@.subrange(0, idx + 1).to_multiset());
        }
        idx += 1;
    }
    proof {
        assert(pairs@.subrange(0, n as int) =~= pairs@);
    }
    out
}

/// Filters the upper triangle by the threshold and sorts the kept pairs by
/// descending similarity, ties by ascending indices: the sequence of pairs
/// the report will show, in order.
pub fn match_pairs(m: &SimilarityMatrix, t: &Threshold) -> (r: Vec<MatchPair>)
    requires
        m.square_wf(),
        t.wf(),
    ensures
        report_ok(r@, m.matrix(), *t),
{
    broadcast use vstd::seq_lib::group_to_multiset_ensures;

    let collected = collect_pairs(m, t);
    let ghost cs = collected@;
    let r = sort_pairs(collected);
    proof {
        assert forall|k: int| 0 <= k < r@.len() implies in_report(#[trigger] r@[k], m.matrix(), *t)
            by {
            assert(r@.to_multiset().contains(r@[k]));
            assert(cs.contains(r@[k]));
        }
        assert forall|i: int, j: int|
            0 <= i < j < m.matrix().len() && t.admits(#[trigger] m.matrix()[i][j])
            implies contains_key(r@, i, j) by {
            let k = choose|k: int| 0 <= k < cs.len() && key_is(#[trigger] cs[k], i, j);
            assert(cs.to_multiset().contains(cs[k]));
            assert(r@.contains(cs[k]));
            let k2 = choose|k2: int| 0 <= k2 < r@.len() && r@[k2] == cs[k];
            assert(key_is(r@[k2], i, j));
        }
        assert forall|k1: int, k2: int|
            #![trigger r@[k1], r@[k2]]
            0 <= k1 < k2 < r@.len() implies !(r@[k1].row_i == r@[k2].row_i && r@[k1].row_j
            == r@[k2].row_j) by {
            if r@[k1].row_i == r@[k2].row_i && r@[k1].row_j == r@[k2].row_j {
                assert(in_report(r@[k1], m.matrix(), *t));
                assert(in_report(r@[k2], m.matrix(), *t));
                assert(r@[k1] == r@[k2]);
                lemma_two_indices_make_duplicates(r@, k1, k2);
                assert(cs.to_multiset().count(r@[k1]) >= 2);
                lemma_report_no_duplicates(cs, m.matrix(), *t);
                cs.lemma_multiset_has_no_duplicates();
                assert(cs.to_multiset().contains(r@[k1]));
            }
        }
    }
    r
}

/// A value at two indices of a sequence counts at least twice in its
/// multiset.
proof fn lemma_two_indices_make_duplicates(s: Seq<MatchPair>, k1: int, k2: int)
    requires
        0 <= k1 < k2 < s.len(),
        s[k1] == s[k2],
    ensures
        s.to_multiset().count(s[k1]) >= 2,
{
    broadcast use vstd::seq_lib::group_to_multiset_ensures;
    broadcast use vstd::multiset::group_multiset_axioms;

    let left = s.subrange(0, k2);
    let right = s.subrange(k2, s.len() as int);
    assert(s =~= left + right);
    lemma_multiset_commutative(left, right);
    assert(left.contains(s[k1]));
    assert(right.contains(s[k2]));
    assert(left.to_multiset().count(s[k1]) >= 1);
    assert(right.to_multiset().count(s[k2]) >= 1);
}

/// Consecutive report entries never increase in similarity: the report is
/// sorted by descending score.
pub proof fn lemma_report_descending(ps: Seq<MatchPair>, mat: Seq<Seq<Score>>, t: Threshold)
    requires
        report_ok(ps, mat, t),
    ensures
        forall|k: int| 0 <= k < ps.len() - 1 ==> (#[trigger] ps[k]).score.ge(ps[k + 1].score),
{
    assert forall|k: int| 0 <= k < ps.len() - 1 implies (#[trigger] ps[k]).score.ge(
        ps[k + 1].score,
    ) by {
        assert(pair_order()(ps[k], ps[k + 1]));
        assert(pair_le(ps[k], ps[k + 1]));
    }
}

/// The report is deterministic: any two pair sequences that satisfy the
/// report's contract for the same matrix and threshold are equal, so two
/// runs on the same input produce the same report.
pub proof fn lemma_report_deterministic(
    p1: Seq<MatchPair>,
    p2: Seq<MatchPair>,
    mat: Seq<Seq<Score>>,
    t: Threshold,
)
    requires
        report_ok(p1, mat, t),
        report_ok(p2, mat, t),
    ensures
        p1 =~= p2,
{
    broadcast use vstd::seq_lib::group_to_multiset_ensures;
    broadcast use vstd::multiset::group_multiset_axioms;

    lemma_pair_order_total();
    lemma_report_members(p1, p2, mat, t);
    lemma_report_members(p2, p1, mat, t);
    lemma_report_no_duplicates(p1, mat, t);
    lemma_report_no_duplicates(p2, mat, t);
    p1.lemma_multiset_has_no_duplicates();
    p2.lemma_multiset_has_no_duplicates();
    assert forall|x: MatchPair| p1.to_multiset().count(x) == #[trigger] p2.to_multiset().count(x)
        by {
        if p1.contains(x) {
            assert(p2.contains(x));
        } else {
            assert(!p2.contains(x));
            assert(p1.to_multiset().count(x) == 0);
            assert(p2.to_multiset().count(x) == 0);
        }
    }
    assert(p1.to_multiset() =~= p2.to_multiset());
    lemma_sorted_unique(p1, p2, pair_order());
}

/// Every member of one report sequence is a member of the other: both hold
/// exactly the admitted pairs, and the matrix entry pins the element.
proof fn lemma_report_members(
    p1: Seq<MatchPair>,
    p2: Seq<MatchPair>,
    mat: Seq<Seq<Score>>,
    t: Threshold,
)
    requires
        report_ok(p1, mat, t),
        report_ok(p2, mat, t),
    ensures
        forall|x: MatchPair| p1.contains(x) ==> p2.contains(x),
{
    assert forall|x: MatchPair| p1.contains(x) implies p2.contains(x) by {
        let k = choose|k: int| 0 <= k < p1.len() && p1[k] == x;
        assert(in_report(x, mat, t));
        assert(contains_key(p2, x.row_i as int, x.row_j as int));
        let k2 = choose|k2: int|
            0 <= k2 < p2.len() && key_is(#[trigger] p2[k2], x.row_i as int, x.row_j as int);
        assert(in_report(p2[k2], mat, t));
        assert(p2[k2] == x);
    }
}

/// Distinct keys make distinct elements: a sequence of pairs that all
/// carry their matrix entry has no duplicates.
proof fn lemma_report_no_duplicates(ps: Seq<MatchPair>, mat: Seq<Seq<Score>>, t: Threshold)
    requires
        forall|k: int| 0 <= k < ps.len() ==> in_report(#[trigger] ps[k], mat, t),
        distinct_keys(ps),
    ensures
        ps.no_duplicates(),
{
    assert forall|k1: int, k2: int|
        0 <= k1 < ps.len() && 0 <= k2 < ps.len() && k1 != k2 implies ps[k1] != ps[k2] by {
        if k1 < k2 {
            assert(!(ps[k1].row_i == ps[k2].row_i && ps[k1].row_j == ps[k2].row_j));
        } else {
            assert(!(ps[k2].row_i == ps[k1].row_i && ps[k2].row_j == ps[k1].row_j));
        }
    }
}

} // verus!
