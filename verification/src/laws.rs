//! The library's guarantees, stated and proved over the specification.

use vstd::prelude::*;

use crate::chars::fold_eq;
use crate::comparer::bonus_at;
use crate::comparer::d_cell;
use crate::comparer::gap_at;
use crate::comparer::m_cell;
use crate::config::CANDIDATE_MAX_BYTES;
use crate::config::CANDIDATE_MAX_CHARS;
use crate::locate::LocateResult;
use crate::locate::lemma_cells_not_max;
use crate::locate::lemma_trace;
use crate::locate::mask_of;
use crate::locate::trace_cols;
use crate::mask::bits_of;
use crate::score::ScoreResult;
use crate::score::SpecScore;
use crate::score::byte_len;
use crate::score::is_match;
use crate::score::is_match_from;
use crate::score::lemma_match_len;
use crate::score::score_of;
use crate::score::ss_add;
use crate::score::ss_max;
use crate::search::lemma_score_eq;
use crate::search::locate_results_ok;
use crate::search::locate_results_sorted;
use crate::search::locate_to_score;
use crate::search::result_le;
use crate::search::results_sorted;
use crate::search::score_results_ok;

verus! {

/// An empty query matches every candidate and scores `Min` against it.
pub proof fn lemma_empty_query(c: Seq<char>)
    ensures
        is_match(Seq::empty(), c),
        score_of(Seq::empty(), c) == SpecScore::Min,
{
}

/// A pair that is not a match scores `Min`.
pub proof fn lemma_no_match_min(q: Seq<char>, c: Seq<char>)
    requires
        !is_match(q, c),
    ensures
        score_of(q, c) == SpecScore::Min,
{
}

/// Matching is reflexive: every string matches itself, position by
/// position.
proof fn lemma_match_from_refl(q: Seq<char>, i: int)
    requires
        0 <= i <= q.len(),
    ensures
        is_match_from(q, q, i, i),
    decreases q.len() - i,
{
    if i < q.len() {
        lemma_match_from_refl(q, i + 1);
    }
}

/// A non-empty string inside the byte cap scores `Max` against itself,
/// and its match mask has every bit set.
pub proof fn lemma_exact_match(s: Seq<char>)
    requires
        s.len() > 0,
        byte_len(s) <= CANDIDATE_MAX_BYTES,
    ensures
        score_of(s, s) == SpecScore::Max,
        mask_of(s, s) == Seq::new(s.len(), |j: int| true),
{
    lemma_match_from_refl(s, 0);
}

/// A match with equal character counts pairs the strings position by
/// position.
proof fn lemma_eq_len_fold(q: Seq<char>, c: Seq<char>, qi: int)
    requires
        q.len() == c.len(),
        0 <= qi <= q.len(),
        is_match_from(q, c, qi, qi),
    ensures
        forall|k: int| qi <= k < q.len() ==> fold_eq(#[trigger] q[k], c[k]),
    decreases q.len() - qi,
{
    if qi < q.len() {
        if !fold_eq(q[qi], c[qi]) {
            lemma_match_len(q, c, qi, qi + 1);
            assert(false);
        }
        lemma_eq_len_fold(q, c, qi + 1);
    }
}

/// A matching pair with equal character counts is equal under case
/// folding: the exact-match short-circuit to `Max` answers only true
/// equality.
pub proof fn lemma_equal_length_match_is_fold_equality(q: Seq<char>, c: Seq<char>)
    requires
        is_match(q, c),
        q.len() == c.len(),
    ensures
        forall|k: int| 0 <= k < q.len() ==> fold_eq(#[trigger] q[k], c[k]),
{
    lemma_eq_len_fold(q, c, 0);
}

/// The greedy embedding of the query into the candidate: the column
/// chosen for each remaining query character, scanning from `ci`.
spec fn greedy_from(q: Seq<char>, c: Seq<char>, qi: int, ci: int) -> Seq<int>
    decreases c.len() - ci,
{
    if qi >= q.len() {
        Seq::empty()
    } else if ci >= c.len() {
        Seq::empty()
    } else if fold_eq(q[qi], c[ci]) {
        Seq::empty().push(ci) + greedy_from(q, c, qi + 1, ci + 1)
    } else {
        greedy_from(q, c, qi, ci + 1)
    }
}

/// For a matching pair the greedy embedding picks one strictly increasing
/// candidate column per query character, each a case-folded match.
proof fn lemma_greedy(q: Seq<char>, c: Seq<char>, qi: int, ci: int)
    requires
        0 <= qi <= q.len(),
        0 <= ci <= c.len(),
        is_match_from(q, c, qi, ci),
    ensures
        greedy_from(q, c, qi, ci).len() == q.len() - qi,
        forall|k: int|
            0 <= k < q.len() - qi ==> ci <= #[trigger] greedy_from(q, c, qi, ci)[k] < c.len()
                && fold_eq(q[qi + k], c[greedy_from(q, c, qi, ci)[k]]),
        forall|k: int|
            0 <= k < q.len() - qi - 1 ==> #[trigger] greedy_from(q, c, qi, ci)[k] < greedy_from(
                q,
                c,
                qi,
                ci,
            )[k + 1],
    decreases c.len() - ci,
{
    if qi < q.len() && ci < c.len() {
        if fold_eq(q[qi], c[ci]) {
            lemma_greedy(q, c, qi + 1, ci + 1);
            let rest = greedy_from(q, c, qi + 1, ci + 1);
            let g = greedy_from(q, c, qi, ci);
            assert(g == Seq::empty().push(ci) + rest);
            assert(g[0] == ci);
            assert(forall|k: int| 0 <= k < rest.len() ==> g[k + 1] == #[trigger] rest[k]);
        } else {
            lemma_greedy(q, c, qi, ci + 1);
        }
    }
}

/// A finite best overall score stays finite further right in its row.
proof fn lemma_d_right_mono(q: Seq<char>, c: Seq<char>, i: int, j1: int, j2: int)
    requires
        0 <= j1 <= j2,
        d_cell(q, c, i, j1) != SpecScore::Min,
    ensures
        d_cell(q, c, i, j2) != SpecScore::Min,
    decreases j2 - j1,
{
    if j1 < j2 {
        lemma_d_right_mono(q, c, i, j1, j2 - 1);
        let e = ss_add(d_cell(q, c, i, j2 - 1), gap_at(q, i));
        assert(e != SpecScore::Min);
        let m = m_cell(q, c, i, j2);
        assert(d_cell(q, c, i, j2) == ss_max(m, e));
        assert(ss_max(m, e) == m || ss_max(m, e) == e);
        if ss_max(m, e) == m && m == SpecScore::Min {
            assert(crate::score::ss_le(e, m));
        }
    }
}

/// Along the greedy embedding every row reaches a finite best overall
/// score.
proof fn lemma_path_finite(q: Seq<char>, c: Seq<char>, g: Seq<int>, k: int)
    requires
        g.len() == q.len(),
        forall|k0: int| 0 <= k0 < g.len() ==> 0 <= #[trigger] g[k0] < c.len() && fold_eq(
            q[k0],
            c[g[k0]],
        ),
        forall|k0: int| 0 <= k0 < g.len() - 1 ==> #[trigger] g[k0] < g[k0 + 1],
        0 <= k < g.len(),
    ensures
        d_cell(q, c, k, g[k]) != SpecScore::Min,
    decreases k,
{
    if k == 0 {
        assert(m_cell(q, c, 0, g[0]) is Finite);
        lemma_d_at_least_m(q, c, 0, g[0]);
    } else {
        lemma_path_finite(q, c, g, k - 1);
        assert(g[k - 1] < g[k]);
        lemma_d_right_mono(q, c, k - 1, g[k - 1], g[k] - 1);
        let a = ss_add(d_cell(q, c, k - 1, g[k] - 1), bonus_at(c, g[k]));
        let b = ss_add(m_cell(q, c, k - 1, g[k] - 1), crate::config::SCORE_MATCH_CONSECUTIVE as int);
        assert(a != SpecScore::Min);
        let m = m_cell(q, c, k, g[k]);
        assert(m == ss_max(a, b));
        assert(ss_max(a, b) == a || ss_max(a, b) == b);
        if ss_max(a, b) == b && b == SpecScore::Min {
            assert(crate::score::ss_le(a, b));
        }
        lemma_d_at_least_m(q, c, k, g[k]);
    }
}

/// The best overall score of a cell is never below its best score ending
/// in a match, so a finite match score keeps the cell finite.
proof fn lemma_d_at_least_m(q: Seq<char>, c: Seq<char>, i: int, j: int)
    requires
        m_cell(q, c, i, j) != SpecScore::Min,
    ensures
        d_cell(q, c, i, j) != SpecScore::Min,
{
    crate::locate::lemma_d_ge_m(q, c, i, j);
}

/// A matching, non-equal pair inside both size caps scores strictly
/// between `Min` and `Max`.
pub proof fn lemma_subsequence_finite(q: Seq<char>, c: Seq<char>)
    requires
        is_match(q, c),
        q.len() >= 1,
        q.len() != c.len(),
        c.len() <= CANDIDATE_MAX_CHARS,
        byte_len(c) <= CANDIDATE_MAX_BYTES,
    ensures
        score_of(q, c) is Finite,
{
    lemma_match_len(q, c, 0, 0);
    lemma_greedy(q, c, 0, 0);
    let g = greedy_from(q, c, 0, 0);
    lemma_path_finite(q, c, g, q.len() - 1);
    lemma_d_right_mono(q, c, q.len() - 1, g[q.len() - 1], c.len() - 1);
    lemma_cells_not_max(q, c, q.len() - 1, c.len() - 1);
}

/// Columns of a strictly increasing sequence grow with their position.
proof fn lemma_chain_le(t: Seq<int>, k: int, l: int)
    requires
        forall|k0: int| 0 <= k0 < t.len() - 1 ==> #[trigger] t[k0] < t[k0 + 1],
        0 <= k <= l < t.len(),
    ensures
        t[k] <= t[l],
    decreases l - k,
{
    if k < l {
        lemma_chain_le(t, k + 1, l);
    }
}

/// The match mask of a finitely scored pair: one bit per query character,
/// at strictly increasing candidate positions, each matching its query
/// character under case folding; no other bit is set.
pub proof fn lemma_locate_mask(q: Seq<char>, c: Seq<char>)
    requires
        score_of(q, c) is Finite,
    ensures
        trace_cols(q, c).len() == q.len(),
        forall|k: int|
            0 <= k < q.len() ==> 0 <= #[trigger] trace_cols(q, c)[k] < c.len() && fold_eq(
                q[k],
                c[trace_cols(q, c)[k]],
            ),
        forall|k: int|
            0 <= k < q.len() - 1 ==> #[trigger] trace_cols(q, c)[k] < trace_cols(q, c)[k + 1],
        forall|j: int| 0 <= j < c.len() ==> mask_of(q, c)[j] == trace_cols(q, c).contains(j),
{
    lemma_trace(q, c, q.len() - 1, c.len() - 1);
    let t = trace_cols(q, c);
    assert forall|k: int| 0 <= k < q.len() implies 0 <= #[trigger] t[k] < c.len() && fold_eq(
        q[k],
        c[t[k]],
    ) by {
        lemma_chain_le(t, k, q.len() - 1);
    }
}

/// A search answers each query over each candidate list in exactly one
/// way: any two result lists that are sorted and answer the list
/// correctly are equal. In particular the sharded search agrees with the
/// serial one, and repeating a search returns the same results.
pub proof fn lemma_search_deterministic(
    q: Seq<char>,
    cs: Seq<String>,
    r1: Seq<ScoreResult>,
    r2: Seq<ScoreResult>,
)
    requires
        score_results_ok(r1, q, cs, 0, cs.len() as int),
        results_sorted(r1),
        score_results_ok(r2, q, cs, 0, cs.len() as int),
        results_sorted(r2),
    ensures
        r1 == r2,
{
    assert forall|k: int| 0 <= k < r1.len() implies exists|l: int|
        0 <= l < r2.len() && (#[trigger] r2[l]).candidate_index == (
        #[trigger] r1[k]).candidate_index by {
        let i = r1[k].candidate_index as int;
        assert(is_match(q, cs[i]@));
    }
    assert forall|k: int| 0 <= k < r2.len() implies exists|l: int|
        0 <= l < r1.len() && (#[trigger] r1[l]).candidate_index == (
        #[trigger] r2[k]).candidate_index by {
        let i = r2[k].candidate_index as int;
        assert(is_match(q, cs[i]@));
    }
    assert forall|k: int, l: int|
        0 <= k < r1.len() && 0 <= l < r2.len() && (#[trigger] r1[k]).candidate_index == (
        #[trigger] r2[l]).candidate_index implies r1[k].score == r2[l].score by {
        lemma_score_eq(r1[k].score, r2[l].score);
    }
    lemma_sorted_unique(r1, r2);
    assert(r1 =~= r2);
}

/// A locating search is as deterministic as a scoring one: any two sorted
/// correct answers name the same candidates in the same order, with the
/// same scores and the same mask bits.
pub proof fn lemma_locate_deterministic(
    q: Seq<char>,
    cs: Seq<String>,
    r1: Seq<LocateResult>,
    r2: Seq<LocateResult>,
)
    requires
        locate_results_ok(r1, q, cs, 0, cs.len() as int),
        locate_results_sorted(r1),
        locate_results_ok(r2, q, cs, 0, cs.len() as int),
        locate_results_sorted(r2),
    ensures
        r1.len() == r2.len(),
        forall|k: int|
            0 <= k < r1.len() ==> (#[trigger] r1[k]).candidate_index == r2[k].candidate_index
                && r1[k].score == r2[k].score && bits_of(r1[k].match_mask) == bits_of(
                r2[k].match_mask,
            ),
{
    let m1 = r1.map_values(|x: LocateResult| locate_to_score(x));
    let m2 = r2.map_values(|x: LocateResult| locate_to_score(x));
    lemma_search_deterministic(q, cs, m1, m2);
    assert forall|k: int| 0 <= k < r1.len() implies (#[trigger] r1[k]).candidate_index
        == r2[k].candidate_index && r1[k].score == r2[k].score && bits_of(r1[k].match_mask)
        == bits_of(r2[k].match_mask) by {
        assert(m1[k] == locate_to_score(r1[k]));
        assert(m2[k] == locate_to_score(r2[k]));
    }
}

/// Sorted result lists over the same candidates, with the same scores and
/// each candidate at most once, are pointwise equal.
proof fn lemma_sorted_unique(r1: Seq<ScoreResult>, r2: Seq<ScoreResult>)
    requires
        results_sorted(r1),
        results_sorted(r2),
        forall|k1: int, k2: int|
            0 <= k1 < k2 < r1.len() ==> r1[k1].candidate_index != r1[k2].candidate_index,
        forall|k1: int, k2: int|
            0 <= k1 < k2 < r2.len() ==> r2[k1].candidate_index != r2[k2].candidate_index,
        forall|k: int|
            0 <= k < r1.len() ==> exists|l: int|
                0 <= l < r2.len() && (#[trigger] r2[l]).candidate_index == (
                #[trigger] r1[k]).candidate_index,
        forall|k: int|
            0 <= k < r2.len() ==> exists|l: int|
                0 <= l < r1.len() && (#[trigger] r1[l]).candidate_index == (
                #[trigger] r2[k]).candidate_index,
        forall|k: int, l: int|
            0 <= k < r1.len() && 0 <= l < r2.len() && (#[trigger] r1[k]).candidate_index == (
            #[trigger] r2[l]).candidate_index ==> r1[k].score == r2[l].score,
    ensures
        r1 =~= r2,
    decreases r1.len(),
{
    if r1.len() == 0 {
        assert(r2.len() == 0) by {
            if r2.len() > 0 {
                assert(exists|l: int|
                    0 <= l < r1.len() && (#[trigger] r1[l]).candidate_index
                        == r2[0].candidate_index);
            }
        }
    } else {
        assert(r2.len() > 0) by {
            if r2.len() == 0 {
                assert(exists|l: int|
                    0 <= l < r2.len() && (#[trigger] r2[l]).candidate_index
                        == r1[0].candidate_index);
            }
        }
        let a = r1[0];
        let b = r2[0];
        assert(a == b) by {
            if a.candidate_index == b.candidate_index {
                assert(a.score == b.score);
            } else {
                let l = choose|l: int|
                    0 <= l < r2.len() && (#[trigger] r2[l]).candidate_index == a.candidate_index;
                assert(l > 0);
                assert(result_le(b, r2[l]));
                assert(r2[l].score == a.score);
                assert(result_le(b, a));
                let k = choose|k: int|
                    0 <= k < r1.len() && (#[trigger] r1[k]).candidate_index == b.candidate_index;
                assert(k > 0);
                assert(result_le(a, r1[k]));
                assert(r1[k].score == b.score);
                assert(result_le(a, b));
                assert(false);
            }
        }
        let t1 = r1.drop_first();
        let t2 = r2.drop_first();
        assert forall|k: int| 0 <= k < t1.len() implies exists|l: int|
            0 <= l < t2.len() && (#[trigger] t2[l]).candidate_index == (
            #[trigger] t1[k]).candidate_index by {
            assert(t1[k] == r1[k + 1]);
            let l = choose|l: int|
                0 <= l < r2.len() && (#[trigger] r2[l]).candidate_index
                    == r1[k + 1].candidate_index;
            assert(l > 0);
            assert(t2[l - 1].candidate_index == t1[k].candidate_index);
        }
        assert forall|k: int| 0 <= k < t2.len() implies exists|l: int|
            0 <= l < t1.len() && (#[trigger] t1[l]).candidate_index == (
            #[trigger] t2[k]).candidate_index by {
            assert(t2[k] == r2[k + 1]);
            let l = choose|l: int|
                0 <= l < r1.len() && (#[trigger] r1[l]).candidate_index
                    == r2[k + 1].candidate_index;
            assert(l > 0);
            assert(t1[l - 1].candidate_index == t2[k].candidate_index);
        }
        lemma_sorted_unique(t1, t2);
        assert forall|k: int| 0 <= k < r1.len() implies r1[k] == r2[k] by {
            if k > 0 {
                assert(r1[k] == t1[k - 1]);
                assert(r2[k] == t2[k - 1]);
            }
        }
    }
}

} // verus!
