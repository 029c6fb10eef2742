//! Locating matches: which candidate positions the optimal alignment used.
//!
//! After the score tables are filled, the chosen positions are recovered
//! backwards: for each query row, from right to left, the first column
//! whose best-ending-in-a-match score is finite and equal to the best
//! overall score is a column where the optimal path matched; the walk then
//! moves one row up and continues to the left of that column.

use vstd::prelude::*;

use bit_vec::BitVec;

use crate::chars::chars_of;
use crate::chars::fold_eq;
use crate::comparer::bonus_at;
use crate::comparer::d_cell;
use crate::comparer::gap_at;
use crate::comparer::m_cell;
use crate::comparer::score_internal;
use crate::config::SCORE_MATCH_CONSECUTIVE;
use crate::mask::bits_of;
use crate::mask::mask_from_elem;
use crate::mask::mask_set;
use crate::score::LengthsOrScore;
use crate::score::Score;
use crate::score::SpecScore;
use crate::score::get_lengths;
use crate::score::has_match;
use crate::score::is_match;
use crate::score::lemma_match_len;
use crate::score::score_of;
use crate::score::ss_add;
use crate::score::ss_le;
use crate::score::ss_max;

verus! {

/// Result of querying the score and location against a candidate
#[derive(Debug)]
pub struct LocateResult {
    pub candidate_index: usize,
    pub score: Score,
    /// Binary mask showing where the characters of the query match the
    /// candidate
    pub match_mask: BitVec,
}

impl LocateResult {
    pub fn new(candidate_index: usize, candidate_size: usize) -> (r: Self)
        ensures
            r.candidate_index == candidate_index,
            r.score@ is Min,
            bits_of(r.match_mask) == Seq::new(candidate_size as nat, |i: int| false),
    {
        Self::with_score(candidate_index, candidate_size, Score::Min)
    }

    pub fn with_score(candidate_index: usize, candidate_size: usize, score: Score) -> (r: Self)
        ensures
            r.candidate_index == candidate_index,
            r.score == score,
            bits_of(r.match_mask) == Seq::new(candidate_size as nat, |i: int| false),
    {
        Self { candidate_index, score, match_mask: mask_from_elem(candidate_size, false) }
    }
}

/// A column where the optimal path can end row `i` with a match: the
/// best-ending-in-a-match score is finite and already the best overall.
pub open spec fn is_stop(q: Seq<char>, c: Seq<char>, i: int, j: int) -> bool {
    m_cell(q, c, i, j) != SpecScore::Min && m_cell(q, c, i, j) == d_cell(q, c, i, j)
}

/// The rightmost stop column of row `i` at or left of column `j`, or -1.
pub open spec fn last_stop(q: Seq<char>, c: Seq<char>, i: int, j: int) -> int
    decreases j + 1,
{
    if j < 0 {
        -1
    } else if is_stop(q, c, i, j) {
        j
    } else {
        last_stop(q, c, i, j - 1)
    }
}

/// The matched columns of rows `0..=i`, walking backwards from column `j`.
pub open spec fn trace_from(q: Seq<char>, c: Seq<char>, i: int, j: int) -> Seq<int>
    decreases i + 1,
{
    if i < 0 {
        Seq::empty()
    } else {
        let s = last_stop(q, c, i, j);
        trace_from(q, c, i - 1, s - 1).push(s)
    }
}

/// The matched column of every query row, for a pair scored by the tables.
pub open spec fn trace_cols(q: Seq<char>, c: Seq<char>) -> Seq<int> {
    trace_from(q, c, q.len() - 1, c.len() - 1)
}

/// The match mask of a pair: all bits set on an exact match, no bits set
/// when there is nothing to locate, and the traced columns otherwise.
pub open spec fn mask_of(q: Seq<char>, c: Seq<char>) -> Seq<bool> {
    if score_of(q, c) is Max {
        Seq::new(c.len(), |j: int| true)
    } else if score_of(q, c) is Min {
        Seq::new(c.len(), |j: int| false)
    } else {
        Seq::new(c.len(), |j: int| trace_cols(q, c).contains(j))
    }
}

/// No table cell is ever `Max`: exact matches never reach the tables.
pub proof fn lemma_cells_not_max(q: Seq<char>, c: Seq<char>, i: int, j: int)
    ensures
        !(m_cell(q, c, i, j) is Max),
        !(d_cell(q, c, i, j) is Max),
    decreases i, j, 0int,
{
    if fold_eq(q[i], c[j]) && i > 0 && j > 0 {
        lemma_cells_not_max(q, c, i - 1, j - 1);
        let a = ss_add(d_cell(q, c, i - 1, j - 1), bonus_at(c, j));
        let b = ss_add(m_cell(q, c, i - 1, j - 1), SCORE_MATCH_CONSECUTIVE as int);
        assert(ss_max(a, b) == a || ss_max(a, b) == b);
    }
    if j > 0 {
        lemma_d_prefix_not_max(q, c, i, j - 1);
        let e = ss_add(d_cell(q, c, i, j - 1), gap_at(q, i));
        assert(ss_max(m_cell(q, c, i, j), e) == m_cell(q, c, i, j) || ss_max(
            m_cell(q, c, i, j),
            e,
        ) == e);
    }
}

/// Helper for [`lemma_cells_not_max`], walking one column left.
proof fn lemma_d_prefix_not_max(q: Seq<char>, c: Seq<char>, i: int, j: int)
    ensures
        !(d_cell(q, c, i, j) is Max),
    decreases i, j, 1int,
{
    lemma_cells_not_max(q, c, i, j);
}

/// The best overall score of a cell is at least its best score ending in
/// a match.
pub proof fn lemma_d_ge_m(q: Seq<char>, c: Seq<char>, i: int, j: int)
    ensures
        ss_le(m_cell(q, c, i, j), d_cell(q, c, i, j)),
{
    let m = m_cell(q, c, i, j);
    assert(ss_le(m, m));
    if j > 0 {
        let e = ss_add(d_cell(q, c, i, j - 1), gap_at(q, i));
        if ss_le(m, e) {
            assert(d_cell(q, c, i, j) == e);
        } else {
            assert(d_cell(q, c, i, j) == m);
        }
    }
}

/// A finite best-ending-in-a-match score means the characters match at
/// this cell, and above row zero the cell one up and one left has a
/// finite best overall score.
pub proof fn lemma_m_structure(q: Seq<char>, c: Seq<char>, i: int, j: int)
    requires
        m_cell(q, c, i, j) != SpecScore::Min,
    ensures
        fold_eq(q[i], c[j]),
        i > 0 ==> j > 0 && d_cell(q, c, i - 1, j - 1) is Finite,
{
    if i > 0 {
        let a = ss_add(d_cell(q, c, i - 1, j - 1), bonus_at(c, j));
        let b = ss_add(m_cell(q, c, i - 1, j - 1), SCORE_MATCH_CONSECUTIVE as int);
        assert(ss_max(a, b) == a || ss_max(a, b) == b);
        lemma_d_ge_m(q, c, i - 1, j - 1);
        lemma_cells_not_max(q, c, i - 1, j - 1);
    }
}

/// Every row with a finite best overall score has a stop column at or
/// left of where that score was reached.
pub proof fn lemma_stop_exists(q: Seq<char>, c: Seq<char>, i: int, j: int)
    requires
        0 <= j,
        d_cell(q, c, i, j) is Finite,
    ensures
        0 <= last_stop(q, c, i, j) <= j,
        is_stop(q, c, i, last_stop(q, c, i, j)),
    decreases j,
{
    let m = m_cell(q, c, i, j);
    let d = d_cell(q, c, i, j);
    if is_stop(q, c, i, j) {
    } else {
        if j == 0 {
            assert(d == m);
            assert(false);
        } else {
            let e = ss_add(d_cell(q, c, i, j - 1), gap_at(q, i));
            assert(d == ss_max(m, e));
            assert(ss_max(m, e) == m || ss_max(m, e) == e);
            assert(d == e);
            assert(d_cell(q, c, i, j - 1) is Finite);
            lemma_stop_exists(q, c, i, j - 1);
        }
    }
}

/// The traced columns of a finitely scored pair: one strictly increasing
/// column per query row, each a stop whose characters match under folding.
pub proof fn lemma_trace(q: Seq<char>, c: Seq<char>, i: int, j: int)
    requires
        0 <= i,
        0 <= j,
        d_cell(q, c, i, j) is Finite,
    ensures
        trace_from(q, c, i, j).len() == i + 1,
        trace_from(q, c, i, j)[i] == last_stop(q, c, i, j) <= j,
        forall|k: int|
            0 <= k <= i ==> 0 <= #[trigger] trace_from(q, c, i, j)[k] && is_stop(
                q,
                c,
                k,
                trace_from(q, c, i, j)[k],
            ) && fold_eq(q[k], c[trace_from(q, c, i, j)[k]]),
        forall|k: int| 0 <= k < i ==> #[trigger] trace_from(q, c, i, j)[k] < trace_from(
            q,
            c,
            i,
            j,
        )[k + 1],
    decreases i,
{
    lemma_stop_exists(q, c, i, j);
    let s = last_stop(q, c, i, j);
    assert(m_cell(q, c, i, s) != SpecScore::Min);
    lemma_m_structure(q, c, i, s);
    let t = trace_from(q, c, i, j);
    if i == 0 {
        assert(t == trace_from(q, c, -1, s - 1).push(s));
        assert(t.len() == 1);
    } else {
        assert(d_cell(q, c, i - 1, s - 1) is Finite);
        assert(s - 1 >= 0);
        lemma_trace(q, c, i - 1, s - 1);
        let prev = trace_from(q, c, i - 1, s - 1);
        assert(t == prev.push(s));
        assert(prev[i - 1] <= s - 1);
        assert(forall|k: int| 0 <= k < i ==> t[k] == prev[k]);
    }
}

pub(crate) fn locate_inner(query: &str, candidate: &str, index: usize) -> (r: LocateResult)
    ensures
        r.candidate_index == index,
        r.score@ == score_of(query@, candidate@),
        bits_of(r.match_mask) == mask_of(query@, candidate@),
{
    let candidate_chars = chars_of(candidate).len();
    if !has_match(query, candidate) {
        let out = LocateResult::with_score(index, candidate_chars, Score::Min);
        proof {
            assert(bits_of(out.match_mask) =~= mask_of(query@, candidate@));
        }
        return out;
    }
    match get_lengths(query, candidate) {
        LengthsOrScore::Score(s) => {
            let all = match s {
                Score::Max => true,
                _ => false,
            };
            let out = LocateResult {
                candidate_index: index,
                score: s,
                match_mask: mask_from_elem(candidate_chars, all),
            };
            proof {
                assert(bits_of(out.match_mask) =~= mask_of(query@, candidate@));
            }
            out
        },
        LengthsOrScore::Lengths(q_len, c_len) => {
            proof {
                lemma_match_len(query@, candidate@, 0, 0);
            }
            locate_traced(query, candidate, index, q_len, c_len)
        },
    }
}

/// Whether the backward walk can end a row at this cell: its
/// best-ending-in-a-match entry is finite and equals its best overall
/// entry.
fn stop_test(
    d: &Vec<Vec<Score>>,
    m: &Vec<Vec<Score>>,
    i: usize,
    j: usize,
    Ghost(qs): Ghost<Seq<char>>,
    Ghost(cs): Ghost<Seq<char>>,
) -> (r: bool)
    requires
        i < m@.len(),
        i < d@.len(),
        j < m@[i as int]@.len(),
        j < d@[i as int]@.len(),
        m@[i as int]@[j as int]@ == m_cell(qs, cs, i as int, j as int),
        d@[i as int]@[j as int]@ == d_cell(qs, cs, i as int, j as int),
    ensures
        r == is_stop(qs, cs, i as int, j as int),
{
    let cell_m = m[i][j];
    let cell_d = d[i][j];
    match cell_m {
        Score::Min => false,
        _ => cell_m == cell_d,
    }
}

/// Score a pair inside the size caps and reconstruct its match mask by
/// walking the tables backwards.
#[verifier::loop_isolation(false)]
#[verifier::rlimit(100)]
fn locate_traced(query: &str, candidate: &str, index: usize, q_len: usize, c_len: usize) -> (r:
    LocateResult)
    requires
        is_match(query@, candidate@),
        byte_len_ok(query@, candidate@),
        q_len == query@.len(),
        c_len == candidate@.len(),
        1 <= query@.len() < candidate@.len() <= 1024,
    ensures
        r.candidate_index == index,
        r.score@ == score_of(query@, candidate@),
        bits_of(r.match_mask) == mask_of(query@, candidate@),
{
    let ghost qs = query@;
    let ghost cs = candidate@;
    let q = chars_of(query);
    let c = chars_of(candidate);
    proof {
        lemma_match_len(qs, cs, 0, 0);
    }
    let (d, m) = score_internal(&q, &c);
    let best = d[q_len - 1][c_len - 1];
    proof {
        lemma_cells_not_max(qs, cs, q_len - 1, c_len - 1);
        assert(best@ == score_of(qs, cs));
    }
    let mut mask = mask_from_elem(c_len, false);
    let is_finite = match best {
        Score::Finite(_) => true,
        _ => false,
    };
    if !is_finite {
        proof {
            assert(best@ is Min);
            assert(bits_of(mask) =~= mask_of(qs, cs));
        }
        return LocateResult { candidate_index: index, score: best, match_mask: mask };
    }
    let ghost t = trace_cols(qs, cs);
    proof {
        lemma_trace(qs, cs, q_len - 1, c_len - 1);
        assert(t == trace_from(qs, cs, q_len - 1, c_len - 1));
    }
    let mut i: usize = q_len;
    let mut bound: usize = c_len;
    while i > 0
        invariant
            i <= q_len,
            bound <= c_len,
            i == q_len ==> bound == c_len,
            i < q_len ==> bound == t[i as int],
            i > 0 ==> bound >= 1,
            trace_from(qs, cs, i - 1, bound - 1) == t.take(i as int),
            i > 0 ==> d_cell(qs, cs, i - 1, bound - 1) is Finite,
            bits_of(mask).len() == c_len,
            forall|p: int|
                0 <= p < c_len ==> bits_of(mask)[p] == exists|k: int|
                    i <= k < q_len && t[k] == p,
        decreases i,
    {
        let ghost s = last_stop(qs, cs, i - 1, bound - 1);
        proof {
            lemma_stop_exists(qs, cs, i - 1, bound - 1);
            assert(trace_from(qs, cs, i - 1, bound - 1) == trace_from(qs, cs, i - 2, s - 1).push(
                s,
            ));
            assert(t.take(i as int)[i - 1] == s);
            assert(t[i - 1] == s);
        }
        let mut j: usize = bound;
        while !stop_test(&d, &m, i - 1, j - 1, Ghost(qs), Ghost(cs))
            invariant
                1 <= j <= bound,
                s < j,
                last_stop(qs, cs, i - 1, j - 1) == s,
            decreases j,
        {
            proof {
                assert(last_stop(qs, cs, i - 1, j - 1) == last_stop(qs, cs, i - 1, j - 2));
                assert(s < j - 1);
            }
            j = j - 1;
        }
        proof {
            assert(last_stop(qs, cs, i - 1, j - 1) == j - 1);
            assert(j - 1 == s);
        }
        let ghost before = bits_of(mask);
        mask_set(&mut mask, j - 1, true);
        proof {
            assert(m_cell(qs, cs, i - 1, s) != SpecScore::Min);
            lemma_m_structure(qs, cs, i - 1, s);
            if i - 1 > 0 {
                assert(d_cell(qs, cs, i - 2, s - 1) is Finite);
            }
            assert(trace_from(qs, cs, i - 2, s - 1) == t.take(i - 1)) by {
                assert(trace_from(qs, cs, i - 1, bound - 1) == trace_from(qs, cs, i - 2, s - 1)
                    .push(s));
                assert(t.take(i as int).drop_last() =~= t.take(i - 1));
            }
            assert(bits_of(mask) == before.update(s, true));
            assert forall|p: int| 0 <= p < c_len implies (bits_of(mask)[p] == exists|k: int|
                i - 1 <= k < q_len && t[k] == p) by {
                if p == s {
                    assert(i - 1 <= i - 1 < q_len && t[i - 1] == p);
                } else {
                    assert(bits_of(mask)[p] == before[p]);
                    if exists|k: int| i - 1 <= k < q_len && t[k] == p {
                        let k = choose|k: int| i - 1 <= k < q_len && t[k] == p;
                        assert(k != i - 1);
                        assert(i <= k < q_len && t[k] == p);
                    }
                    if exists|k: int| i <= k < q_len && t[k] == p {
                        let k = choose|k: int| i <= k < q_len && t[k] == p;
                        assert(i - 1 <= k < q_len && t[k] == p);
                    }
                }
            }
        }
        bound = j - 1;
        i = i - 1;
    }
    proof {
        assert(bits_of(mask) =~= mask_of(qs, cs));
    }
    LocateResult { candidate_index: index, score: best, match_mask: mask }
}

/// The candidate's encoded length is inside the byte cap and the query is
/// not empty, so the pair is scored by the tables.
pub open spec fn byte_len_ok(q: Seq<char>, c: Seq<char>) -> bool {
    crate::score::byte_len(c) <= crate::config::CANDIDATE_MAX_BYTES && q.len() > 0
}

/// Calculates a score for how well a `query` matches a `candidate` and
/// gives the locations of the `query` characters in the `candidate` too
///
/// Higher scores are better
pub fn locate(query: &str, candidate: &str) -> (r: LocateResult)
    ensures
        r.candidate_index == 0,
        r.score@ == score_of(query@, candidate@),
        bits_of(r.match_mask) == mask_of(query@, candidate@),
{
    locate_inner(query, candidate, 0)
}

} // verus!
