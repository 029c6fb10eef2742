//! The scoring core: a dynamic program over one (query, candidate) pair.
//!
//! For a query of length `q` and candidate of length `c` (in code points),
//! two `q` by `c` tables are filled row by row:
//!
//! * `M[i][j]` (`m_cell`) is the best score of any alignment that matches
//!   query character `i` exactly at candidate position `j`;
//! * `D[i][j]` (`d_cell`) is the best score of any alignment of
//!   `query[..=i]` against `candidate[..=j]`, whether or not it ends in a
//!   match at `j`.
//!
//! The final score of the pair is `D[q-1][c-1]`.

use vstd::prelude::*;

use crate::chars::fold_eq;
use crate::chars::fold_eq_chars;
use crate::chars::char_is_lowercase;
use crate::chars::char_is_uppercase;
use crate::chars::lowercase;
use crate::chars::uppercase;
use crate::config::SCORE_GAP_INNER;
use crate::config::SCORE_GAP_LEADING;
use crate::config::SCORE_GAP_TRAILING;
use crate::config::SCORE_MATCH_CAPITAL;
use crate::config::SCORE_MATCH_CONSECUTIVE;
use crate::config::SCORE_MATCH_DOT;
use crate::config::SCORE_MATCH_SLASH;
use crate::config::SCORE_MATCH_WORD;
use crate::score::Score;
use crate::score::SpecScore;
use crate::score::ss_add;
use crate::score::ss_le;
use crate::score::ss_max;

verus! {

/// Spec-level value of a score known to be finite (zero otherwise).
pub open spec fn ss_val(s: SpecScore) -> int {
    match s {
        SpecScore::Finite(v) => v,
        _ => 0,
    }
}

/// The bonus earned by matching character `cur` when the candidate
/// character before it is `prev`.
pub open spec fn char_bonus(cur: char, prev: char) -> int {
    if uppercase(cur) && lowercase(prev) {
        SCORE_MATCH_CAPITAL as int
    } else if prev == '/' {
        SCORE_MATCH_SLASH as int
    } else if prev == '.' {
        SCORE_MATCH_DOT as int
    } else if prev == ' ' || prev == '-' || prev == '_' {
        SCORE_MATCH_WORD as int
    } else {
        0
    }
}

/// The bonus at candidate position `j`; the character before position 0 is
/// taken to be `/`, so a leading character counts as a word start.
pub open spec fn bonus_at(c: Seq<char>, j: int) -> int {
    char_bonus(c[j], if j == 0 { '/' } else { c[j - 1] })
}

/// The gap penalty charged on row `i`: trailing on the last query row,
/// inner on every other row.
pub open spec fn gap_at(q: Seq<char>, i: int) -> int {
    if i == q.len() - 1 {
        SCORE_GAP_TRAILING as int
    } else {
        SCORE_GAP_INNER as int
    }
}

/// Best score of an alignment of `query[..=i]` against `candidate[..=j]`
/// that matches query character `i` at candidate position `j`.
pub open spec fn m_cell(q: Seq<char>, c: Seq<char>, i: int, j: int) -> SpecScore
    decreases i, j, 0int,
{
    if !fold_eq(q[i], c[j]) {
        SpecScore::Min
    } else if i <= 0 {
        SpecScore::Finite(j * (SCORE_GAP_LEADING as int) + bonus_at(c, j))
    } else if j <= 0 {
        SpecScore::Min
    } else {
        ss_max(
            ss_add(d_cell(q, c, i - 1, j - 1), bonus_at(c, j)),
            ss_add(m_cell(q, c, i - 1, j - 1), SCORE_MATCH_CONSECUTIVE as int),
        )
    }
}

/// Best score of any alignment of `query[..=i]` against `candidate[..=j]`.
pub open spec fn d_cell(q: Seq<char>, c: Seq<char>, i: int, j: int) -> SpecScore
    decreases i, j, 1int,
{
    if j <= 0 {
        m_cell(q, c, i, j)
    } else {
        ss_max(m_cell(q, c, i, j), ss_add(d_cell(q, c, i, j - 1), gap_at(q, i)))
    }
}

/// Every finite table cell is bounded: no chain of rewards exceeds one
/// consecutive-match bonus per row, and no chain of penalties exceeds one
/// gap per visited cell plus the worst leading gap.
pub proof fn lemma_cell_bounds(q: Seq<char>, c: Seq<char>, i: int, j: int)
    requires
        0 <= i < q.len(),
        0 <= j < c.len(),
    ensures
        m_cell(q, c, i, j) matches SpecScore::Finite(v) ==> -(10 * (i + 1) * (j + 1) + 5200)
            <= v <= 1000 * (i + 1),
        d_cell(q, c, i, j) matches SpecScore::Finite(v) ==> -(10 * (i + 1) * (j + 1) + 5200)
            <= v <= 1000 * (i + 1),
    decreases i, j,
{
    let lo = -(10 * (i + 1) * (j + 1) + 5200);
    let hi = 1000 * (i + 1);
    assert(0 <= bonus_at(c, j) <= 900);

    // The best score ending in a match at (i, j).
    if fold_eq(q[i], c[j]) {
        if i == 0 {
            assert(m_cell(q, c, i, j) == SpecScore::Finite(
                j * (SCORE_GAP_LEADING as int) + bonus_at(c, j),
            ));
            assert(-(10 * 1 * (j + 1) + 5200) <= j * (SCORE_GAP_LEADING as int)) by (
            nonlinear_arith)
                requires
                    j >= 0,
            ;
        } else if j > 0 {
            lemma_cell_bounds(q, c, i - 1, j - 1);
            let prev_lo = -(10 * i * j + 5200);
            let prev_hi = 1000 * i;
            assert(prev_lo + 0 >= lo && prev_lo + 1000 >= lo) by (nonlinear_arith)
                requires
                    i >= 1 && j >= 1 && prev_lo == -(10 * i * j + 5200) && lo == -(10 * (i + 1) * (
                    j + 1) + 5200),
            ;
            let a = ss_add(d_cell(q, c, i - 1, j - 1), bonus_at(c, j));
            let b = ss_add(m_cell(q, c, i - 1, j - 1), SCORE_MATCH_CONSECUTIVE as int);
            assert(a matches SpecScore::Finite(v) ==> lo <= v <= hi);
            assert(b matches SpecScore::Finite(v) ==> lo <= v <= hi);
            assert(m_cell(q, c, i, j) == ss_max(a, b));
            assert(ss_max(a, b) == a || ss_max(a, b) == b);
        }
    } else {
        assert(m_cell(q, c, i, j) == SpecScore::Min);
    }

    // The best overall score at (i, j).
    if j == 0 {
        assert(d_cell(q, c, i, j) == m_cell(q, c, i, j));
    } else {
        lemma_cell_bounds(q, c, i, j - 1);
        let row_lo = -(10 * (i + 1) * j + 5200);
        assert(row_lo - 10 >= lo) by (nonlinear_arith)
            requires
                i >= 0 && j >= 1 && row_lo == -(10 * (i + 1) * j + 5200) && lo == -(10 * (i + 1) * (
                j + 1) + 5200),
        ;
        let e = ss_add(d_cell(q, c, i, j - 1), gap_at(q, i));
        assert(e matches SpecScore::Finite(v) ==> lo <= v <= hi);
        assert(d_cell(q, c, i, j) == ss_max(m_cell(q, c, i, j), e));
        assert(ss_max(m_cell(q, c, i, j), e) == m_cell(q, c, i, j) || ss_max(
            m_cell(q, c, i, j),
            e,
        ) == e);
    }
}

/// Concrete numeric range for every finite cell of a pair within the size
/// caps; this is what keeps the table arithmetic inside `i64`.
pub proof fn lemma_cell_bounds_concrete(q: Seq<char>, c: Seq<char>, i: int, j: int)
    requires
        0 <= i < q.len(),
        0 <= j < c.len(),
        q.len() <= 1024,
        c.len() <= 1024,
    ensures
        m_cell(q, c, i, j) matches SpecScore::Finite(v) ==> -10_500_000 <= v <= 1_024_000,
        d_cell(q, c, i, j) matches SpecScore::Finite(v) ==> -10_500_000 <= v <= 1_024_000,
{
    lemma_cell_bounds(q, c, i, j);
    assert(10 * (i + 1) * (j + 1) + 5200 <= 10_500_000) by (nonlinear_arith)
        requires 0 <= i <= 1023 && 0 <= j <= 1023;
}

/// Add a finite penalty or reward to a score; the infinities absorb it.
fn score_add(s: Score, d: i64) -> (r: Score)
    requires
        s@ is Finite ==> i64::MIN <= ss_val(s@) + d <= i64::MAX,
    ensures
        r@ == ss_add(s@, d as int),
{
    match s {
        Score::Min => Score::Min,
        Score::Finite(v) => Score::Finite(v + d),
        Score::Max => Score::Max,
    }
}

/// The larger of two scores.
fn score_max(a: Score, b: Score) -> (r: Score)
    ensures
        r@ == ss_max(a@, b@),
{
    let a_le_b = match (&a, &b) {
        (Score::Min, _) => true,
        (Score::Finite(_), Score::Min) => false,
        (Score::Finite(x), Score::Finite(y)) => x <= y,
        (Score::Finite(_), Score::Max) => true,
        (Score::Max, Score::Max) => true,
        (Score::Max, _) => false,
    };
    if a_le_b {
        b
    } else {
        a
    }
}

/// Whether a character separates words: space, `-` or `_`.
pub fn is_separator(character: char) -> (r: bool)
    ensures
        r == (character == ' ' || character == '-' || character == '_'),
{
    match character {
        ' ' => true,
        '-' => true,
        '_' => true,
        _ => false,
    }
}

/// The bonus for matching `current` right after `previous`.
pub fn character_match_bonus(current: char, previous: char) -> (r: i64)
    ensures
        r == char_bonus(current, previous),
{
    if char_is_uppercase(current) && char_is_lowercase(previous) {
        SCORE_MATCH_CAPITAL
    } else if previous == '/' {
        SCORE_MATCH_SLASH
    } else if previous == '.' {
        SCORE_MATCH_DOT
    } else if is_separator(previous) {
        SCORE_MATCH_WORD
    } else {
        0
    }
}

/// The bonus of every candidate position, in one left-to-right pass.
pub(crate) fn candidate_match_bonuses(candidate: &Vec<char>) -> (r: Vec<i64>)
    ensures
        r@.len() == candidate@.len(),
        forall|j: int| 0 <= j < candidate@.len() ==> r@[j] == bonus_at(candidate@, j),
{
    let mut out: Vec<i64> = Vec::new();
    let mut prev_char: char = '/';
    let mut j: usize = 0;
    while j < candidate.len()
        invariant
            out@.len() == j,
            j <= candidate@.len(),
            prev_char == (if j == 0 { '/' } else { candidate@[j - 1] }),
            forall|k: int| 0 <= k < j ==> out@[k] == bonus_at(candidate@, k),
        decreases candidate@.len() - j,
    {
        let current = candidate[j];
        out.push(character_match_bonus(current, prev_char));
        prev_char = current;
        j = j + 1;
    }
    out
}

/// Fill the two score tables for a pair already known to be within the
/// size caps. Returns `(D, M)`, each as one row per query character.
pub(crate) fn score_internal(query: &Vec<char>, candidate: &Vec<char>) -> (r: (
    Vec<Vec<Score>>,
    Vec<Vec<Score>>,
))
    requires
        1 <= query@.len() <= candidate@.len() <= 1024,
    ensures
        r.0@.len() == query@.len(),
        r.1@.len() == query@.len(),
        forall|i: int| 0 <= i < query@.len() ==> (#[trigger] r.0@[i])@.len() == candidate@.len(),
        forall|i: int| 0 <= i < query@.len() ==> (#[trigger] r.1@[i])@.len() == candidate@.len(),
        forall|i: int, j: int|
            0 <= i < query@.len() && 0 <= j < candidate@.len() ==> (#[trigger] r.0@[i]@[j])@
                == d_cell(query@, candidate@, i, j),
        forall|i: int, j: int|
            0 <= i < query@.len() && 0 <= j < candidate@.len() ==> (#[trigger] r.1@[i]@[j])@
                == m_cell(query@, candidate@, i, j),
{
    let q_len = query.len();
    let c_len = candidate.len();
    let match_bonuses = candidate_match_bonuses(candidate);

    let mut d_rows: Vec<Vec<Score>> = Vec::new();
    let mut m_rows: Vec<Vec<Score>> = Vec::new();
    let mut i: usize = 0;
    while i < q_len
        invariant
            q_len == query@.len(),
            c_len == candidate@.len(),
            1 <= q_len <= c_len <= 1024,
            match_bonuses@.len() == c_len,
            forall|j: int| 0 <= j < c_len ==> match_bonuses@[j] == bonus_at(candidate@, j),
            d_rows@.len() == i,
            m_rows@.len() == i,
            i <= q_len,
            forall|r: int| 0 <= r < i ==> (#[trigger] d_rows@[r])@.len() == c_len,
            forall|r: int| 0 <= r < i ==> (#[trigger] m_rows@[r])@.len() == c_len,
            forall|r: int, j: int|
                0 <= r < i && 0 <= j < c_len ==> (#[trigger] d_rows@[r]@[j])@
                    == d_cell(query@, candidate@, r, j),
            forall|r: int, j: int|
                0 <= r < i && 0 <= j < c_len ==> (#[trigger] m_rows@[r]@[j])@
                    == m_cell(query@, candidate@, r, j),
        decreases q_len - i,
    {
        let gap: i64 = if i == q_len - 1 {
            SCORE_GAP_TRAILING
        } else {
            SCORE_GAP_INNER
        };
        let q_char = query[i];
        let mut d_row: Vec<Score> = Vec::new();
        let mut m_row: Vec<Score> = Vec::new();
        let mut prev: Score = Score::Min;
        let mut j: usize = 0;
        while j < c_len
            invariant
                q_len == query@.len(),
                c_len == candidate@.len(),
                1 <= q_len <= c_len <= 1024,
                i < q_len,
                match_bonuses@.len() == c_len,
                forall|k: int| 0 <= k < c_len ==> match_bonuses@[k] == bonus_at(candidate@, k),
                gap == gap_at(query@, i as int),
                q_char == query@[i as int],
                d_rows@.len() == i,
                m_rows@.len() == i,
                forall|r: int| 0 <= r < i ==> (#[trigger] d_rows@[r])@.len() == c_len,
                forall|r: int| 0 <= r < i ==> (#[trigger] m_rows@[r])@.len() == c_len,
                forall|r: int, k: int|
                    0 <= r < i && 0 <= k < c_len ==> (#[trigger] d_rows@[r]@[k])@
                        == d_cell(query@, candidate@, r, k),
                forall|r: int, k: int|
                    0 <= r < i && 0 <= k < c_len ==> (#[trigger] m_rows@[r]@[k])@
                        == m_cell(query@, candidate@, r, k),
                d_row@.len() == j,
                m_row@.len() == j,
                j <= c_len,
                forall|k: int| 0 <= k < j ==> (#[trigger] d_row@[k])@
                    == d_cell(query@, candidate@, i as int, k),
                forall|k: int| 0 <= k < j ==> (#[trigger] m_row@[k])@
                    == m_cell(query@, candidate@, i as int, k),
                prev@ == (if j == 0 {
                    SpecScore::Min
                } else {
                    d_cell(query@, candidate@, i as int, j - 1)
                }),
            decreases c_len - j,
        {
            proof {
                if j > 0 {
                    lemma_cell_bounds_concrete(query@, candidate@, i as int, j - 1);
                }
                if i > 0 && j > 0 {
                    lemma_cell_bounds_concrete(query@, candidate@, i as int - 1, j - 1);
                }
            }
            let m_score: Score = if fold_eq_chars(q_char, candidate[j]) {
                if i == 0 {
                    Score::Finite((j as i64) * SCORE_GAP_LEADING + match_bonuses[j])
                } else if j == 0 {
                    Score::Min
                } else {
                    let with_bonus = score_add(d_rows[i - 1][j - 1], match_bonuses[j]);
                    let consecutive = score_add(m_rows[i - 1][j - 1], SCORE_MATCH_CONSECUTIVE);
                    score_max(with_bonus, consecutive)
                }
            } else {
                Score::Min
            };
            assert(m_score@ == m_cell(query@, candidate@, i as int, j as int));
            let d_score = score_max(m_score, score_add(prev, gap));
            assert(d_score@ == d_cell(query@, candidate@, i as int, j as int));
            d_row.push(d_score);
            m_row.push(m_score);
            prev = d_score;
            j = j + 1;
        }
        d_rows.push(d_row);
        m_rows.push(m_row);
        i = i + 1;
    }
    (d_rows, m_rows)
}

} // verus!
