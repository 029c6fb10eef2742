//! Scores, the match predicate, and per-pair result types.

use vstd::prelude::*;

use crate::chars::chars_of;
use crate::chars::fold_eq;
use crate::chars::fold_eq_chars;
use crate::comparer::d_cell;
use crate::comparer::score_internal;
use crate::config::CANDIDATE_MAX_BYTES;
use crate::config::CANDIDATE_MAX_CHARS;

verus! {

/// Relevance of one candidate for one query, in thousandths of a point.
///
/// `Min` stands for "no match at all" and compares below every other score;
/// `Max` stands for an exact match (equality under case folding) and
/// compares above every other score. All scores produced by comparing a
/// matching, non-equal pair are `Finite`.
#[derive(Clone, Copy, Debug, PartialEq, Eq, Structural)]
pub enum Score {
    Min,
    Finite(i64),
    Max,
}

/// The mathematical counterpart of [`Score`], over unbounded integers.
pub enum SpecScore {
    Min,
    Finite(int),
    Max,
}

impl View for Score {
    type V = SpecScore;

    open spec fn view(&self) -> SpecScore {
        match self {
            Score::Min => SpecScore::Min,
            Score::Finite(v) => SpecScore::Finite(*v as int),
            Score::Max => SpecScore::Max,
        }
    }
}

/// Total order on scores: `Min` below all finite scores, `Max` above them.
pub open spec fn ss_le(a: SpecScore, b: SpecScore) -> bool {
    match a {
        SpecScore::Min => true,
        SpecScore::Finite(x) => match b {
            SpecScore::Min => false,
            SpecScore::Finite(y) => x <= y,
            SpecScore::Max => true,
        },
        SpecScore::Max => b is Max,
    }
}

pub open spec fn ss_lt(a: SpecScore, b: SpecScore) -> bool {
    ss_le(a, b) && a != b
}

/// Add a finite increment to a score; the two infinite scores absorb it.
pub open spec fn ss_add(a: SpecScore, d: int) -> SpecScore {
    match a {
        SpecScore::Min => SpecScore::Min,
        SpecScore::Finite(v) => SpecScore::Finite(v + d),
        SpecScore::Max => SpecScore::Max,
    }
}

pub open spec fn ss_max(a: SpecScore, b: SpecScore) -> SpecScore {
    if ss_le(a, b) {
        b
    } else {
        a
    }
}

impl Score {
    /// Strictly-less-than over the total order on scores.
    pub fn lt(&self, other: &Score) -> (r: bool)
        ensures
            r == ss_lt(self@, other@),
    {
        match (self, other) {
            (Score::Min, Score::Min) => false,
            (Score::Min, _) => true,
            (Score::Finite(_), Score::Min) => false,
            (Score::Finite(x), Score::Finite(y)) => x < y,
            (Score::Finite(_), Score::Max) => true,
            (Score::Max, _) => false,
        }
    }
}

/// The match relation, walked from query position `qi` and candidate
/// position `ci`: every remaining query character appears, in order, among
/// the remaining candidate characters, under case folding.
pub open spec fn is_match_from(q: Seq<char>, c: Seq<char>, qi: int, ci: int) -> bool
    decreases c.len() - ci,
{
    if qi >= q.len() {
        true
    } else if ci >= c.len() {
        false
    } else if fold_eq(q[qi], c[ci]) {
        is_match_from(q, c, qi + 1, ci + 1)
    } else {
        is_match_from(q, c, qi, ci + 1)
    }
}

/// `c` contains the characters of `q` in order (not necessarily adjacent),
/// compared case-insensitively. The empty query matches everything.
pub open spec fn is_match(q: Seq<char>, c: Seq<char>) -> bool {
    is_match_from(q, c, 0, 0)
}

/// Returns `true` if and only if `candidate` is a match for `query`
///
/// A "match" must contain all of the letters of `query` in order, but not
/// necessarily continguously.
pub fn has_match(query: &str, candidate: &str) -> (r: bool)
    ensures
        r == is_match(query@, candidate@),
{
    let q = chars_of(query);
    let c = chars_of(candidate);
    let mut qi: usize = 0;
    let mut ci: usize = 0;
    while qi < q.len() && ci < c.len()
        invariant
            q@ == query@,
            c@ == candidate@,
            qi <= q@.len(),
            ci <= c@.len(),
            is_match(query@, candidate@) == is_match_from(q@, c@, qi as int, ci as int),
        decreases c@.len() - ci,
    {
        if fold_eq_chars(q[qi], c[ci]) {
            qi = qi + 1;
        }
        ci = ci + 1;
    }
    qi == q.len()
}

/// A match consumes at least as many candidate characters as it has query
/// characters.
pub proof fn lemma_match_len(q: Seq<char>, c: Seq<char>, qi: int, ci: int)
    requires
        0 <= qi <= q.len(),
        0 <= ci <= c.len(),
        is_match_from(q, c, qi, ci),
    ensures
        q.len() - qi <= c.len() - ci,
    decreases c.len() - ci,
{
    if qi < q.len() && ci < c.len() {
        if fold_eq(q[qi], c[ci]) {
            lemma_match_len(q, c, qi + 1, ci + 1);
        } else {
            lemma_match_len(q, c, qi, ci + 1);
        }
    }
}

/// The number of bytes of the UTF-8 encoding of a character sequence.
pub open spec fn byte_len(s: Seq<char>) -> nat {
    vstd::utf8::encode_utf8(s).len()
}

/// The score of one (query, candidate) pair:
///
/// * `Min` when the candidate is over either size cap, the query is empty,
///   or the candidate is not a match for the query;
/// * `Max` when the pair matches with equal character counts, which under
///   the subsequence relation means equality under case folding;
/// * the bottom-right cell of the score table otherwise.
pub open spec fn score_of(q: Seq<char>, c: Seq<char>) -> SpecScore {
    if byte_len(c) > CANDIDATE_MAX_BYTES || q.len() == 0 {
        SpecScore::Min
    } else if !is_match(q, c) {
        SpecScore::Min
    } else if q.len() == c.len() {
        SpecScore::Max
    } else if c.len() > CANDIDATE_MAX_CHARS {
        SpecScore::Min
    } else {
        d_cell(q, c, q.len() - 1, c.len() - 1)
    }
}

/// Outcome of the pre-scoring size check: either the character counts of a
/// pair worth running the score table over, or a score settled right away.
pub enum LengthsOrScore {
    Lengths(usize, usize),
    Score(Score),
}

/// Decide whether a pair can short-circuit on sizes alone. The equal-count
/// answer of `Max` is meaningful only for pairs already known to match.
pub fn get_lengths(query: &str, candidate: &str) -> (r: LengthsOrScore)
    ensures
        (byte_len(candidate@) > CANDIDATE_MAX_BYTES || query@.len() == 0) ==> r
            == LengthsOrScore::Score(Score::Min),
        !(byte_len(candidate@) > CANDIDATE_MAX_BYTES || query@.len() == 0) ==> {
            if query@.len() == candidate@.len() {
                r == LengthsOrScore::Score(Score::Max)
            } else if candidate@.len() > CANDIDATE_MAX_CHARS {
                r == LengthsOrScore::Score(Score::Min)
            } else {
                r == LengthsOrScore::Lengths(query@.len() as usize, candidate@.len() as usize)
            }
        },
{
    if candidate.as_bytes().len() > CANDIDATE_MAX_BYTES || query.is_empty() {
        // Candidate too long or query too short
        return LengthsOrScore::Score(Score::Min);
    }
    let q_len = chars_of(query).len();
    let c_len = chars_of(candidate).len();
    if q_len == c_len {
        // This is only called when there _is_ a match (candidate contains
        // all chars of query in the right order), so equal lengths mean
        // equal strings
        return LengthsOrScore::Score(Score::Max);
    }
    if c_len > CANDIDATE_MAX_CHARS {
        // Too many characters
        return LengthsOrScore::Score(Score::Min);
    }
    LengthsOrScore::Lengths(q_len, c_len)
}

pub(crate) fn score_inner(query: &str, candidate: &str, index: usize) -> (r: ScoreResult)
    ensures
        r.candidate_index == index,
        r.score@ == score_of(query@, candidate@),
{
    if !has_match(query, candidate) {
        return ScoreResult::with_score(index, Score::Min);
    }
    match get_lengths(query, candidate) {
        LengthsOrScore::Score(s) => ScoreResult::with_score(index, s),
        LengthsOrScore::Lengths(q_len, c_len) => {
            let q = chars_of(query);
            let c = chars_of(candidate);
            proof {
                lemma_match_len(query@, candidate@, 0, 0);
            }
            let (d, _m) = score_internal(&q, &c);
            ScoreResult::with_score(index, d[q_len - 1][c_len - 1])
        },
    }
}

/// Calculates a score for how well a `query` matches a `candidate`
///
/// Higher scores are better
pub fn score(query: &str, candidate: &str) -> (r: ScoreResult)
    ensures
        r.candidate_index == 0,
        r.score@ == score_of(query@, candidate@),
{
    score_inner(query, candidate, 0)
}

/// Result of querying the score against a candidate
#[derive(Clone, Copy, Debug, PartialEq, Eq, Structural)]
pub struct ScoreResult {
    pub candidate_index: usize,
    pub score: Score,
}

impl ScoreResult {
    pub fn new(candidate_index: usize) -> (r: Self)
        ensures
            r.candidate_index == candidate_index,
            r.score@ is Min,
    {
        Self::with_score(candidate_index, Score::Min)
    }

    pub fn with_score(candidate_index: usize, score: Score) -> (r: Self)
        ensures
            r.candidate_index == candidate_index,
            r.score == score,
    {
        Self { candidate_index, score }
    }
}

} // verus!
