//! Scoring constants and size caps.
//!
//! Scores are kept in thousandths: every reward and penalty below is an
//! integer number of milli-points, so score arithmetic is exact and total.

use vstd::prelude::*;

use crate::score::Score;

verus! {

/// Score given when the query doesn't match the candidate at all.
pub const SCORE_MIN: Score = Score::Min;

/// Score given when the query matches the candidate perfectly.
pub const SCORE_MAX: Score = Score::Max;

/// Penalty for each skipped candidate character before the first match.
pub const SCORE_GAP_LEADING: i64 = -5;

/// Penalty for each skipped candidate character between two matches.
pub const SCORE_GAP_INNER: i64 = -10;

/// Penalty for each skipped candidate character after the last match.
pub const SCORE_GAP_TRAILING: i64 = -5;

/// Reward for a match immediately after the previous matched character.
pub const SCORE_MATCH_CONSECUTIVE: i64 = 1000;

/// Reward for a match preceded by `/`.
pub const SCORE_MATCH_SLASH: i64 = 900;

/// Reward for a match preceded by a space, `-` or `_`.
pub const SCORE_MATCH_WORD: i64 = 800;

/// Reward for an uppercase match right after a lowercase character.
pub const SCORE_MATCH_CAPITAL: i64 = 700;

/// Reward for a match preceded by `.`.
pub const SCORE_MATCH_DOT: i64 = 600;

/// Candidates longer than this many bytes are rejected without scoring.
pub const CANDIDATE_MAX_BYTES: usize = 2048;

/// Candidates longer than this many code points are rejected without scoring.
pub const CANDIDATE_MAX_CHARS: usize = 1024;

} // verus!
