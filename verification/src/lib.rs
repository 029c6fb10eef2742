//! Fuzzy string matching: rank candidate strings against a short query.
//!
//! The match relation is an order-preserving (subsequence) containment of the
//! query's characters in the candidate, compared case-insensitively per
//! Unicode code point. Matching candidates are scored by a dynamic program
//! that rewards matches at word boundaries, after path separators, on
//! capital letters and in contiguous runs, and penalizes gaps.

pub mod chars;
pub mod comparer;
pub mod config;
pub mod laws;
pub mod locate;
pub mod mask;
pub mod options;
pub mod parallel;

pub mod score;
pub mod search;

pub use locate::LocateResult;
pub use locate::locate;
pub use options::Options;
pub use parallel::calculate_parallelism;
pub use parallel::ceil_div;
pub use parallel::merge_results;
pub use parallel::search_locate;
pub use parallel::search_score;
pub use score::LengthsOrScore;
pub use score::Score;
pub use score::ScoreResult;
pub use score::get_lengths;
pub use score::has_match;
pub use score::score;
pub use search::LocateResults;
pub use search::ScoreResults;
pub use search::locate_serial;
pub use search::search_serial;
pub use search::search_worker;
pub use comparer::character_match_bonus;
pub use comparer::is_separator;
