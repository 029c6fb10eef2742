use fzyr::Score;
use fzyr::config::CANDIDATE_MAX_BYTES;
use fzyr::config::CANDIDATE_MAX_CHARS;
use fzyr::config::SCORE_GAP_INNER;
use fzyr::config::SCORE_GAP_LEADING;
use fzyr::config::SCORE_GAP_TRAILING;
use fzyr::config::SCORE_MATCH_CAPITAL;
use fzyr::config::SCORE_MATCH_CONSECUTIVE;
use fzyr::config::SCORE_MATCH_DOT;
use fzyr::config::SCORE_MATCH_SLASH;
use fzyr::config::SCORE_MATCH_WORD;
use fzyr::config::SCORE_MAX;
use fzyr::config::SCORE_MIN;

fn assert_positive(val: i64) {
    assert!(val > 0);
}

fn assert_negative(val: i64) {
    assert!(val < 0);
}

#[test]
fn positive_scores() {
    assert!(Score::Finite(0).lt(&SCORE_MAX));
    assert_positive(SCORE_MATCH_CONSECUTIVE);
    assert_positive(SCORE_MATCH_SLASH);
    assert_positive(SCORE_MATCH_WORD);
    assert_positive(SCORE_MATCH_CAPITAL);
    assert_positive(SCORE_MATCH_DOT);
}

#[test]
fn negative_scores() {
    assert!(SCORE_MIN.lt(&Score::Finite(0)));
    assert_negative(SCORE_GAP_LEADING);
    assert_negative(SCORE_GAP_INNER);
    assert_negative(SCORE_GAP_TRAILING);
}

#[test]
fn non_zero() {
    assert_ne!(0, CANDIDATE_MAX_BYTES);
    assert_ne!(0, CANDIDATE_MAX_CHARS);
}
