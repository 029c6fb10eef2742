use fzyr::Score;
use fzyr::config::SCORE_GAP_INNER;
use fzyr::config::SCORE_GAP_LEADING;
use fzyr::config::SCORE_GAP_TRAILING;
use fzyr::config::SCORE_MATCH_CAPITAL;
use fzyr::config::SCORE_MATCH_CONSECUTIVE;
use fzyr::config::SCORE_MATCH_DOT;
use fzyr::config::SCORE_MATCH_SLASH;
use fzyr::config::SCORE_MATCH_WORD;
use fzyr::config::SCORE_MAX;
use fzyr::config::SCORE_MIN;
use fzyr::character_match_bonus;
use fzyr::get_lengths;
use fzyr::score;
use fzyr::LengthsOrScore;

#[test]
fn character_bonuses() {
    assert_eq!(0, character_match_bonus('a', 'b'));
    assert_eq!(0, character_match_bonus('0', '#'));
    assert_eq!(0, character_match_bonus('¬', '9'));
    assert_eq!(0, character_match_bonus('@', 'b'));
    assert_eq!(0, character_match_bonus('&', ','));
    assert_eq!(0, character_match_bonus('😨', '♫'));
    assert_eq!(0, character_match_bonus('♺', 'ƹ'));
    assert_eq!(0, character_match_bonus('x', '¯'));
    assert_eq!(0, character_match_bonus('Ɣ', '®'));
    assert_eq!(0, character_match_bonus(']', '·'));
    assert_eq!(0, character_match_bonus('A', 'B'));
    assert_eq!(0, character_match_bonus('a', 'B'));
    assert_eq!(0, character_match_bonus('Б', 'Б'));
    assert_eq!(0, character_match_bonus('и', 'Б'));

    assert_eq!(SCORE_MATCH_CAPITAL, character_match_bonus('G', 'r'));
    assert_eq!(SCORE_MATCH_CAPITAL, character_match_bonus('Б', 'и'));

    assert_eq!(SCORE_MATCH_SLASH, character_match_bonus('a', '/'));
    assert_eq!(SCORE_MATCH_SLASH, character_match_bonus('0', '/'));
    assert_eq!(SCORE_MATCH_SLASH, character_match_bonus('¬', '/'));
    assert_eq!(SCORE_MATCH_SLASH, character_match_bonus('@', '/'));
    assert_eq!(SCORE_MATCH_SLASH, character_match_bonus('&', '/'));
    assert_eq!(SCORE_MATCH_SLASH, character_match_bonus('😨', '/'));
    assert_eq!(SCORE_MATCH_SLASH, character_match_bonus('♺', '/'));
    assert_eq!(SCORE_MATCH_SLASH, character_match_bonus('x', '/'));
    assert_eq!(SCORE_MATCH_SLASH, character_match_bonus('Ɣ', '/'));
    assert_eq!(SCORE_MATCH_SLASH, character_match_bonus(']', '/'));
    assert_eq!(SCORE_MATCH_SLASH, character_match_bonus('A', '/'));
    assert_eq!(SCORE_MATCH_SLASH, character_match_bonus('Б', '/'));
    assert_eq!(SCORE_MATCH_SLASH, character_match_bonus('и', '/'));

    assert_eq!(SCORE_MATCH_DOT, character_match_bonus('a', '.'));
    assert_eq!(SCORE_MATCH_DOT, character_match_bonus('0', '.'));
    assert_eq!(SCORE_MATCH_DOT, character_match_bonus('¬', '.'));
    assert_eq!(SCORE_MATCH_DOT, character_match_bonus('@', '.'));
    assert_eq!(SCORE_MATCH_DOT, character_match_bonus('&', '.'));
    assert_eq!(SCORE_MATCH_DOT, character_match_bonus('😨', '.'));
    assert_eq!(SCORE_MATCH_DOT, character_match_bonus('♺', '.'));
    assert_eq!(SCORE_MATCH_DOT, character_match_bonus('x', '.'));
    assert_eq!(SCORE_MATCH_DOT, character_match_bonus('Ɣ', '.'));
    assert_eq!(SCORE_MATCH_DOT, character_match_bonus(']', '.'));
    assert_eq!(SCORE_MATCH_DOT, character_match_bonus('A', '.'));
    assert_eq!(SCORE_MATCH_DOT, character_match_bonus('Б', '.'));
    assert_eq!(SCORE_MATCH_DOT, character_match_bonus('и', '.'));

    assert_eq!(SCORE_MATCH_WORD, character_match_bonus('a', ' '));
    assert_eq!(SCORE_MATCH_WORD, character_match_bonus('0', '-'));
    assert_eq!(SCORE_MATCH_WORD, character_match_bonus('¬', '_'));
    assert_eq!(SCORE_MATCH_WORD, character_match_bonus('@', ' '));
    assert_eq!(SCORE_MATCH_WORD, character_match_bonus('&', '-'));
    assert_eq!(SCORE_MATCH_WORD, character_match_bonus('😨', '_'));
    assert_eq!(SCORE_MATCH_WORD, character_match_bonus('♺', ' '));
    assert_eq!(SCORE_MATCH_WORD, character_match_bonus('x', '-'));
    assert_eq!(SCORE_MATCH_WORD, character_match_bonus('Ɣ', '_'));
    assert_eq!(SCORE_MATCH_WORD, character_match_bonus(']', ' '));
    assert_eq!(SCORE_MATCH_WORD, character_match_bonus('A', '-'));
    assert_eq!(SCORE_MATCH_WORD, character_match_bonus('Б', '_'));
    assert_eq!(SCORE_MATCH_WORD, character_match_bonus('и', ' '));
}

#[test]
fn score_pref_word_start() {
    assert!(score("amor", "app/models/zrder").score.lt(&score("amor", "app/models/order").score));
    assert!(score("amor", "app models zrder").score.lt(&score("amor", "app models-order").score));
    assert!(score("qart", "QuaRTz").score.lt(&score("qart", "QuArTz").score));
}

#[test]
fn score_pref_consecutive_letters() {
    assert!(score("amo", "app/m/foo").score.lt(&score("amo", "app/models/foo").score));
}

#[test]
fn score_pref_contiguous_vs_word() {
    assert!(score("gemfil", "Gemfile.lock").score.lt(&score("gemfil", "Gemfile").score));
}

#[test]
fn score_pref_shorter() {
    assert!(score("abce", "abc de").score.lt(&score("abce", "abcdef").score));
    assert!(score("abc", " a  b  c ").score.lt(&score("abc", "    a b c ").score));
    assert!(score("abc", " a  b  c ").score.lt(&score("abc", " a b c    ").score));
    assert!(score("test", "testing").score.lt(&score("test", "tests").score));
}

#[test]
fn score_prefer_start() {
    assert!(score("test", "/testing").score.lt(&score("test", "testing").score));
}

#[test]
fn score_exact() {
    assert_eq!(SCORE_MAX, score("query", "query").score);
    assert_eq!(
        SCORE_MAX,
        score("156aufsdn926f9=sdk/~']", "156aufsdn926f9=sdk/~']").score
    );
    assert_eq!(
        SCORE_MAX,
        score(
            "üò®∆î¬∑¬Æx¬Ø√çƒû.…Ö∆Å√±√Æ∆π‚ô∫√†w√ë‚òÜ«àüòû¬¥∆ô¬∫√ë‚ô´",
            "üò®∆î¬∑¬Æx¬Ø√çƒû.…Ö∆Å√±√Æ∆π‚ô∫√†w√ë‚òÜ«àüòû¬¥∆ô¬∫√ë‚ô´"
        )
        .score
    );
}

#[test]
fn score_empty() {
    assert_eq!(SCORE_MIN, score("", "").score);
    assert_eq!(SCORE_MIN, score("", "candidate").score);
    assert_eq!(
        SCORE_MIN,
        score("", "üò®∆î¬∑¬Æx¬Ø√çƒû.…Ö∆Å√±√Æ∆π‚ô∫√†w√ë‚òÜ«àüòû¬¥∆ô¬∫√ë‚ô´").score
    );
    assert_eq!(SCORE_MIN, score("", "–ø—Ä–æ–ø–∏—Å–Ω–∞—è –ë–£–ö–í–ê").score);
    assert_eq!(SCORE_MIN, score("", "a").score);
    assert_eq!(SCORE_MIN, score("", "4561").score);
}

#[test]
fn score_gaps() {
    assert_eq!(Score::Finite(SCORE_GAP_LEADING), score("a", "*a").score);
    assert_eq!(Score::Finite(SCORE_GAP_LEADING * 2), score("a", "*ba").score);
    assert_eq!(
        Score::Finite(SCORE_GAP_LEADING * 2 + SCORE_GAP_TRAILING),
        score("a", "**a*").score
    );
    assert_eq!(
        Score::Finite(SCORE_GAP_LEADING * 2 + SCORE_GAP_TRAILING * 2),
        score("a", "**a**").score
    );
    assert_eq!(
        Score::Finite(
            SCORE_GAP_LEADING * 2 + SCORE_MATCH_CONSECUTIVE + SCORE_GAP_TRAILING * 4
        ),
        score("aa", "**aa‚ô∫*").score
    );
    assert_eq!(
        Score::Finite(
            SCORE_GAP_LEADING * 2 + SCORE_GAP_INNER + SCORE_MATCH_WORD + SCORE_GAP_TRAILING * 4
        ),
        score("ab", "**a-b‚ô∫*").score
    );
    assert_eq!(
        Score::Finite(
            SCORE_GAP_LEADING * 2 + SCORE_GAP_INNER * 3 + SCORE_GAP_TRAILING * 2
        ),
        score("aa", "**a‚ô∫a**").score
    );
}

#[test]
fn score_consecutive() {
    assert_eq!(
        Score::Finite(SCORE_GAP_LEADING + SCORE_MATCH_CONSECUTIVE),
        score("aa", "*aa").score
    );
    assert_eq!(
        Score::Finite(SCORE_GAP_LEADING * 3 + SCORE_MATCH_CONSECUTIVE * 2),
        score("aaa", "‚ô´aaa").score
    );
    assert_eq!(
        Score::Finite(SCORE_GAP_LEADING + SCORE_GAP_INNER + SCORE_MATCH_CONSECUTIVE),
        score("aaa", "*a*aa").score
    );
}

#[test]
fn score_slash() {
    assert_eq!(
        Score::Finite(SCORE_GAP_LEADING + SCORE_MATCH_SLASH),
        score("a", "/a").score
    );
    assert_eq!(
        Score::Finite(SCORE_GAP_LEADING * 2 + SCORE_MATCH_SLASH),
        score("a", "*/a").score
    );
    assert_eq!(
        Score::Finite(SCORE_GAP_LEADING * 2 + SCORE_MATCH_SLASH + SCORE_MATCH_CONSECUTIVE),
        score("aa", "a/aa").score
    );
}

#[test]
fn score_capital() {
    assert_eq!(
        Score::Finite(SCORE_GAP_LEADING + SCORE_MATCH_CAPITAL),
        score("a", "bA").score
    );
    assert_eq!(
        Score::Finite(SCORE_GAP_LEADING * 2 + SCORE_MATCH_CAPITAL),
        score("a", "baA").score
    );
    assert_eq!(
        Score::Finite(
            SCORE_GAP_LEADING * 4 + SCORE_MATCH_CAPITAL + SCORE_MATCH_CONSECUTIVE
        ),
        score("aa", "üòûaAa").score
    );
}

#[test]
fn score_dot() {
    assert_eq!(
        Score::Finite(SCORE_GAP_LEADING + SCORE_MATCH_DOT),
        score("a", ".a").score
    );
    assert_eq!(
        Score::Finite(SCORE_GAP_LEADING * 3 + SCORE_MATCH_DOT),
        score("a", "*a.a").score
    );
    assert_eq!(
        Score::Finite(SCORE_GAP_LEADING * 5 + SCORE_MATCH_DOT),
        score("a", "‚ô´a.a").score
    );
}

#[test]
fn score_non_subsequence_is_min() {
    assert_eq!(SCORE_MIN, score("acb", "abc").score);
    assert_eq!(SCORE_MIN, score("cat", "dog").score);
}

#[test]
fn score_subsequence_is_finite() {
    let s = score("ab", "a-b").score;
    assert!(SCORE_MIN.lt(&s));
    assert!(s.lt(&SCORE_MAX));
    assert!(matches!(s, Score::Finite(_)));
}

#[test]
fn get_lengths_short_circuits() {
    assert!(matches!(
        get_lengths("ab", "abc"),
        LengthsOrScore::Lengths(2, 3)
    ));
    assert!(matches!(
        get_lengths("", "abc"),
        LengthsOrScore::Score(Score::Min)
    ));
    assert!(matches!(
        get_lengths("abc", "abc"),
        LengthsOrScore::Score(Score::Max)
    ));
    let huge = "a".repeat(3000);
    assert!(matches!(
        get_lengths("a", &huge),
        LengthsOrScore::Score(Score::Min)
    ));
}

#[test]
fn score_size_caps() {
    let long_chars = "a".repeat(1500);
    let too_many_bytes = "a".repeat(3000);
    // Equal strings short-circuit to an exact match before the character cap.
    assert_eq!(SCORE_MAX, score(&long_chars, &long_chars).score);
    // A shorter query against the same candidate hits the character cap.
    assert_eq!(SCORE_MIN, score("a", &long_chars).score);
    // Over the byte cap nothing is scored, not even an equal string.
    assert_eq!(SCORE_MIN, score(&too_many_bytes, &too_many_bytes).score);
}
