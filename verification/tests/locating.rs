use fzyr::Score;
use fzyr::config::SCORE_GAP_INNER;
use fzyr::config::SCORE_GAP_LEADING;
use fzyr::config::SCORE_GAP_TRAILING;
use fzyr::config::SCORE_MATCH_CAPITAL;
use fzyr::config::SCORE_MATCH_CONSECUTIVE;
use fzyr::config::SCORE_MATCH_DOT;
use fzyr::config::SCORE_MATCH_SLASH;
use fzyr::config::SCORE_MATCH_WORD;
use fzyr::config::SCORE_MAX;
use fzyr::config::SCORE_MIN;
use fzyr::locate;

fn assert_locate_score(query: &str, candidate: &str, score: Score) {
    let result = locate(query, candidate);

    assert_eq!(score, result.score);
}

#[test]
fn locate_exact() {
    assert_locate_score("query", "query", SCORE_MAX);
    assert_locate_score("156aufsdn926f9=sdk/~']", "156aufsdn926f9=sdk/~']", SCORE_MAX);
    assert_locate_score(
        "üò®∆î¬∑¬Æx¬Ø√çƒû.…Ö∆Å√±√Æ∆π‚ô∫√†w√ë‚òÜ«àüòû¬¥∆ô¬∫√ë‚ô´",
        "üò®∆î¬∑¬Æx¬Ø√çƒû.…Ö∆Å√±√Æ∆π‚ô∫√†w√ë‚òÜ«àüòû¬¥∆ô¬∫√ë‚ô´",
        SCORE_MAX,
    );
}

#[test]
fn locate_empty() {
    assert_locate_score("", "", SCORE_MIN);
    assert_locate_score("", "candidate", SCORE_MIN);
    assert_locate_score(
        "",
        "üò®∆î¬∑¬Æx¬Ø√çƒû.…Ö∆Å√±√Æ∆π‚ô∫√†w√ë‚òÜ«àüòû¬¥∆ô¬∫√ë‚ô´, ",
        SCORE_MIN,
    );
    assert_locate_score("", "–ø—Ä–æ–ø–∏—Å–Ω–∞—è –ë–£–ö–í–ê", SCORE_MIN);
    assert_locate_score("", "a", SCORE_MIN);
    assert_locate_score("", "4561", SCORE_MIN);
}

#[test]
fn locate_gaps() {
    assert_locate_score("a", "*a", Score::Finite(SCORE_GAP_LEADING));
    assert_locate_score("a", "*ba", Score::Finite(SCORE_GAP_LEADING * 2));
    assert_locate_score(
        "a",
        "**a*",
        Score::Finite(SCORE_GAP_LEADING * 2 + SCORE_GAP_TRAILING),
    );
    assert_locate_score(
        "a",
        "**a**",
        Score::Finite(SCORE_GAP_LEADING * 2 + SCORE_GAP_TRAILING * 2),
    );
    assert_locate_score(
        "aa",
        "**aa‚ô∫*",
        Score::Finite(SCORE_GAP_LEADING * 2 + SCORE_MATCH_CONSECUTIVE + SCORE_GAP_TRAILING * 4),
    );
    assert_locate_score(
        "ab",
        "**a-b‚ô∫*",
        Score::Finite(
            SCORE_GAP_LEADING * 2 + SCORE_GAP_INNER + SCORE_MATCH_WORD + SCORE_GAP_TRAILING * 4,
        ),
    );
    assert_locate_score(
        "aa",
        "**a‚ô∫a**",
        Score::Finite(SCORE_GAP_LEADING * 2 + SCORE_GAP_INNER * 3 + SCORE_GAP_TRAILING * 2),
    );
}

#[test]
fn locate_consecutive() {
    assert_locate_score(
        "aa",
        "*aa",
        Score::Finite(SCORE_GAP_LEADING + SCORE_MATCH_CONSECUTIVE),
    );
    assert_locate_score(
        "aaa",
        "‚ô´aaa",
        Score::Finite(SCORE_GAP_LEADING * 3 + SCORE_MATCH_CONSECUTIVE * 2),
    );
    assert_locate_score(
        "aaa",
        "*a*aa",
        Score::Finite(SCORE_GAP_LEADING + SCORE_GAP_INNER + SCORE_MATCH_CONSECUTIVE),
    );
}

#[test]
fn locate_slash() {
    assert_locate_score("a", "/a", Score::Finite(SCORE_GAP_LEADING + SCORE_MATCH_SLASH));
    assert_locate_score(
        "a",
        "*/a",
        Score::Finite(SCORE_GAP_LEADING * 2 + SCORE_MATCH_SLASH),
    );
    assert_locate_score(
        "aa",
        "a/aa",
        Score::Finite(SCORE_GAP_LEADING * 2 + SCORE_MATCH_SLASH + SCORE_MATCH_CONSECUTIVE),
    );
}

#[test]
fn locate_capital() {
    assert_locate_score("a", "bA", Score::Finite(SCORE_GAP_LEADING + SCORE_MATCH_CAPITAL));
    assert_locate_score(
        "a",
        "baA",
        Score::Finite(SCORE_GAP_LEADING * 2 + SCORE_MATCH_CAPITAL),
    );
    assert_locate_score(
        "aa",
        "üòûaAa",
        Score::Finite(SCORE_GAP_LEADING * 4 + SCORE_MATCH_CAPITAL + SCORE_MATCH_CONSECUTIVE),
    );
}

#[test]
fn locate_dot() {
    assert_locate_score("a", ".a", Score::Finite(SCORE_GAP_LEADING + SCORE_MATCH_DOT));
    assert_locate_score(
        "a",
        "*a.a",
        Score::Finite(SCORE_GAP_LEADING * 3 + SCORE_MATCH_DOT),
    );
    assert_locate_score(
        "a",
        "‚ô´a.a",
        Score::Finite(SCORE_GAP_LEADING * 5 + SCORE_MATCH_DOT),
    );
}

#[test]
fn locate_exact_sets_every_bit() {
    let result = locate("query", "query");
    assert_eq!(SCORE_MAX, result.score);
    assert_eq!(5, result.match_mask.len());
    for j in 0..5 {
        assert_eq!(Some(true), result.match_mask.get(j));
    }
}

#[test]
fn locate_no_match_clears_every_bit() {
    let result = locate("x", "abc");
    assert_eq!(SCORE_MIN, result.score);
    assert_eq!(3, result.match_mask.len());
    for j in 0..3 {
        assert_eq!(Some(false), result.match_mask.get(j));
    }
}

#[test]
fn locate_marks_single_match() {
    let result = locate("a", "*a");
    assert_eq!(Some(false), result.match_mask.get(0));
    assert_eq!(Some(true), result.match_mask.get(1));
}

#[test]
fn locate_mask_spells_query() {
    let candidate = "app/models/order";
    let result = locate("amor", candidate);
    assert!(matches!(result.score, Score::Finite(_)));
    assert_eq!(candidate.chars().count(), result.match_mask.len());
    let marked: String = candidate
        .chars()
        .zip(result.match_mask.iter())
        .filter(|(_, bit)| *bit)
        .map(|(ch, _)| ch)
        .collect();
    assert_eq!("amor", marked);
}

#[test]
fn locate_mask_folds_case() {
    let candidate = "MyOwnRange";
    let result = locate("mor", candidate);
    assert!(matches!(result.score, Score::Finite(_)));
    let marked: String = candidate
        .chars()
        .zip(result.match_mask.iter())
        .filter(|(_, bit)| *bit)
        .map(|(ch, _)| ch.to_lowercase().next().unwrap())
        .collect();
    assert_eq!("mor", marked);
}
