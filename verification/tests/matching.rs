use fzyr::has_match;

#[test]
fn exact_match() {
    assert!(has_match("query", "query"));
    assert!(has_match(
        "156aufsdn926f9=sdk/~']",
        "156aufsdn926f9=sdk/~']"
    ));
    assert!(has_match(
        "üò®∆î¬∑¬Æx¬Ø√çƒû.…Ö∆Å√±√Æ∆π‚ô∫√†w√ë‚òÜ«àüòû¬¥∆ô¬∫√ë‚ô´",
        "üò®∆î¬∑¬Æx¬Ø√çƒû.…Ö∆Å√±√Æ∆π‚ô∫√†w√ë‚òÜ«àüòû¬¥∆ô¬∫√ë‚ô´"
    ));
}

#[test]
fn paratial_match() {
    assert!(has_match("ca", "candidate"));
    assert!(has_match("cat", "candidate"));
    assert!(has_match("ndt", "candidate"));
    assert!(has_match("nate", "candidate"));
    assert!(has_match("56aufn92=sd/~']", "156aufsdn926f9=sdk/~']"));
    assert!(has_match(
        "üò®∆î¬∑¬Æx¬Ø√çƒû…Ö∆Å∆π‚ô∫√†‚òÜ«à¬¥∆ô√ë‚ô´",
        "üò®∆î¬∑¬Æx¬Ø√çƒû.…Ö∆Å√±√Æ∆π‚ô∫√†w√ë‚òÜ«àüòû¬¥∆ô¬∫√ë‚ô´"
    ));
}

#[test]
fn case_match() {
    assert!(has_match("QUERY", "query"));
    assert!(has_match("query", "QUERY"));
    assert!(has_match("QuEry", "query"));
    assert!(has_match("прописная буква", "ПРОПИСНАЯ БУКВА"))
}

#[test]
fn empty_match() {
    assert!(has_match("", ""));
    assert!(has_match("", "candidate"));
    assert!(has_match(
        "",
        "üò®∆î¬∑¬Æx¬Ø√çƒû.…Ö∆Å√±√Æ∆π‚ô∫√†w√ë‚òÜ«àüòû¬¥∆ô¬∫√ë‚ô´"
    ));
    assert!(has_match("", "–ø—Ä–æ–ø–∏—Å–Ω–∞—è –ë–£–ö–í–ê"));
    assert!(has_match("", "a"));
    assert!(has_match("", "4561"));
}

#[test]
fn bad_match() {
    assert!(!has_match("acb", "abc"));
    assert!(!has_match("a", ""));
    assert!(!has_match("abc", "def"));
    assert!(!has_match("üò®∆î¬∑¬Æx¬Ø√çƒû.…Ö", "5√π¬®»º‚ôï‚ò©‚ôò‚öÅ^"));
    assert!(!has_match(
        "–ø—Ä–æ–ø–∏—Å–Ω–∞—è –ë–£–ö–í–ê",
        "–ø—Ä–æ–ø–∏—Å–Ω–∞—è–ë–£–ö–í–ê"
    ));
    assert!(!has_match(
        "–ë–£–ö–í–ê –ø—Ä–æ–ø–∏—Å–Ω–∞—è",
        "–ø—Ä–æ–ø–∏—Å–Ω–∞—è –ë–£–ö–í–ê"
    ));
}
