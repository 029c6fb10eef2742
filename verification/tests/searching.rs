use fzyr::calculate_parallelism;
use fzyr::config::SCORE_MIN;
use fzyr::search_score;
use fzyr::search_serial;

fn strings(words: &[&str]) -> Vec<String> {
    words.iter().map(|w| w.to_string()).collect()
}

#[test]
fn parallelism_ramp() {
    assert_eq!(1, calculate_parallelism(0, 0, false));
    assert_eq!(1, calculate_parallelism(1, 0, false));
    assert_eq!(1, calculate_parallelism(0, 1, false));
    assert_eq!(1, calculate_parallelism(1, 1, false));

    assert_eq!(1, calculate_parallelism(2, usize::MAX, false));
    assert_eq!(1, calculate_parallelism(3, 4, false));
    assert_eq!(1, calculate_parallelism(4, 2, false));

    for n in 5..9 {
        assert_eq!(2, calculate_parallelism(n, usize::MAX, false));
        assert_eq!(1, calculate_parallelism(n, usize::MAX, true));
    }

    for n in 9..13 {
        assert_eq!(3, calculate_parallelism(n, usize::MAX, false));
        assert_eq!(1, calculate_parallelism(n, usize::MAX, true));
    }

    for n in 13..33 {
        assert_eq!(4, calculate_parallelism(n, usize::MAX, false));
        assert_eq!(1, calculate_parallelism(n, usize::MAX, true));
    }

    for n in 1..10_000 {
        assert!(calculate_parallelism(n, 12, false) <= 12);
        assert_eq!(1, calculate_parallelism(n, 12, true));
    }
}

fn search_empty_with_parallelism(parallelism: usize) {
    let rs = search_score("", &Vec::new(), parallelism);
    assert_eq!(0, rs.len());

    let rs = search_score("test", &Vec::new(), parallelism);
    assert_eq!(0, rs.len());
}

fn search_with_parallelism(parallelism: usize) {
    search_empty_with_parallelism(parallelism);

    let rs = search_score("", &strings(&["tags"]), parallelism);
    assert_eq!(1, rs.len());
    assert_eq!(0, rs[0].candidate_index);

    let rs = search_score("♺", &strings(&["ñîƹ♺à"]), parallelism);
    assert_eq!(1, rs.len());
    assert_eq!(0, rs[0].candidate_index);

    let cs = strings(&["tags", "test"]);

    let rs = search_score("", &cs, parallelism);
    assert_eq!(2, rs.len());

    let rs = search_score("te", &cs, parallelism);
    assert_eq!(1, rs.len());
    assert_eq!(1, rs[0].candidate_index);

    let rs = search_score("foobar", &cs, parallelism);
    assert_eq!(0, rs.len());

    let rs = search_score("ts", &cs, parallelism);
    assert_eq!(2, rs.len());
    assert_eq!(
        vec![1, 0],
        rs.iter().map(|r| r.candidate_index).collect::<Vec<_>>()
    );
}

fn search_med_parallelism(parallelism: usize) {
    let cs = strings(&[
        "one",
        "two",
        "three",
        "four",
        "five",
        "six",
        "seven",
        "eight",
        "nine",
        "ten",
        "eleven",
        "twelve",
        "thirteen",
        "fourteen",
        "fifteen",
        "sixteen",
        "seventeen",
        "eighteen",
        "nineteen",
        "twenty",
    ]);

    let rs = search_score("", &cs, parallelism);
    assert_eq!(cs.len(), rs.len());

    let rs = search_score("teen", &cs, parallelism);
    assert_eq!(7, rs.len());
    for r in rs {
        assert_eq!(
            "neet",
            cs[r.candidate_index].chars().rev().take(4).collect::<String>()
        );
    }

    let rs = search_score("tee", &cs, parallelism);
    assert_eq!(9, rs.len());
    assert_eq!(
        "neet",
        cs[rs[0].candidate_index].chars().rev().take(4).collect::<String>()
    );

    let rs = search_score("six", &cs, parallelism);
    assert_eq!("six", cs[rs[0].candidate_index]);
}

fn search_large_parallelism(parallelism: usize) {
    let n = 100_000;
    let mut candidates = Vec::with_capacity(n);
    for i in 0..n {
        candidates.push(format!("{}", i));
    }

    let rs = search_score("12", &candidates, parallelism);

    // This has been precalculated
    // e.g. via `$ seq 0 99999 | grep '.*1.*2.*' | wc -l`
    assert_eq!(8146, rs.len());
    assert_eq!("12", candidates[rs[0].candidate_index]);
}

#[test]
fn search_single() {
    search_with_parallelism(0);
    search_with_parallelism(1);
    search_large_parallelism(1);
}

#[test]
fn search_double() {
    search_with_parallelism(2);
    search_large_parallelism(2);
}

#[test]
fn search_quad() {
    search_med_parallelism(4);
    search_large_parallelism(4);
}

#[test]
fn search_quin() {
    search_med_parallelism(4);
    search_large_parallelism(5);
}

#[test]
fn search_large() {
    search_med_parallelism(4);
    search_large_parallelism(16);
}

#[test]
fn search_serial_empty_query_keeps_all() {
    let rs = search_serial("", &strings(&["tags"]));
    assert_eq!(1, rs.len());
    assert_eq!(0, rs[0].candidate_index);
    assert_eq!(SCORE_MIN, rs[0].score);
}

#[test]
fn search_serial_sorts_and_filters() {
    let cs = strings(&["tags", "test", "toast", "nope"]);
    let rs = search_serial("ts", &cs);
    assert_eq!(3, rs.len());
    for w in rs.windows(2) {
        // Descending score; candidate order on ties.
        assert!(
            w[1].score.lt(&w[0].score)
                || (w[0].score == w[1].score && w[0].candidate_index < w[1].candidate_index)
        );
    }
    for r in &rs {
        assert_ne!(3, r.candidate_index);
    }
}

#[test]
fn parallel_agrees_with_serial() {
    let cs = strings(&[
        "one", "two", "three", "four", "five", "six", "seven", "eight", "nine", "ten", "eleven",
        "twelve", "thirteen", "fourteen", "fifteen", "sixteen", "seventeen", "eighteen",
        "nineteen", "twenty",
    ]);
    let serial = search_serial("teen", &cs);
    for parallelism in 0..8 {
        assert_eq!(serial, search_score("teen", &cs, parallelism));
    }
    let serial = search_serial("e", &cs);
    for parallelism in 0..8 {
        assert_eq!(serial, search_score("e", &cs, parallelism));
    }
}

#[test]
fn search_twice_returns_same_results() {
    let cs = strings(&["tags", "test", "toast", "nope"]);
    assert_eq!(search_serial("ts", &cs), search_serial("ts", &cs));
    assert_eq!(search_score("ts", &cs, 3), search_score("ts", &cs, 3));
}
