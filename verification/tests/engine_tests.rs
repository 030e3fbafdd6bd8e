use fuzzy_search::distance::calc_dist_bytes;
use fuzzy_search::engine::search;
use fuzzy_search::engine::DISTANCE_THRESHOLD;
use fuzzy_search::engine::RESULT_LIMIT;
use fuzzy_search::matcher::fuzzy_match;
use fuzzy_search::matcher::is_blank_line;

fn corpus(names: &[&str]) -> Vec<Vec<u8>> {
    names.iter().map(|s| s.as_bytes().to_vec()).collect()
}

#[test]
fn matcher_multi_word_takes_token_minimum() {
    let q: &[u8] = b"Luca";
    let d_full = fuzzy_match(q, b"Luca Bianchi");
    let d_first = calc_dist_bytes(q, b"Luca");
    let d_last = calc_dist_bytes(q, b"Bianchi");
    assert_eq!(d_full, d_first.min(d_last));
    assert_eq!(d_full, 0);
}

#[test]
fn matcher_single_word_is_plain_distance() {
    let q: &[u8] = b"Anne";
    assert_eq!(fuzzy_match(q, b"Anna"), calc_dist_bytes(q, b"Anna"));
}

#[test]
fn matcher_repeated_separators_make_no_empty_tokens() {
    let q: &[u8] = b"Rossi";
    assert_eq!(fuzzy_match(q, b"Mario   Rossi"), 0);
    assert_eq!(fuzzy_match(q, b" \t Rossi \n"), 0);
}

#[test]
fn matcher_all_whitespace_candidate_is_never_close() {
    assert_eq!(fuzzy_match(b"a", b"   "), usize::MAX);
}

#[test]
fn blank_lines_are_recognised() {
    assert!(is_blank_line(b""));
    assert!(is_blank_line(b" \t\r\n"));
    assert!(!is_blank_line(b" a "));
}

#[test]
fn search_mario_finds_mario_rossi_first() {
    let names = corpus(&["Mario Rossi", "Luca Bianchi"]);
    let r = search(b"Mario", &names, DISTANCE_THRESHOLD, RESULT_LIMIT);
    assert!(!r.results.is_empty());
    assert_eq!(r.results[0].name, b"Mario Rossi".to_vec());
    assert_eq!(r.results[0].distance, 0);
}

#[test]
fn search_anne_finds_anna_at_distance_one() {
    let names = corpus(&["Anna"]);
    let r = search(b"Anne", &names, DISTANCE_THRESHOLD, RESULT_LIMIT);
    assert_eq!(r.results.len(), 1);
    assert_eq!(r.results[0].name, b"Anna".to_vec());
    assert_eq!(r.results[0].distance, 1);
}

#[test]
fn search_far_query_filters_everything() {
    assert!(calc_dist_bytes(b"abc", b"Xavier") >= DISTANCE_THRESHOLD);
    assert!(calc_dist_bytes(b"abc", b"Zorro") >= DISTANCE_THRESHOLD);
    let names = corpus(&["Xavier Zorro"]);
    let r = search(b"abc", &names, DISTANCE_THRESHOLD, RESULT_LIMIT);
    assert!(r.results.is_empty());
}

#[test]
fn search_large_corpus_with_no_match_is_empty() {
    let mut names: Vec<Vec<u8>> = Vec::new();
    for i in 0..1000 {
        names.push(format!("Candidate Number {}", i).into_bytes());
    }
    let r = search(b"qqqqqqqq", &names, DISTANCE_THRESHOLD, RESULT_LIMIT);
    assert!(r.results.is_empty());
}

#[test]
fn search_results_are_bounded_filtered_and_sorted() {
    let mut names = corpus(&[
        "abce", "abcd", "abcf", "zzzzzzzz", "abcg", "abch", "abci", "abcj", "abck", "abcl",
        "abcm", "abcn",
    ]);
    names.push(b"abco".to_vec());
    let r = search(b"abcd", &names, DISTANCE_THRESHOLD, RESULT_LIMIT);
    assert!(r.results.len() <= RESULT_LIMIT);
    assert_eq!(r.results.len(), RESULT_LIMIT);
    for entry in &r.results {
        assert!(entry.distance < DISTANCE_THRESHOLD);
    }
    for w in r.results.windows(2) {
        assert!(w[0].distance <= w[1].distance);
    }
    // The far candidate was dropped by the threshold.
    assert!(r.results.iter().all(|e| e.name != b"zzzzzzzz".to_vec()));
    // The exact match ranks first even though the corpus lists it second.
    assert_eq!(r.results[0].name, b"abcd".to_vec());
    assert_eq!(r.results[0].distance, 0);
    // Equal distances keep corpus order: "abce" came before "abcf".
    let pos_e = r.results.iter().position(|e| e.name == b"abce".to_vec());
    let pos_f = r.results.iter().position(|e| e.name == b"abcf".to_vec());
    if let (Some(pe), Some(pf)) = (pos_e, pos_f) {
        assert!(pe < pf);
    }
}

#[test]
fn search_twice_gives_identical_results() {
    let names = corpus(&["Mario Rossi", "Luca Bianchi", "Maria Rosso", "Anna"]);
    let r1 = search(b"Mario", &names, DISTANCE_THRESHOLD, RESULT_LIMIT);
    let r2 = search(b"Mario", &names, DISTANCE_THRESHOLD, RESULT_LIMIT);
    assert_eq!(r1.results.len(), r2.results.len());
    for (a, b) in r1.results.iter().zip(r2.results.iter()) {
        assert_eq!(a.name, b.name);
        assert_eq!(a.distance, b.distance);
    }
}

#[test]
fn search_empty_query_is_legal() {
    let names = corpus(&["ab", "abcd"]);
    let r = search(b"", &names, DISTANCE_THRESHOLD, RESULT_LIMIT);
    // The empty query is two edits from "ab" and four from "abcd".
    assert_eq!(r.results.len(), 1);
    assert_eq!(r.results[0].name, b"ab".to_vec());
    assert_eq!(r.results[0].distance, 2);
}

#[test]
fn search_empty_corpus_is_empty() {
    let names: Vec<Vec<u8>> = Vec::new();
    let r = search(b"Mario", &names, DISTANCE_THRESHOLD, RESULT_LIMIT);
    assert!(r.results.is_empty());
}
