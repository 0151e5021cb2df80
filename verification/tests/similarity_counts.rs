use wizard::similarity::{
    candidate_graphemes, common_prefix_length, jaro_counts, jaro_winkler_counts_of,
    JaroWinklerCounts, PreparedQuery,
};
use wizard::Algorithm;

/// The Jaro-Winkler score formed from the library's counts, as the program
/// forms it.
fn score(counts: &JaroWinklerCounts) -> f64 {
    let jaro = if counts.jaro.identical {
        1.0
    } else if counts.first_len == 0 || counts.second_len == 0 || counts.jaro.matches == 0 {
        0.0
    } else {
        let m = counts.jaro.matches as f64;
        let t = counts.jaro.mismatched as f64 / 2.0;
        (m / counts.first_len as f64 + m / counts.second_len as f64 + (m - t) / m) / 3.0
    };
    if jaro > 0.7 {
        jaro + counts.prefix as f64 * 0.1 * (1.0 - jaro)
    } else {
        jaro
    }
}

fn jaro_winkler(first: &str, second: &str) -> f64 {
    score(&jaro_winkler_counts_of(first, second))
}

fn strings(items: &[&str]) -> Vec<String> {
    items.iter().map(|item| item.to_string()).collect()
}

#[test]
fn preserves_representative_jaro_winkler_scores() {
    assert_eq!(jaro_winkler("hello", "hallo"), 0.88);
    assert_eq!(jaro_winkler("martha", "marhta"), 0.9611111111111111);
    assert_eq!(jaro_winkler("", ""), 1.0);
    assert_eq!(jaro_winkler("a", "b"), 0.0);
    assert_eq!(jaro_winkler("SpellCheck", "spellcheck"), 1.0);
}

#[test]
fn applies_winkler_boost_only_to_strong_matches() {
    let counts = jaro_winkler_counts_of("abxxxx", "abyyyy");
    assert_eq!(counts.jaro.matches, 2);
    assert_eq!(counts.prefix, 2);
    let m = 2.0;
    let raw = (m / 6.0 + m / 6.0 + (m - 0.0) / m) / 3.0;
    assert!(raw < 0.7);
    assert_eq!(jaro_winkler("abxxxx", "abyyyy"), raw);
}

#[test]
fn treats_extended_grapheme_clusters_as_one_character() {
    let counts = jaro_winkler_counts_of("👩‍🔬abc", "👩‍🔬abd");
    assert_eq!(counts.first_len, 4);
    assert_eq!(counts.second_len, 4);
    assert_eq!(counts.jaro.matches, 3);
    assert_eq!(counts.prefix, 3);
    let raw = (3.0 / 4.0 + 3.0 / 4.0 + 1.0) / 3.0;
    let expected = raw + 3.0 * 0.1 * (1.0 - raw);
    assert!((jaro_winkler("👩‍🔬abc", "👩‍🔬abd") - expected).abs() < 1e-12);
}

#[test]
fn jaro_counts_martha() {
    let counts = jaro_counts(&strings(&["m", "a", "r", "t", "h", "a"]), &strings(&["m", "a", "r", "h", "t", "a"]));
    assert!(!counts.identical);
    assert_eq!(counts.matches, 6);
    assert_eq!(counts.mismatched, 2);
}

#[test]
fn jaro_counts_respect_the_match_window() {
    // Window: max(4, 4) / 2 - 1 = 1, so `a` (0) and `a` (3) are too far apart.
    let counts = jaro_counts(&strings(&["a", "b", "c", "d"]), &strings(&["x", "y", "z", "a"]));
    assert_eq!(counts.matches, 0);
    assert_eq!(counts.mismatched, 0);
    let same = jaro_counts(&strings(&["a", "b"]), &strings(&["a", "b"]));
    assert!(same.identical);
    assert_eq!(same.matches, 2);
}

#[test]
fn jaro_counts_each_second_grapheme_matches_once() {
    // Window 0 for two graphemes: both `a`s of the first match position by position only.
    let counts = jaro_counts(&strings(&["a", "a"]), &strings(&["a", "b"]));
    assert_eq!(counts.matches, 1);
    let counts = jaro_counts(&strings(&["a", "a", "a"]), &strings(&["a"]));
    assert_eq!(counts.matches, 1);
}

#[test]
fn common_prefix_is_capped() {
    let a = strings(&["s", "p", "e", "l", "l"]);
    let b = strings(&["s", "p", "e", "l", "c"]);
    assert_eq!(common_prefix_length(&a, &b, 4), 4);
    assert_eq!(common_prefix_length(&a, &b, 10), 4);
    assert_eq!(common_prefix_length(&a, &a, 10), 5);
    assert_eq!(common_prefix_length(&a, &strings(&["x"]), 4), 0);
}

#[test]
fn prepared_query_is_lower_case_graphemes() {
    let prepared = PreparedQuery::new("SpElL", Algorithm::Levenshtein);
    assert_eq!(prepared.algorithm(), Algorithm::Levenshtein);
    assert_eq!(prepared.normalized(), "spell");
    assert_eq!(prepared.graphemes(), &strings(&["s", "p", "e", "l", "l"]));
    assert_eq!(candidate_graphemes("CAFÉ"), strings(&["c", "a", "f", "é"]));
    let counts = prepared.jaro_winkler_counts("SPELL");
    assert!(counts.jaro.identical);
}

#[test]
fn prepared_clusters_spell_the_lower_case_query() {
    let prepared = PreparedQuery::new("Cafe\u{301}👩‍🔬", Algorithm::JaroWinkler);
    assert_eq!(prepared.graphemes().concat(), prepared.normalized());
    assert_eq!(prepared.graphemes().len(), 5);
    assert!(prepared.graphemes().iter().all(|g| !g.is_empty()));
}
