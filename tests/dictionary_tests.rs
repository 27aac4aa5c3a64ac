use crossword::dictionary::{Dictionary, SparseWord};
use crossword::MAX_WORD_LEN;

const WORDS: &[&str] = &[
    "act", "ant", "art", "apt", "axe", "adept", "admit", "adopt", "adult", "afoot", "aglet",
    "alert", "allot", "angst", "avert", "await", "ascot", "axt", "azt", "zaratite", "zeolites",
    "zappy", "zesty", "zincy", "zingy", "zinky", "zippy", "zloty", "zebra", "zonal",
];

fn dictionary() -> Dictionary {
    let mut dictionary = Dictionary::new(MAX_WORD_LEN);
    for word in WORDS {
        dictionary.insert(word.to_string());
    }
    dictionary
}

#[test]
fn suggest_one() {
    let dictionary = dictionary();
    let suggestions =
        dictionary.suggest_words(SparseWord::new(vec![Some('A'), None, Some('T')]), 1);
    assert_eq!(suggestions.len(), 1);
    let suggestions =
        dictionary.suggest_words(SparseWord::new(vec![Some('A'), Some('C'), Some('T')]), 1);
    assert_eq!(suggestions, vec!["act"]);
}

#[test]
fn suggest_ten() {
    let dictionary = dictionary();
    let suggestions = dictionary.suggest_words(
        SparseWord::new(vec![Some('A'), None, None, None, Some('T')]),
        10,
    );
    assert_eq!(suggestions.len(), 10);
}

#[test]
fn suggest_impossible() {
    let dictionary = dictionary();
    let suggestions = dictionary.suggest_words(
        SparseWord::new(vec![Some('A'), Some('X'), Some('Z'), None, Some('T')]),
        10,
    );
    assert_eq!(suggestions.len(), 0);
}

#[test]
fn suggest_z_words() {
    let dictionary = dictionary();
    let mut suggestions = dictionary.suggest_words(
        SparseWord::new(vec![
            Some('Z'),
            None,
            None,
            None,
            Some('T'),
            None,
            None,
            Some('E'),
        ]),
        10,
    );
    suggestions.sort();
    assert_eq!(suggestions, vec!["zaratite"]);

    let mut suggestions = dictionary.suggest_words(
        SparseWord::new(vec![Some('Z'), None, None, None, Some('Y')]),
        10,
    );
    suggestions.sort();
    assert_eq!(
        suggestions,
        vec!["zappy", "zesty", "zincy", "zingy", "zinky", "zippy", "zloty"]
    );
}

#[test]
fn suggest_a_dot_t_matches_act() {
    let mut dictionary = Dictionary::new(MAX_WORD_LEN);
    dictionary.insert("act".to_string());
    let suggestions =
        dictionary.suggest_words(SparseWord::new(vec![Some('A'), None, Some('T')]), 5);
    assert_eq!(suggestions, vec!["act"]);
}

#[test]
fn suggest_stricter_pattern_finds_nothing() {
    let mut dictionary = Dictionary::new(MAX_WORD_LEN);
    dictionary.insert("axt".to_string());
    dictionary.insert("azt".to_string());
    let suggestions = dictionary.suggest_words(
        SparseWord::new(vec![Some('A'), None, Some('Z'), None, Some('T')]),
        10,
    );
    assert_eq!(suggestions.len(), 0);
}

#[test]
fn suggest_with_zero_count_is_empty() {
    let dictionary = dictionary();
    let suggestions =
        dictionary.suggest_words(SparseWord::new(vec![Some('A'), None, Some('T')]), 0);
    assert!(suggestions.is_empty());
}

#[test]
fn suggest_returns_every_match_when_fewer_than_count() {
    let dictionary = dictionary();
    let mut suggestions =
        dictionary.suggest_words(SparseWord::new(vec![Some('a'), None, Some('t')]), 10);
    suggestions.sort();
    assert_eq!(suggestions, vec!["act", "ant", "apt", "art", "axt", "azt"]);
}

#[test]
fn insert_reports_new_words_and_drops_long_ones() {
    let mut dictionary = Dictionary::new(4);
    assert!(dictionary.insert("cat".to_string()));
    assert!(!dictionary.insert("cat".to_string()));
    assert!(!dictionary.insert("kite".to_string()));
    assert!(dictionary.is_valid("cat"));
    assert!(!dictionary.is_valid("kite"));
    assert!(!dictionary.is_valid("Cat"));
    assert!(!dictionary.is_valid("dog"));
}

#[test]
fn matches_is_case_insensitive() {
    let pattern = SparseWord::new(vec![Some('a'), None, Some('T')]);
    assert!(pattern.matches("ACT"));
    assert!(pattern.matches("aXt"));
    assert!(!pattern.matches("acx"));
}

#[test]
fn matches_needs_exact_length() {
    let pattern = SparseWord::new(vec![Some('A'), None, Some('T')]);
    assert!(!pattern.matches("acts"));
    assert!(!pattern.matches("xact"));
    assert!(!pattern.matches("at"));
    assert_eq!(pattern.len(), 3);
}

#[test]
fn sparse_words_compare_by_pattern() {
    assert!(SparseWord::new(vec![Some('A'), None]) == SparseWord::new(vec![Some('A'), None]));
    assert!(SparseWord::new(vec![Some('A'), None]) != SparseWord::new(vec![Some('A'), Some('B')]));
    assert!(SparseWord::new(vec![Some('A')]) != SparseWord::new(vec![Some('A'), None]));
}

#[test]
fn matches_folds_case_beyond_ascii() {
    let pattern = SparseWord::new(vec![Some('É'), None, Some('σ')]);
    assert!(pattern.matches("éTΣ"));
    assert!(pattern.matches("ÉxΣ"));
    assert!(!pattern.matches("exσ"));
}

#[test]
fn suggest_pattern_as_long_as_the_limit_is_empty() {
    let mut dictionary = Dictionary::new(3);
    dictionary.insert("ab".to_string());
    let suggestions = dictionary.suggest_words(SparseWord::new(vec![None, None, None]), 5);
    assert!(suggestions.is_empty());
    let suggestions = dictionary.suggest_words(SparseWord::new(vec![None, None]), 5);
    assert_eq!(suggestions, vec!["ab"]);
}
