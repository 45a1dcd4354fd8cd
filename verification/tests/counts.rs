use dyna::counts::WordCounts;
use dyna::utils::{term_matches, token_counts};

#[test]
fn add_then_get_reads_the_sum() {
    let mut c = WordCounts::new();
    assert_eq!(c.get("a"), None);
    c.add("a".to_string(), 2);
    c.add("b".to_string(), 1);
    c.add("a".to_string(), 3);
    assert_eq!(c.get("a"), Some(5));
    assert_eq!(c.get("b"), Some(1));
    assert_eq!(c.get("c"), None);
    assert_eq!(c.len(), 2);
}

#[test]
fn pairs_keep_first_insertion_order() {
    let mut c = WordCounts::new();
    c.add("x".to_string(), 1);
    c.add("y".to_string(), 4);
    c.add("x".to_string(), 1);
    assert_eq!(c.pairs(), vec![("x".to_string(), 2), ("y".to_string(), 4)]);
}

#[test]
fn token_counts_tally_each_token() {
    let tokens: Vec<String> = ["a", "b", "a", "c", "a"].iter().map(|s| s.to_string()).collect();
    let c = token_counts(&tokens);
    assert_eq!(c.get("a"), Some(3));
    assert_eq!(c.get("b"), Some(1));
    assert_eq!(c.get("c"), Some(1));
    assert_eq!(c.len(), 3);
    assert_eq!(token_counts(&Vec::new()).len(), 0);
}

#[test]
fn add_changes_only_the_count_added_to() {
    let mut c = WordCounts::new();
    c.add("a".to_string(), 2);
    c.add("b".to_string(), 7);
    c.add("a".to_string(), 4);
    assert_eq!(c.get("a"), Some(6));
    assert_eq!(c.get("b"), Some(7));
    c.add("c".to_string(), 1);
    assert_eq!(c.get("a"), Some(6));
    assert_eq!(c.get("b"), Some(7));
    assert_eq!(c.get("c"), Some(1));
}

fn counts_of(words: &[(&str, usize)]) -> WordCounts {
    let mut c = WordCounts::new();
    for (w, n) in words {
        c.add(w.to_string(), *n);
    }
    c
}

#[test]
fn term_matches_lists_document_and_word() {
    let docs = vec![counts_of(&[("rust", 2), ("code", 1)]), counts_of(&[("code", 3)]), WordCounts::new()];
    assert_eq!(
        term_matches(" code  rust nothing code", &docs),
        vec![
            (0, "code".to_string()),
            (0, "rust".to_string()),
            (0, "code".to_string()),
            (1, "code".to_string()),
            (1, "code".to_string()),
        ]
    );
    assert!(term_matches("   ", &docs).is_empty());
    assert!(term_matches("Rust", &docs).is_empty());
}
