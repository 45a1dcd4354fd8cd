use dyna::byte_index::{token_document_counts, IntoText, Tokenizer};
use dyna::counts::WordCounts;
use dyna::utils::{source_kind, SourceKind};
use std::path::PathBuf;

struct Fixed(Option<String>);

impl IntoText for Fixed {
    fn into_text(&mut self) -> Option<String> {
        self.0.clone()
    }

    fn get_path(&self) -> PathBuf {
        PathBuf::from("dir/file.txt")
    }
}

fn tokenizer(s: &str) -> Tokenizer {
    Tokenizer::from(&mut Fixed(Some(s.to_string()))).unwrap()
}

#[test]
fn from_takes_bytes_and_path() {
    let t = tokenizer("h\u{e9}");
    assert_eq!(t.name, "dir/file.txt");
    assert_eq!(t.content, vec![b'h', 0xc3, 0xa9]);
    assert!(Tokenizer::from(&mut Fixed(None)).is_err());
}

#[test]
fn peek_and_consume() {
    let mut t = tokenizer("abc");
    assert_eq!(t.peek(None), Some(b'b'));
    assert_eq!(t.peek(Some(2)), Some(b'c'));
    assert_eq!(t.peek(Some(3)), None);
    assert_eq!(t.peek(Some(0)), Some(b'a'));
    t.consume();
    assert_eq!(t.peek(Some(0)), Some(b'b'));
    t.consume();
    t.consume();
    assert_eq!(t.peek(Some(0)), None);
}

#[test]
fn skip_whitespace_stops_at_a_token() {
    let mut t = tokenizer(" \t\nab");
    t.skip_whitespace();
    assert_eq!(t.peek(Some(0)), Some(b'a'));
}

#[test]
fn byte_tokens_end_before_whitespace_and_around_punctuation() {
    assert_eq!(tokenizer("ab cd").into_tokens(), vec!["ab"]);
    assert_eq!(tokenizer("a,b ").into_tokens(), vec!["a", ",", "b"]);
    assert_eq!(tokenizer("  x y z ").into_tokens(), vec!["x", "y", "z"]);
    assert_eq!(tokenizer("").into_tokens(), Vec::<String>::new());
}

#[test]
fn next_token_reads_bytes_as_characters() {
    let mut t = tokenizer("\u{e9} ");
    assert_eq!(t.next_token(), Some("\u{c3}\u{a9}".to_string()));
    assert_eq!(t.next_token(), None);
}

#[test]
fn directory_token_counts_start_at_one() {
    let mut a = WordCounts::new();
    a.add("x".to_string(), 3);
    a.add("y".to_string(), 1);
    let mut b = WordCounts::new();
    b.add("x".to_string(), 2);
    b.add("z".to_string(), 5);
    let c = token_document_counts(&vec![a, b]).unwrap();
    assert_eq!(c.get("x"), Some(3));
    assert_eq!(c.get("y"), Some(1));
    assert_eq!(c.get("z"), Some(1));
}

#[test]
fn directory_token_counts_refuse_overflow() {
    let mut a = WordCounts::new();
    a.add("x".to_string(), 1);
    let mut b = WordCounts::new();
    b.add("x".to_string(), 2147483647);
    assert!(token_document_counts(&vec![a, b]).is_none());
}

#[test]
fn sources_by_extension() {
    assert!(matches!(source_kind("pdf"), Some(SourceKind::Pdf)));
    assert!(matches!(source_kind("txt"), Some(SourceKind::Text)));
    assert!(source_kind("docx").is_none());
}

#[test]
fn from_text_takes_the_utf8_bytes() {
    let mut t = Tokenizer::from_text("n".to_string(), "a\u{e9} b");
    assert_eq!(t.name, "n");
    assert_eq!(t.content, vec![b'a', 0xc3, 0xa9, b' ', b'b']);
    assert_eq!(t.peek(Some(0)), Some(b'a'));
    assert_eq!(t.next_token(), Some("a\u{c3}\u{a9}".to_string()));
}

#[test]
fn tokens_are_never_empty_and_hold_no_whitespace() {
    let mut t = tokenizer("  alpha,beta \t gamma\n(delta) x");
    let mut seen = Vec::new();
    while let Some(tok) = t.next_token() {
        assert!(!tok.is_empty());
        assert!(!tok.chars().any(|c| c.is_ascii_whitespace()));
        seen.push(tok);
    }
    assert_eq!(seen, vec!["alpha", ",", "beta", "gamma", "(", "delta", ")"]);
    assert_eq!(t.next_token(), None);
    assert_eq!(t.next_token(), None);
}
