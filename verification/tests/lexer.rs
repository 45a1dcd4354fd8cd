use dyna::lexer::Lexer;

fn chars(s: &str) -> Vec<char> {
    s.chars().collect()
}

fn tokens(s: &str) -> Vec<String> {
    let content = chars(s);
    let mut lexer = Lexer::new(&content);
    let mut out = Vec::new();
    while let Some(tok) = lexer.next_token() {
        out.push(tok.iter().collect::<String>());
    }
    out
}

#[test]
fn trim_drops_leading_ascii_whitespace() {
    let content = chars(" \t\n word ");
    let mut lexer = Lexer::new(&content);
    lexer.trim();
    assert_eq!(lexer.content.iter().collect::<String>(), "word ");
    lexer.trim();
    assert_eq!(lexer.content.iter().collect::<String>(), "word ");
}

#[test]
fn cut_takes_a_prefix_only_when_something_is_left() {
    let content = chars("abcdef");
    let mut lexer = Lexer::new(&content);
    let first = lexer.cut(2).unwrap();
    assert_eq!(first.iter().collect::<String>(), "ab");
    assert_eq!(lexer.content.iter().collect::<String>(), "cdef");
    assert!(lexer.cut(4).is_none());
    assert_eq!(lexer.content.iter().collect::<String>(), "cdef");
    assert!(lexer.cut(9).is_none());
}

#[test]
fn cut_at_stops_at_the_first_rejected_character() {
    let content = chars("aaab");
    let mut lexer = Lexer::new(&content);
    let tok = lexer.cut_at(|c| *c == 'a').unwrap();
    assert_eq!(tok.iter().collect::<String>(), "aaa");
    assert_eq!(lexer.content.iter().collect::<String>(), "b");
}

#[test]
fn cut_at_gives_nothing_when_every_character_is_accepted() {
    let content = chars("aaa");
    let mut lexer = Lexer::new(&content);
    assert!(lexer.cut_at(|c| *c == 'a').is_none());
    assert_eq!(lexer.content.len(), 3);
}

#[test]
fn numbers_words_and_punctuation_are_tokens() {
    assert_eq!(
        tokens("3.14 apples, pears."),
        vec!["3", ".", "14", "apples", ",", "pears", "."]
    );
}

#[test]
fn a_word_that_reaches_the_end_is_not_returned() {
    assert_eq!(tokens("hello world"), vec!["hello"]);
    assert_eq!(tokens("hello"), Vec::<String>::new());
    assert_eq!(tokens(""), Vec::<String>::new());
    assert_eq!(tokens("   "), Vec::<String>::new());
}

#[test]
fn other_characters_stop_the_lexer() {
    assert_eq!(tokens("a b \u{2014} c d "), vec!["a", "b"]);
}

#[test]
fn non_ascii_letters_and_digits_join_words() {
    assert_eq!(tokens("caf\u{e9} \u{0663}\u{0664} x"), vec!["caf\u{e9}", "\u{0663}\u{0664}"]);
}

#[test]
fn numbers_followed_by_letters_split() {
    assert_eq!(tokens("12ab cd"), vec!["12", "ab"]);
}

#[test]
fn ascii_character_classes_match_the_claimed_ones() {
    for b in 0u8..128 {
        let c = b as char;
        assert_eq!(c.is_numeric(), c.is_ascii_digit());
        assert_eq!(c.is_alphanumeric(), c.is_ascii_alphanumeric());
        if c.is_ascii_whitespace() {
            assert!(c.is_whitespace());
        }
    }
}

#[test]
fn tokens_collects_what_next_token_returns() {
    for text in ["hello, world 42! ", "  a1 b2 (c) x", "", "£ stops", "x+y=z."] {
        let content = chars(text);
        let all: Vec<String> = Lexer::new(&content)
            .tokens()
            .iter()
            .map(|t| t.iter().collect::<String>())
            .collect();
        assert_eq!(all, tokens(text));
    }
    let content = chars("one two, three ");
    let all: Vec<String> = Lexer::new(&content)
        .tokens()
        .iter()
        .map(|t| t.iter().collect::<String>())
        .collect();
    assert_eq!(all, vec!["one", "two", ",", "three"]);
}

#[test]
fn runs_follow_numeric_and_alphanumeric_characters() {
    assert_eq!(tokens("ab12 x"), vec!["ab12"]);
    assert_eq!(tokens("12ab x"), vec!["12", "ab"]);
    assert_eq!(tokens("\u{661}\u{662}\u{bd} x"), vec!["\u{661}\u{662}\u{bd}"]);
    for t in tokens("  mixed, words\t1.5 and\u{e9}t\u{e9} (x) end ") {
        assert!(!t.chars().any(|c| c.is_ascii_whitespace()));
        assert!(!t.is_empty());
    }
}
