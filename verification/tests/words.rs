use dyna::stemmer::stem;
use dyna::words::split_whitespace;

#[test]
fn split_at_runs_of_unicode_whitespace() {
    assert_eq!(split_whitespace("  a bb\t\nccc  "), vec!["a", "bb", "ccc"]);
    assert_eq!(split_whitespace("x\u{00a0}y\u{2003}z"), vec!["x", "y", "z"]);
    assert_eq!(split_whitespace(""), Vec::<String>::new());
    assert_eq!(split_whitespace(" \t "), Vec::<String>::new());
}

#[test]
fn split_agrees_with_std() {
    for s in ["one two", " lead", "trail ", "a\u{3000}b", "mixed \r\n lines\u{85}x"] {
        let ours = split_whitespace(s);
        let std: Vec<String> = s.split_whitespace().map(|w| w.to_string()).collect();
        assert_eq!(ours, std);
    }
}

#[test]
fn stem_lowercases_then_stems() {
    assert_eq!(stem("Running".to_string()), "run");
    assert_eq!(stem("cats".to_string()), "cat");
    assert_eq!(stem("CATS".to_string()), "cat");
    assert_eq!(stem("".to_string()), "");
}

#[test]
fn stems_ignore_letter_case() {
    assert_eq!(stem("Running".to_string()), "run");
    assert_eq!(stem("Is".to_string()), "is");
    for w in ["Running", "CATS", "Dogs", "HeLLo"] {
        assert_eq!(stem(w.to_string()), stem(w.to_lowercase()));
    }
}

#[test]
fn whitespace_is_what_std_calls_whitespace() {
    for c in (0u32..=0x10FFFF).filter_map(char::from_u32) {
        let s = c.to_string();
        assert_eq!(split_whitespace(&s).is_empty(), c.is_whitespace(), "{:?}", c);
    }
}

#[test]
fn respacing_keeps_the_words() {
    for s in ["  a  b\t\tc ", "one", "", "x\u{3000}y\n\nz"] {
        let words = split_whitespace(s);
        assert_eq!(split_whitespace(&words.join(" ")), words);
    }
}
