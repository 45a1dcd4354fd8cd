use dyna::index::{file_kind, DirIndex, FileIndex, FileKind};
use dyna::lexer::IntoText;

struct Fixed {
    path: String,
    text: Option<String>,
}

impl IntoText for Fixed {
    fn into_text(&mut self) -> Option<String> {
        self.text.clone()
    }

    fn get_path(&self) -> &str {
        &self.path
    }
}

#[test]
fn file_index_counts_stems() {
    let fi = FileIndex::from_text("a.txt".to_string(), "cats and dogs, cats running here.");
    assert_eq!(fi.get_tf("cat"), Some(2));
    assert_eq!(fi.get_tf("and"), Some(1));
    assert_eq!(fi.get_tf("dog"), Some(1));
    assert_eq!(fi.get_tf("run"), Some(1));
    assert_eq!(fi.get_tf(","), Some(1));
    assert_eq!(fi.get_tf("cats"), None);
    assert_eq!(fi.get_tf("bird"), None);
}

#[test]
fn file_index_new_reads_through_into_text() {
    let mut f = Fixed { path: "p".to_string(), text: Some("Dogs dogs!".to_string()) };
    let fi = FileIndex::new(&mut f).unwrap();
    assert_eq!(fi.get_tf("dog"), Some(2));
    assert_eq!(fi.get_tf("!"), Some(1));
    let mut missing = Fixed { path: "q".to_string(), text: None };
    assert!(FileIndex::new(&mut missing).is_none());
}

#[test]
fn dir_index_sums_counts_and_finds_hits() {
    let a = FileIndex::from_text("a".to_string(), "cats and dogs .");
    let b = FileIndex::from_text("b".to_string(), "cats cats run .");
    let dir = DirIndex::from_files("docs", vec![a, b]);
    let hits = dir.search_hits("CATS  Dogs");
    let seen: Vec<(String, String, usize, usize)> =
        hits.into_iter().map(|h| (h.file, h.term, h.tf, h.doc_freq)).collect();
    assert_eq!(
        seen,
        vec![
            ("a".to_string(), "cat".to_string(), 1, 3),
            ("a".to_string(), "dog".to_string(), 1, 1),
            ("b".to_string(), "cat".to_string(), 2, 3),
        ]
    );
    assert!(dir.search_hits("birds").is_empty());
    assert!(dir.search_hits("").is_empty());
}

#[test]
fn repeated_query_words_give_repeated_hits() {
    let a = FileIndex::from_text("a".to_string(), "tree tree .");
    let dir = DirIndex::from_files("d", vec![a]);
    let hits = dir.search_hits("tree trees");
    assert_eq!(hits.len(), 2);
    assert_eq!(hits[0].tf, 2);
    assert_eq!(hits[1].doc_freq, 2);
}

#[test]
fn try_from_files_accepts_an_empty_directory() {
    let dir = DirIndex::try_from_files("empty", Vec::new()).unwrap();
    assert!(dir.search_hits("anything").is_empty());
}

#[test]
fn file_kinds_by_extension() {
    assert!(matches!(file_kind(Some("pdf")), Some(FileKind::Book)));
    assert!(matches!(file_kind(Some("epub")), Some(FileKind::Book)));
    assert!(matches!(file_kind(Some("docx")), Some(FileKind::Docx)));
    assert!(matches!(file_kind(Some("txt")), Some(FileKind::Text)));
    assert!(matches!(file_kind(Some("PDF")), Some(FileKind::Text)));
    assert!(matches!(file_kind(Some("")), Some(FileKind::Text)));
    assert!(file_kind(None).is_none());
}

fn hit_tuples(dir: &DirIndex<'_>, q: &str) -> Vec<(String, String, usize, usize)> {
    dir.search_hits(q).into_iter().map(|h| (h.file, h.term, h.tf, h.doc_freq)).collect()
}

#[test]
fn a_query_in_two_parts_gets_the_hits_of_each_part() {
    let a = FileIndex::from_text("a".to_string(), "cats and dogs .");
    let b = FileIndex::from_text("b".to_string(), "dogs dogs run .");
    let dir = DirIndex::from_files("docs", vec![a, b]);
    let mut both = hit_tuples(&dir, "cats dogs");
    let mut parts = hit_tuples(&dir, "cats");
    parts.extend(hit_tuples(&dir, "dogs"));
    both.sort();
    parts.sort();
    assert_eq!(both, parts);
    let mut twice = hit_tuples(&dir, "dogs dogs");
    let mut once = hit_tuples(&dir, "dogs");
    once.extend(hit_tuples(&dir, "dogs"));
    twice.sort();
    once.sort();
    assert_eq!(twice, once);
    assert_eq!(hit_tuples(&dir, "dogs dogs").len(), 4);
}

#[test]
fn a_query_of_whitespace_has_no_hits() {
    let a = FileIndex::from_text("a".to_string(), "cats and dogs .");
    let dir = DirIndex::from_files("docs", vec![a]);
    assert!(dir.search_hits(" \t\n ").is_empty());
    assert!(dir.search_hits("\u{3000}").is_empty());
}

#[test]
fn respaced_and_lowercased_queries_get_the_same_hits() {
    let a = FileIndex::from_text("a".to_string(), "cats and dogs .");
    let dir = DirIndex::from_files("docs", vec![a]);
    let base = hit_tuples(&dir, "cats dogs");
    assert_eq!(hit_tuples(&dir, "  cats \t dogs "), base);
    assert_eq!(hit_tuples(&dir, "CATS Dogs"), base);
}
