//! Indexing of single files into token counts, for the byte tokenizer.
use vstd::prelude::*;

use crate::counts::{tally, WordCounts};
use crate::words::{split_whitespace, string_views, words_spec};

verus! {

/// The options of the indexing program: a directory to index, the index file, and the
/// terms to search for.
#[derive(Debug)]
pub struct Args {
    pub dir: Option<String>,
    pub index: Option<String>,
    pub search: Option<String>,
}

/// Which reader a file needs, by its extension.
#[derive(Debug)]
pub enum SourceKind {
    /// A PDF document.
    Pdf,
    /// A plain text file.
    Text,
}

/// `"pdf"` files are read as PDF and `"txt"` files as text; other files are not indexed.
pub fn source_kind(extension: &str) -> (r: Option<SourceKind>)
    ensures
        extension@ == "pdf"@ ==> r matches Some(SourceKind::Pdf),
        extension@ == "txt"@ ==> r matches Some(SourceKind::Text),
        extension@ != "pdf"@ && extension@ != "txt"@ ==> r is None,
{
    proof {
        reveal_strlit("pdf");
        reveal_strlit("txt");
    }
    let e = extension.to_owned();
    if e == "pdf".to_owned() {
        assert("pdf"@[0] != "txt"@[0]);
        Some(SourceKind::Pdf)
    } else if e == "txt".to_owned() {
        Some(SourceKind::Text)
    } else {
        None
    }
}

/// How often each token occurs among `tokens`.
pub fn token_counts(tokens: &Vec<String>) -> (r: WordCounts)
    ensures
        r.wf(),
        r@ == tally(string_views(tokens@)),
{
    let mut index = WordCounts::new();
    let mut i: usize = 0;
    while i < tokens.len()
        invariant
            i <= tokens@.len(),
            index.wf(),
            index@ == tally(string_views(tokens@.take(i as int))),
        decreases tokens@.len() - i,
    {
        let ghost done = string_views(tokens@.take(i as int));
        proof {
            crate::counts::lemma_tally_occurrences(done, tokens@[i as int]@);
        }
        index.add(tokens[i].clone(), 1);
        proof {
            assert(string_views(tokens@.take(i + 1)) =~= done.push(tokens@[i as int]@));
            assert(done.push(tokens@[i as int]@).drop_last() =~= done);
        }
        i += 1;
    }
    assert(tokens@.take(i as int) =~= tokens@);
    index
}

/// The matches of one document, numbered `i`, in the order of the words: one for each word
/// that the document's counts hold, a repeated word as often as it is repeated.
pub open spec fn doc_matches(i: nat, counts: Map<Seq<char>, nat>, words: Seq<Seq<char>>) -> Seq<
    (nat, Seq<char>),
>
    decreases words.len(),
{
    if words.len() == 0 {
        Seq::empty()
    } else {
        let prev = doc_matches(i, counts, words.drop_last());
        if counts.contains_key(words.last()) {
            prev.push((i, words.last()))
        } else {
            prev
        }
    }
}

/// The matches of all the documents, document after document.
pub open spec fn term_matches_spec(docs: Seq<Map<Seq<char>, nat>>, words: Seq<Seq<char>>) -> Seq<
    (nat, Seq<char>),
>
    decreases docs.len(),
{
    if docs.len() == 0 {
        Seq::empty()
    } else {
        term_matches_spec(docs.drop_last(), words) + doc_matches(
            (docs.len() - 1) as nat,
            docs.last(),
            words,
        )
    }
}

/// The values of a match.
pub open spec fn match_view(m: (usize, String)) -> (nat, Seq<char>) {
    (m.0 as nat, m.1@)
}

/// The words of `term`, split at whitespace, that each document holds: for each document in
/// order, and each word in order, its position among the documents and the word.
pub fn term_matches(term: &str, docs: &Vec<WordCounts>) -> (r: Vec<(usize, String)>)
    requires
        forall|i: int| 0 <= i < docs@.len() ==> #[trigger] docs@[i].wf(),
    ensures
        r@.map_values(|m: (usize, String)| match_view(m)) == term_matches_spec(
            docs@.map_values(|d: WordCounts| d@),
            words_spec(term@),
        ),
{
    let words = split_whitespace(term);
    let ghost ws = words_spec(term@);
    let ghost ds = docs@.map_values(|d: WordCounts| d@);
    let mut out: Vec<(usize, String)> = Vec::new();
    let mut i: usize = 0;
    while i < docs.len()
        invariant
            i <= docs@.len(),
            forall|k: int| 0 <= k < docs@.len() ==> #[trigger] docs@[k].wf(),
            string_views(words@) == ws,
            ds == docs@.map_values(|d: WordCounts| d@),
            out@.map_values(|m: (usize, String)| match_view(m)) == term_matches_spec(
                ds.take(i as int),
                ws,
            ),
        decreases docs@.len() - i,
    {
        let ghost before = out@.map_values(|m: (usize, String)| match_view(m));
        let mut j: usize = 0;
        while j < words.len()
            invariant
                i < docs@.len(),
                j <= words@.len(),
                docs@[i as int].wf(),
                string_views(words@) == ws,
                ds == docs@.map_values(|d: WordCounts| d@),
                out@.map_values(|m: (usize, String)| match_view(m)) == before + doc_matches(
                    i as nat,
                    ds[i as int],
                    ws.take(j as int),
                ),
            decreases words@.len() - j,
        {
            let ghost prev = out@;
            assert(ws.take(j + 1).drop_last() =~= ws.take(j as int));
            assert(ws.take(j + 1).last() == words@[j as int]@);
            if docs[i].get(words[j].as_str()).is_some() {
                out.push((i, words[j].clone()));
                assert(out@.map_values(|m: (usize, String)| match_view(m)) =~= prev.map_values(
                    |m: (usize, String)| match_view(m),
                ).push((i as nat, words@[j as int]@)));
            }
            j += 1;
        }
        proof {
            assert(ws.take(j as int) =~= ws);
            assert(ds.take(i + 1).drop_last() =~= ds.take(i as int));
            assert(ds.take(i + 1).last() == ds[i as int]);
        }
        i += 1;
    }
    assert(ds.take(i as int) =~= ds);
    out
}

} // verus!
