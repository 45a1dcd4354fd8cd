//! Term-frequency indices of documents and of directories of documents.
use vstd::prelude::*;

use crate::counts::{
    entries_map, lemma_entries_map, lemma_tally_occurrences, occurrences, tally, WordCounts,
};
use crate::lexer::{tokens_spec, IntoText, Lexer};
use crate::stemmer::{stem, stem_spec};
use crate::words::{chars_of, split_whitespace, string_of, string_views, words_spec};
use crate::stemmer::{lowercase, to_lowercase};

verus! {

/// The stems of the tokens of `text`, in order.
pub open spec fn stemmed_tokens(text: Seq<char>) -> Seq<Seq<char>> {
    tokens_spec(text).map_values(|t: Seq<char>| stem_spec(t))
}

/// How often each stem occurs among the tokens of `text`.
pub open spec fn term_counts(text: Seq<char>) -> Map<Seq<char>, nat> {
    tally(stemmed_tokens(text))
}

/// The term counts of one document.
#[derive(Debug)]
pub struct FileIndex {
    name: String,
    index: WordCounts,
}

impl FileIndex {
    /// The name of the document.
    pub closed spec fn name_view(&self) -> Seq<char> {
        self.name@
    }

    /// How often each stem occurs in the document.
    pub closed spec fn counts(&self) -> Map<Seq<char>, nat> {
        self.index@
    }

    /// The counts are well formed.
    pub closed spec fn wf(&self) -> bool {
        self.index.wf()
    }

    /// Every stem held has a positive count.
    pub proof fn lemma_counts_positive(&self)
        requires
            self.wf(),
        ensures
            forall|w: Seq<char>| #[trigger] self.counts().contains_key(w) ==> self.counts()[w] > 0,
    {
        self.index.lemma_count_bounds();
    }

    /// Indexes the text that `file` yields under the path `file` gives, or `None` when it
    /// yields no text.
    pub fn new(file: &mut impl IntoText) -> (r: Option<Self>)
        ensures
            r matches Some(fi) ==> fi.wf() && exists|text: Seq<char>|
                fi.counts() == #[trigger] term_counts(text),
    {
        match file.into_text() {
            Some(contents) => {
                let name = file.get_path().to_owned();
                Some(Self::from_text(name, contents.as_str()))
            },
            None => None,
        }
    }

    /// Indexes `text` under `name`: counts how often the stem of each token occurs.
    pub fn from_text(name: String, text: &str) -> (r: Self)
        ensures
            r.wf(),
            r.name_view() == name@,
            r.counts() == term_counts(text@),
    {
        let contents = chars_of(text);
        let mut lexer = Lexer::new(contents.as_slice());
        let mut index = WordCounts::new();
        let ghost mut done: Seq<Seq<char>> = Seq::empty();
        let length = contents.len();
        loop
            invariant_except_break
                tokens_spec(text@) == done + tokens_spec(lexer.content@),
                done.len() + lexer.content@.len() <= text@.len(),
            invariant
                index.wf(),
                index@ == tally(done.map_values(|t: Seq<char>| stem_spec(t))),
                text@.len() == length,
            ensures
                done == tokens_spec(text@),
            decreases lexer.content@.len(),
        {
            let ghost before = lexer.content@;
            match lexer.next_token() {
                Some(token) => {
                    let key = string_of(token);
                    let stemmed = stem(key);
                    let ghost stems = done.map_values(|t: Seq<char>| stem_spec(t));
                    proof {
                        lemma_tally_occurrences(stems, stemmed@);
                        assert(tokens_spec(before) == seq![token@] + tokens_spec(lexer.content@));
                        assert(index.count_of(stemmed@) <= done.len());
                    }
                    index.add(stemmed, 1);
                    proof {
                        let new_done = done.push(token@);
                        assert(new_done.map_values(|t: Seq<char>| stem_spec(t)) =~= stems.push(
                            stemmed@,
                        ));
                        assert(stems.push(stemmed@).drop_last() =~= stems);
                        assert(tokens_spec(text@) =~= new_done + tokens_spec(lexer.content@));
                        done = new_done;
                    }
                },
                None => {
                    proof {
                        assert(tokens_spec(before) =~= Seq::<Seq<char>>::empty());
                        assert(done =~= tokens_spec(text@));
                    }
                    break;
                },
            }
        }
        Self { name, index }
    }

    /// A document index named `name` with the given counts.
    pub fn from_counts(name: String, index: WordCounts) -> (r: Self)
        requires
            index.wf(),
        ensures
            r.wf(),
            r.name_view() == name@,
            r.counts() == index@,
    {
        Self { name, index }
    }

    /// The name of the document.
    pub fn name(&self) -> (r: &str)
        ensures
            r@ == self.name_view(),
    {
        self.name.as_str()
    }

    /// Each stem held, once, with its count.
    pub fn pairs(&self) -> (r: Vec<(String, usize)>)
        requires
            self.wf(),
        ensures
            entries_map(r@) == self.counts(),
            crate::counts::distinct_words(r@),
    {
        self.index.pairs()
    }

    /// How often `term` occurs in the document, if it does.
    pub fn get_tf(&self, term: &str) -> (r: Option<usize>)
        requires
            self.wf(),
        ensures
            match r {
                Some(n) => self.counts().contains_key(term@) && self.counts()[term@] == n,
                None => !self.counts().contains_key(term@),
            },
    {
        self.index.get(term)
    }
}

/// The term frequency of a stem in an indexed text is its number of occurrences among the
/// stems of the text's tokens; a stem that does not occur has none.
pub proof fn lemma_tf_is_occurrences(fi: FileIndex, text: Seq<char>, w: Seq<char>)
    requires
        fi.counts() == term_counts(text),
    ensures
        fi.counts().contains_key(w) <==> occurrences(stemmed_tokens(text), w) > 0,
        fi.counts().contains_key(w) ==> fi.counts()[w] == occurrences(stemmed_tokens(text), w),
{
    lemma_tally_occurrences(stemmed_tokens(text), w);
}

/// The count of `w` in `m`, zero when absent.
pub open spec fn count0(m: Map<Seq<char>, nat>, w: Seq<char>) -> nat {
    if m.contains_key(w) {
        m[w]
    } else {
        0
    }
}

/// The counts of `m` and `e` added word by word.
pub open spec fn merge_counts(m: Map<Seq<char>, nat>, e: Map<Seq<char>, nat>) -> Map<
    Seq<char>,
    nat,
> {
    Map::new(|w: Seq<char>| m.contains_key(w) || e.contains_key(w), |w: Seq<char>| count0(m, w) + count0(e, w))
}

/// The counts of all the documents `fs` added word by word, document after document.
pub open spec fn frequencies(fs: Seq<Map<Seq<char>, nat>>) -> Map<Seq<char>, nat>
    decreases fs.len(),
{
    if fs.len() == 0 {
        Map::empty()
    } else {
        merge_counts(frequencies(fs.drop_last()), fs.last())
    }
}

/// The sum of the counts of `w` over the documents `fs`.
pub open spec fn total_count(fs: Seq<Map<Seq<char>, nat>>, w: Seq<char>) -> nat
    decreases fs.len(),
{
    if fs.len() == 0 {
        0
    } else {
        total_count(fs.drop_last(), w) + count0(fs.last(), w)
    }
}

/// Every sum of counts fits in a `usize`.
pub open spec fn counts_fit(fs: Seq<Map<Seq<char>, nat>>) -> bool {
    forall|w: Seq<char>| #[trigger] total_count(fs, w) <= usize::MAX
}

/// The counts of each document, in order.
pub open spec fn file_counts(files: Seq<FileIndex>) -> Seq<Map<Seq<char>, nat>> {
    files.map_values(|f: FileIndex| f.counts())
}

/// The merged counts hold a word exactly when its sum is positive, with the sum as count,
/// provided each document's counts are positive.
pub proof fn lemma_frequencies_total(fs: Seq<Map<Seq<char>, nat>>, w: Seq<char>)
    ensures
        count0(frequencies(fs), w) == total_count(fs, w),
        frequencies(fs).contains_key(w) <==> exists|i: int|
            0 <= i < fs.len() && #[trigger] fs[i].contains_key(w),
    decreases fs.len(),
{
    if fs.len() > 0 {
        let p = fs.drop_last();
        lemma_frequencies_total(p, w);
        if frequencies(p).contains_key(w) {
            let i = choose|i: int| 0 <= i < p.len() && #[trigger] p[i].contains_key(w);
            assert(fs[i] == p[i]);
        }
        if exists|i: int| 0 <= i < fs.len() && #[trigger] fs[i].contains_key(w) {
            let i = choose|i: int| 0 <= i < fs.len() && #[trigger] fs[i].contains_key(w);
            if i < fs.len() - 1 {
                assert(p[i] == fs[i]);
            }
        }
    }
}

/// One document's count of `w` is at most the sum over all the documents.
proof fn lemma_total_ge_each(fs: Seq<Map<Seq<char>, nat>>, i: int, w: Seq<char>)
    requires
        0 <= i < fs.len(),
    ensures
        count0(fs[i], w) <= total_count(fs, w),
    decreases fs.len(),
{
    if i < fs.len() - 1 {
        lemma_total_ge_each(fs.drop_last(), i, w);
        assert(fs.drop_last()[i] == fs[i]);
    }
}

/// In a directory index, every stem of a document has a summed count, at least the
/// document's own count of it.
pub proof fn lemma_file_term_frequency(d: DirIndex, i: int, w: Seq<char>)
    requires
        d.wf(),
        0 <= i < d.files_view().len(),
        d.files_view()[i].counts().contains_key(w),
    ensures
        d.doc_freq_view().contains_key(w),
        d.files_view()[i].counts()[w] <= d.doc_freq_view()[w],
{
    let fc = file_counts(d.files_view());
    assert(fc[i] == d.files_view()[i].counts());
    lemma_frequencies_total(fc, w);
    lemma_total_ge_each(fc, i, w);
}

/// Every hit of a query on a directory index names a stem that its document holds, with a
/// positive count, and a summed count at least that count.
pub proof fn lemma_hits_counts(d: DirIndex, stems: Seq<Seq<char>>, k: int)
    requires
        d.wf(),
        0 <= k < dir_hits(d.files_view(), d.doc_freq_view(), stems).len(),
    ensures
        ({
            let h = dir_hits(d.files_view(), d.doc_freq_view(), stems)[k];
            0 < h.2 <= h.3 && exists|i: int|
                0 <= i < d.files_view().len() && #[trigger] d.files_view()[i].name_view() == h.0
                    && d.files_view()[i].counts().contains_key(h.1)
                    && d.files_view()[i].counts()[h.1] == h.2
        }),
{
    lemma_dir_hits_from_files(d.files_view(), d.doc_freq_view(), stems, k);
    let h = dir_hits(d.files_view(), d.doc_freq_view(), stems)[k];
    let i = choose|i: int|
        0 <= i < d.files_view().len() && #[trigger] d.files_view()[i].name_view() == h.0
            && d.files_view()[i].counts().contains_key(h.1) && d.files_view()[i].counts()[h.1]
            == h.2 && d.doc_freq_view().contains_key(h.1) && d.doc_freq_view()[h.1] == h.3;
    lemma_file_term_frequency(d, i, h.1);
    assert(d.files_view()[i].wf());
    d.files_view()[i].lemma_counts_positive();
}

/// Each hit comes from a document that holds the stem and from the summed counts.
proof fn lemma_dir_hits_from_files(
    files: Seq<FileIndex>,
    df: Map<Seq<char>, nat>,
    stems: Seq<Seq<char>>,
    k: int,
)
    requires
        0 <= k < dir_hits(files, df, stems).len(),
    ensures
        ({
            let h = dir_hits(files, df, stems)[k];
            exists|i: int|
                0 <= i < files.len() && #[trigger] files[i].name_view() == h.0
                    && files[i].counts().contains_key(h.1) && files[i].counts()[h.1] == h.2
                    && df.contains_key(h.1) && df[h.1] == h.3
        }),
    decreases files.len(),
{
    let p = dir_hits(files.drop_last(), df, stems);
    let f = files.last();
    let fh = file_hits(f.name_view(), f.counts(), df, stems);
    let h = dir_hits(files, df, stems)[k];
    if k < p.len() {
        lemma_dir_hits_from_files(files.drop_last(), df, stems, k);
        let i = choose|i: int|
            0 <= i < files.drop_last().len() && #[trigger] files.drop_last()[i].name_view()
                == p[k].0 && files.drop_last()[i].counts().contains_key(p[k].1)
                && files.drop_last()[i].counts()[p[k].1] == p[k].2 && df.contains_key(p[k].1)
                && df[p[k].1] == p[k].3;
        assert(files[i] == files.drop_last()[i]);
        assert(files[i].name_view() == h.0);
    } else {
        lemma_file_hits_hold(f.name_view(), f.counts(), df, stems, k - p.len());
        assert(files[files.len() - 1] == f);
        assert(files[files.len() - 1].name_view() == h.0);
    }
}

/// Each hit of one document names the document and a stem it and the summed counts hold.
proof fn lemma_file_hits_hold(
    name: Seq<char>,
    counts: Map<Seq<char>, nat>,
    df: Map<Seq<char>, nat>,
    stems: Seq<Seq<char>>,
    k: int,
)
    requires
        0 <= k < file_hits(name, counts, df, stems).len(),
    ensures
        ({
            let h = file_hits(name, counts, df, stems)[k];
            h.0 == name && counts.contains_key(h.1) && counts[h.1] == h.2 && df.contains_key(h.1)
                && df[h.1] == h.3
        }),
    decreases stems.len(),
{
    let prev = file_hits(name, counts, df, stems.drop_last());
    if k < prev.len() {
        lemma_file_hits_hold(name, counts, df, stems.drop_last(), k);
    }
}

/// The sum over a prefix of the documents is at most the sum over all of them.
proof fn lemma_total_prefix(fs: Seq<Map<Seq<char>, nat>>, i: int, w: Seq<char>)
    requires
        0 <= i <= fs.len(),
    ensures
        total_count(fs.take(i), w) <= total_count(fs, w),
    decreases fs.len() - i,
{
    if i < fs.len() {
        lemma_total_prefix(fs, i + 1, w);
        assert(fs.take(i + 1).drop_last() =~= fs.take(i));
    } else {
        assert(fs.take(i) =~= fs);
    }
}

/// Which reader a document needs, by the extension of its path.
#[derive(Debug)]
pub enum FileKind {
    /// A PDF or EPUB book.
    Book,
    /// A Word document.
    Docx,
    /// Plain text.
    Text,
}

/// The reader for a path with the extension `extension`: `"pdf"` and `"epub"` are books,
/// `"docx"` Word documents, and anything else plain text. A path without an extension is
/// not indexed (`None`).
pub fn file_kind(extension: Option<&str>) -> (k: Option<FileKind>)
    ensures
        extension is None <==> k is None,
        extension matches Some(e) ==> {
            &&& (e@ == "pdf"@ || e@ == "epub"@) ==> (k matches Some(FileKind::Book))
            &&& e@ == "docx"@ ==> (k matches Some(FileKind::Docx))
            &&& !(e@ == "pdf"@ || e@ == "epub"@ || e@ == "docx"@) ==> (k matches Some(
                FileKind::Text,
            ))
        },
{
    proof {
        reveal_strlit("pdf");
        reveal_strlit("epub");
        reveal_strlit("docx");
    }
    let extension = match extension {
        Some(e) => e,
        None => return None,
    };
    let e = extension.to_owned();
    if e == "pdf".to_owned() || e == "epub".to_owned() {
        assert("epub"@[0] != "docx"@[0]);
        Some(FileKind::Book)
    } else if e == "docx".to_owned() {
        Some(FileKind::Docx)
    } else {
        Some(FileKind::Text)
    }
}

/// A term of a query that occurs in a document: the document, the stem, how often it occurs
/// there, and the sum of its counts over all the documents.
#[derive(Debug)]
pub struct SearchHit {
    pub file: String,
    pub term: String,
    pub tf: usize,
    pub doc_freq: usize,
}

/// The values of a hit.
pub open spec fn hit_view(h: SearchHit) -> (Seq<char>, Seq<char>, nat, nat) {
    (h.file@, h.term@, h.tf as nat, h.doc_freq as nat)
}

/// The stems of the words of a query, after lowercasing it.
pub open spec fn query_stems(term: Seq<char>) -> Seq<Seq<char>> {
    words_spec(lowercase(term)).map_values(|w: Seq<char>| stem_spec(w))
}

/// The hits of one document, in the order of the query's stems: one for each stem that
/// the document and the merged counts both hold.
pub open spec fn file_hits(
    name: Seq<char>,
    counts: Map<Seq<char>, nat>,
    df: Map<Seq<char>, nat>,
    stems: Seq<Seq<char>>,
) -> Seq<(Seq<char>, Seq<char>, nat, nat)>
    decreases stems.len(),
{
    if stems.len() == 0 {
        Seq::empty()
    } else {
        let prev = file_hits(name, counts, df, stems.drop_last());
        let w = stems.last();
        if counts.contains_key(w) && df.contains_key(w) {
            prev.push((name, w, counts[w], df[w]))
        } else {
            prev
        }
    }
}

/// The hits of all documents, document after document.
pub open spec fn dir_hits(
    files: Seq<FileIndex>,
    df: Map<Seq<char>, nat>,
    stems: Seq<Seq<char>>,
) -> Seq<(Seq<char>, Seq<char>, nat, nat)>
    decreases files.len(),
{
    if files.len() == 0 {
        Seq::empty()
    } else {
        dir_hits(files.drop_last(), df, stems) + file_hits(
            files.last().name_view(),
            files.last().counts(),
            df,
            stems,
        )
    }
}

/// The hits of one document are exactly its held stems: for each stem of the query, in
/// order, that the document and the summed counts both hold, one hit with the document's
/// name, the stem, the document's count of it and its summed count, whatever the counts are.
pub proof fn lemma_file_hits_complete(
    name: Seq<char>,
    counts: Map<Seq<char>, nat>,
    df: Map<Seq<char>, nat>,
    stems: Seq<Seq<char>>,
    w: Seq<char>,
)
    ensures
        counts.contains_key(w) && df.contains_key(w) ==> file_hits(name, counts, df, seq![w])
            == seq![(name, w, counts[w], df[w])],
        !(counts.contains_key(w) && df.contains_key(w)) ==> file_hits(name, counts, df, seq![w])
            == Seq::<(Seq<char>, Seq<char>, nat, nat)>::empty(),
        forall|k: int|
            #![trigger stems[k]]
            0 <= k < stems.len() && counts.contains_key(stems[k]) && df.contains_key(stems[k])
                ==> file_hits(name, counts, df, stems).contains(
                (name, stems[k], counts[stems[k]], df[stems[k]]),
            ),
        forall|h: (Seq<char>, Seq<char>, nat, nat)|
            #![trigger file_hits(name, counts, df, stems).contains(h)]
            file_hits(name, counts, df, stems).contains(h) ==> {
                &&& h.0 == name
                &&& stems.contains(h.1)
                &&& counts.contains_key(h.1) && df.contains_key(h.1)
                &&& h.2 == counts[h.1] && h.3 == df[h.1]
            },
    decreases stems.len(),
{
    let one = seq![w];
    assert(one.drop_last() =~= Seq::<Seq<char>>::empty());
    assert(one.last() == w);
    assert(file_hits(name, counts, df, one.drop_last()) =~= Seq::<
        (Seq<char>, Seq<char>, nat, nat),
    >::empty());
    if counts.contains_key(w) && df.contains_key(w) {
        assert(file_hits(name, counts, df, one) =~= seq![(name, w, counts[w], df[w])]);
    }
    if stems.len() > 0 {
        let pre = stems.drop_last();
        let v = stems.last();
        lemma_file_hits_complete(name, counts, df, pre, w);
        let prev = file_hits(name, counts, df, pre);
        let all = file_hits(name, counts, df, stems);
        assert forall|k: int|
            #![trigger stems[k]]
            0 <= k < stems.len() && counts.contains_key(stems[k]) && df.contains_key(stems[k])
                implies all.contains((name, stems[k], counts[stems[k]], df[stems[k]])) by {
            if k < stems.len() - 1 {
                assert(stems[k] == pre[k]);
                let e = (name, pre[k], counts[pre[k]], df[pre[k]]);
                assert(prev.contains(e));
                let j = choose|j: int| 0 <= j < prev.len() && prev[j] == e;
                if counts.contains_key(v) && df.contains_key(v) {
                    assert(all[j] == e);
                }
            } else {
                let e = (name, v, counts[v], df[v]);
                assert(all == prev.push(e));
                assert(all[prev.len() as int] == e);
            }
        }
        assert forall|h: (Seq<char>, Seq<char>, nat, nat)|
            #![trigger all.contains(h)]
            all.contains(h) implies {
                &&& h.0 == name
                &&& stems.contains(h.1)
                &&& counts.contains_key(h.1) && df.contains_key(h.1)
                &&& h.2 == counts[h.1] && h.3 == df[h.1]
            } by {
            let j = choose|j: int| 0 <= j < all.len() && all[j] == h;
            if j < prev.len() {
                assert(prev[j] == h);
                assert(prev.contains(h));
                let m = choose|m: int| 0 <= m < pre.len() && pre[m] == h.1;
                assert(stems[m] == h.1);
            } else {
                assert(stems[stems.len() - 1] == v);
            }
        }
    }
}

/// Every document of a directory that holds a stem of the query, with the summed counts
/// holding it too, gets a hit for it with its own count and the summed count; and every hit
/// is of that kind.
pub proof fn lemma_dir_hits_complete(
    files: Seq<FileIndex>,
    df: Map<Seq<char>, nat>,
    stems: Seq<Seq<char>>,
    i: int,
    k: int,
)
    requires
        0 <= i < files.len(),
        0 <= k < stems.len(),
        files[i].counts().contains_key(stems[k]),
        df.contains_key(stems[k]),
    ensures
        dir_hits(files, df, stems).contains(
            (files[i].name_view(), stems[k], files[i].counts()[stems[k]], df[stems[k]]),
        ),
    decreases files.len(),
{
    let e = (files[i].name_view(), stems[k], files[i].counts()[stems[k]], df[stems[k]]);
    let rest = files.drop_last();
    let f = files.last();
    let fh = file_hits(f.name_view(), f.counts(), df, stems);
    if i < files.len() - 1 {
        assert(files[i] == rest[i]);
        lemma_dir_hits_complete(rest, df, stems, i, k);
        let prev = dir_hits(rest, df, stems);
        let j = choose|j: int| 0 <= j < prev.len() && prev[j] == e;
        assert((prev + fh)[j] == e);
    } else {
        lemma_file_hits_complete(f.name_view(), f.counts(), df, stems, stems[k]);
        assert(fh.contains(e));
        let j = choose|j: int| 0 <= j < fh.len() && fh[j] == e;
        let prev = dir_hits(rest, df, stems);
        assert((prev + fh)[prev.len() + j] == e);
    }
}

/// A query made of two parts gets, in each document, the hits of the first part followed
/// by those of the second: every word of a query counts on its own, a repeated one as often
/// as it is repeated.
pub proof fn lemma_file_hits_concat(
    name: Seq<char>,
    counts: Map<Seq<char>, nat>,
    df: Map<Seq<char>, nat>,
    a: Seq<Seq<char>>,
    b: Seq<Seq<char>>,
)
    ensures
        file_hits(name, counts, df, a + b) == file_hits(name, counts, df, a) + file_hits(
            name,
            counts,
            df,
            b,
        ),
    decreases b.len(),
{
    if b.len() == 0 {
        assert(a + b =~= a);
        assert(file_hits(name, counts, df, a) + file_hits(name, counts, df, b) =~= file_hits(
            name,
            counts,
            df,
            a,
        ));
    } else {
        assert((a + b).drop_last() =~= a + b.drop_last());
        assert((a + b).last() == b.last());
        lemma_file_hits_concat(name, counts, df, a, b.drop_last());
        let w = b.last();
        if counts.contains_key(w) && df.contains_key(w) {
            assert(file_hits(name, counts, df, a + b) =~= file_hits(name, counts, df, a)
                + file_hits(name, counts, df, b));
        }
    }
}

/// Over a directory, the hits of a query made of two parts are those of the first part
/// together with those of the second, counted with their repeats.
pub proof fn lemma_dir_hits_concat(
    files: Seq<FileIndex>,
    df: Map<Seq<char>, nat>,
    a: Seq<Seq<char>>,
    b: Seq<Seq<char>>,
)
    ensures
        dir_hits(files, df, a + b).to_multiset() == dir_hits(files, df, a).to_multiset().add(
            dir_hits(files, df, b).to_multiset(),
        ),
    decreases files.len(),
{
    broadcast use vstd::seq_lib::lemma_multiset_commutative;

    if files.len() > 0 {
        let f = files.last();
        let rest = files.drop_last();
        lemma_dir_hits_concat(rest, df, a, b);
        lemma_file_hits_concat(f.name_view(), f.counts(), df, a, b);
        let fa = file_hits(f.name_view(), f.counts(), df, a);
        let fb = file_hits(f.name_view(), f.counts(), df, b);
        assert(dir_hits(files, df, a + b) == dir_hits(rest, df, a + b) + (fa + fb));
        assert(dir_hits(files, df, a) == dir_hits(rest, df, a) + fa);
        assert(dir_hits(files, df, b) == dir_hits(rest, df, b) + fb);
        assert(dir_hits(files, df, a + b).to_multiset() =~= dir_hits(files, df, a).to_multiset().add(
            dir_hits(files, df, b).to_multiset(),
        ));
    } else {
        let e = dir_hits(files, df, a);
        assert(e + e =~= e);
        assert(dir_hits(files, df, a + b).to_multiset() =~= dir_hits(files, df, a).to_multiset().add(
            dir_hits(files, df, b).to_multiset(),
        ));
    }
}

/// A word given twice in a query gives each of its hits twice.
pub proof fn lemma_repeated_word_counts_twice(
    files: Seq<FileIndex>,
    df: Map<Seq<char>, nat>,
    w: Seq<char>,
)
    ensures
        dir_hits(files, df, seq![w, w]).to_multiset() == dir_hits(
            files,
            df,
            seq![w],
        ).to_multiset().add(dir_hits(files, df, seq![w]).to_multiset()),
{
    assert(seq![w, w] =~= seq![w] + seq![w]);
    lemma_dir_hits_concat(files, df, seq![w], seq![w]);
}

/// A query and its lowercase form have the same stems, and so the same hits, wherever
/// lowercasing that form again changes nothing.
pub proof fn lemma_query_ignores_case(term: Seq<char>)
    requires
        lowercase(lowercase(term)) == lowercase(term),
    ensures
        query_stems(lowercase(term)) == query_stems(term),
{
}

/// A query without words has no hits.
pub proof fn lemma_no_words_no_hits(files: Seq<FileIndex>, df: Map<Seq<char>, nat>)
    ensures
        dir_hits(files, df, Seq::empty()) == Seq::<(Seq<char>, Seq<char>, nat, nat)>::empty(),
    decreases files.len(),
{
    if files.len() > 0 {
        lemma_no_words_no_hits(files.drop_last(), df);
        assert(dir_hits(files, df, Seq::empty()) =~= Seq::<(Seq<char>, Seq<char>, nat, nat)>::empty());
    }
}

/// The index of a directory: the index of each document, and the counts of each stem
/// summed over the documents.
#[derive(Debug)]
pub struct DirIndex<'a> {
    name: &'a str,
    files: Vec<FileIndex>,
    doc_freq: WordCounts,
}

impl<'a> DirIndex<'a> {
    /// The name of the directory.
    pub closed spec fn name_view(&self) -> Seq<char> {
        self.name@
    }

    /// The indices of the documents.
    pub closed spec fn files_view(&self) -> Seq<FileIndex> {
        self.files@
    }

    /// The counts of each stem summed over the documents.
    pub closed spec fn doc_freq_view(&self) -> Map<Seq<char>, nat> {
        self.doc_freq@
    }

    /// The documents are well formed and the summed counts are those of the documents.
    pub closed spec fn wf(&self) -> bool {
        &&& self.doc_freq.wf()
        &&& forall|i: int| 0 <= i < self.files@.len() ==> #[trigger] self.files@[i].wf()
        &&& self.doc_freq@ == frequencies(file_counts(self.files@))
    }

    /// What a well-formed directory index holds: well-formed documents, and for each stem
    /// the sum of the documents' counts of it.
    pub proof fn lemma_wf_sums(&self)
        requires
            self.wf(),
        ensures
            forall|i: int| 0 <= i < self.files_view().len() ==> #[trigger] self.files_view()[i].wf(),
            self.doc_freq_view() == frequencies(file_counts(self.files_view())),
    {
    }

    /// Indexes a directory named `name` from the indices of its documents, summing the
    /// counts of each stem; `None` when some sum does not fit in a `usize`.
    pub fn try_from_files(name: &'a str, files: Vec<FileIndex>) -> (r: Option<Self>)
        requires
            forall|i: int| 0 <= i < files@.len() ==> #[trigger] files@[i].wf(),
        ensures
            r is Some <==> counts_fit(file_counts(files@)),
            r matches Some(d) ==> d.wf() && d.name_view() == name@ && d.files_view() == files@
                && d.doc_freq_view() == frequencies(file_counts(files@)),
    {
        let ghost fc = file_counts(files@);
        let mut doc_freq = WordCounts::new();
        let mut i: usize = 0;
        while i < files.len()
            invariant
                i <= files@.len(),
                fc == file_counts(files@),
                forall|k: int| 0 <= k < files@.len() ==> #[trigger] files@[k].wf(),
                doc_freq.wf(),
                doc_freq@ == frequencies(fc.take(i as int)),
            decreases files@.len() - i,
        {
            assert(files@[i as int].wf());
            let pairs = files[i].index.pairs();
            let mut j: usize = 0;
            proof {
                lemma_entries_map(pairs@);
            }
            while j < pairs.len()
                invariant
                    i < files@.len(),
                    j <= pairs@.len(),
                    fc == file_counts(files@),
                    entries_map(pairs@) == fc[i as int],
                    crate::counts::distinct_words(pairs@),
                    crate::counts::positive_counts(pairs@),
                    doc_freq.wf(),
                    doc_freq@ == merge_counts(
                        frequencies(fc.take(i as int)),
                        entries_map(pairs@.take(j as int)),
                    ),
                decreases pairs@.len() - j,
            {
                let word = &pairs[j].0;
                let count = pairs[j].1;
                let ghost w = word@;
                let ghost f = frequencies(fc.take(i as int));
                let ghost e = entries_map(pairs@.take(j as int));
                proof {
                    lemma_entries_map(pairs@.take(j as int));
                    assert(!e.contains_key(w)) by {
                        if e.contains_key(w) {
                            let k = choose|k: int|
                                0 <= k < pairs@.take(j as int).len() && pairs@.take(
                                    j as int,
                                )[k].0@ == w;
                            assert(pairs@[k].0@ != pairs@[j as int].0@);
                        }
                    }
                    lemma_entries_map(pairs@);
                    assert(count0(fc[i as int], w) == count);
                    lemma_frequencies_total(fc.take(i as int), w);
                    lemma_total_prefix(fc, i + 1, w);
                    assert(fc.take(i + 1).drop_last() =~= fc.take(i as int));
                    assert(fc.take(i + 1).last() == fc[i as int]);
                }
                let current = match doc_freq.get(word.as_str()) {
                    Some(n) => n,
                    None => 0,
                };
                if current > usize::MAX - count {
                    proof {
                        assert(total_count(fc, w) > usize::MAX);
                    }
                    return None;
                }
                doc_freq.add(word.clone(), count);
                proof {
                    assert(pairs@.take(j + 1).drop_last() =~= pairs@.take(j as int));
                    assert(doc_freq@ =~= merge_counts(f, entries_map(pairs@.take(j + 1))));
                }
                j += 1;
            }
            proof {
                assert(pairs@.take(j as int) =~= pairs@);
                assert(fc.take(i + 1).drop_last() =~= fc.take(i as int));
                assert(doc_freq@ =~= frequencies(fc.take(i + 1)));
            }
            i += 1;
        }
        proof {
            assert(fc.take(i as int) =~= fc);
            doc_freq.lemma_count_bounds();
            assert forall|w: Seq<char>| #[trigger] total_count(fc, w) <= usize::MAX by {
                lemma_frequencies_total(fc, w);
            }
        }
        Some(DirIndex { name, files, doc_freq })
    }

    /// The name of the directory.
    pub fn name(&self) -> (r: &str)
        ensures
            r@ == self.name_view(),
    {
        self.name
    }

    /// The indices of the documents.
    pub fn files(&self) -> (r: &Vec<FileIndex>)
        ensures
            r@ == self.files_view(),
    {
        &self.files
    }

    /// Each stem of the documents, once, with its count summed over the documents.
    pub fn doc_freq_pairs(&self) -> (r: Vec<(String, usize)>)
        requires
            self.wf(),
        ensures
            entries_map(r@) == self.doc_freq_view(),
            crate::counts::distinct_words(r@),
    {
        self.doc_freq.pairs()
    }

    /// The hits of a query: the query is lowercased and split at whitespace, and each word
    /// stemmed; for each document in order, and each stem in order, a hit when the document
    /// holds the stem.
    pub fn search_hits(&self, term: &str) -> (r: Vec<SearchHit>)
        requires
            self.wf(),
        ensures
            r@.map_values(|h: SearchHit| hit_view(h)) == dir_hits(
                self.files_view(),
                self.doc_freq_view(),
                query_stems(term@),
            ),
    {
        let lowered = to_lowercase(term);
        let words = split_whitespace(lowered.as_str());
        let ghost qs = query_stems(term@);
        let mut stems: Vec<String> = Vec::new();
        let mut k: usize = 0;
        assert(qs.len() == words@.len());
        while k < words.len()
            invariant
                k <= words@.len(),
                string_views(words@) == words_spec(lowercase(term@)),
                qs == query_stems(term@),
                qs.len() == words@.len(),
                stems@.len() == k,
                forall|x: int| 0 <= x < k ==> #[trigger] stems@[x]@ == qs[x],
            decreases words@.len() - k,
        {
            let s = stem(words[k].clone());
            stems.push(s);
            assert(string_views(words@)[k as int] == words@[k as int]@);
            k += 1;
        }
        assert(string_views(stems@) =~= qs);
        let mut hits: Vec<SearchHit> = Vec::new();
        let mut i: usize = 0;
        while i < self.files.len()
            invariant
                self.wf(),
                i <= self.files@.len(),
                string_views(stems@) == qs,
                hits@.map_values(|h: SearchHit| hit_view(h)) == dir_hits(
                    self.files@.take(i as int),
                    self.doc_freq@,
                    qs,
                ),
            decreases self.files@.len() - i,
        {
            let file = &self.files[i];
            assert(self.files@[i as int].wf());
            let ghost before = hits@.map_values(|h: SearchHit| hit_view(h));
            let mut j: usize = 0;
            while j < stems.len()
                invariant
                    self.wf(),
                    i < self.files@.len(),
                    *file == self.files@[i as int],
                    file.wf(),
                    j <= stems@.len(),
                    string_views(stems@) == qs,
                    hits@.map_values(|h: SearchHit| hit_view(h)) == before + file_hits(
                        file.name@,
                        file.index@,
                        self.doc_freq@,
                        qs.take(j as int),
                    ),
                decreases stems@.len() - j,
            {
                let ghost w = stems@[j as int]@;
                assert(string_views(stems@)[j as int] == w);
                assert(qs.take(j + 1).drop_last() =~= qs.take(j as int));
                let ghost old_hits = hits@;
                match file.get_tf(stems[j].as_str()) {
                    Some(tf) => match self.doc_freq.get(stems[j].as_str()) {
                        Some(df) => {
                            let hit = SearchHit {
                                file: file.name.clone(),
                                term: stems[j].clone(),
                                tf,
                                doc_freq: df,
                            };
                            hits.push(hit);
                            assert(hits@.map_values(|h: SearchHit| hit_view(h)) =~= old_hits.map_values(
                                |h: SearchHit| hit_view(h),
                            ).push(hit_view(hit)));
                        },
                        None => {},
                    },
                    None => {},
                }
                assert(hits@.map_values(|h: SearchHit| hit_view(h)) =~= before + file_hits(
                    file.name@,
                    file.index@,
                    self.doc_freq@,
                    qs.take(j + 1),
                ));
                j += 1;
            }
            proof {
                assert(qs.take(j as int) =~= qs);
                assert(self.files@.take(i + 1).drop_last() =~= self.files@.take(i as int));
                assert(self.files@.take(i + 1).last() == self.files@[i as int]);
            }
            i += 1;
        }
        proof {
            assert(self.files@.take(i as int) =~= self.files@);
        }
        hits
    }

    /// Indexes a directory named `name` from the indices of its documents, summing the
    /// counts of each stem.
    pub fn from_files(name: &'a str, files: Vec<FileIndex>) -> (d: Self)
        requires
            forall|i: int| 0 <= i < files@.len() ==> #[trigger] files@[i].wf(),
            counts_fit(file_counts(files@)),
        ensures
            d.wf(),
            d.name_view() == name@,
            d.files_view() == files@,
            d.doc_freq_view() == frequencies(file_counts(files@)),
    {
        match Self::try_from_files(name, files) {
            Some(d) => d,
            None => {
                proof {
                    assert(false);
                }
                DirIndex { name, files: Vec::new(), doc_freq: WordCounts::new() }
            },
        }
    }
}

} // verus!
