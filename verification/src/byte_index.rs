//! A byte tokenizer and the integer parts of its per-document and per-directory counts.
use vstd::prelude::*;

use std::io;
use std::path::PathBuf;

use crate::counts::{distinct_words, entries_map, lemma_entries_map, positive_counts, WordCounts};
use crate::lexer::no_ascii_whitespace;
use crate::words::push_char;
use crate::chars::{
    byte_is_ascii_punctuation, byte_is_ascii_whitespace, spec_ascii_whitespace,
    spec_byte_punctuation, spec_byte_whitespace,
};

verus! {

/// `std::path::PathBuf`, carried through opaquely.
#[verifier::external_type_specification]
#[verifier::external_body]
pub struct ExPathBuf(PathBuf);

/// `std::io::Error`, carried through opaquely.
#[verifier::external_type_specification]
#[verifier::external_body]
pub struct ExIoError(io::Error);

/// A source of document text whose path is a `PathBuf`.
pub trait IntoText {
    /// The whole text of the document, or `None` when it cannot be read.
    fn into_text(&mut self) -> Option<String>;

    /// The path of the document.
    fn get_path(&self) -> PathBuf;
}

/// A plain text file.
pub struct TextFile {
    pub path: PathBuf,
}

/// The byte at position `i` of `content`, if there is one.
pub open spec fn byte_at(content: Seq<u8>, i: int) -> Option<u8> {
    if 0 <= i < content.len() {
        Some(content[i])
    } else {
        None
    }
}

/// A measure that every `consume` from a state with a current byte decreases.
pub open spec fn progress(content: Seq<u8>, cursor: nat, current: Option<u8>) -> nat {
    (if current is Some {
        1nat
    } else {
        0nat
    }) + (if cursor < content.len() {
        (content.len() - cursor) as nat
    } else {
        0nat
    })
}

/// The cursor and current byte after skipping ASCII whitespace from a state.
pub open spec fn skip_spec(content: Seq<u8>, cursor: nat, current: Option<u8>) -> (nat, Option<u8>)
    decreases progress(content, cursor, current),
{
    match current {
        Some(c) => if spec_byte_whitespace(c) {
            skip_spec(content, cursor + 1, byte_at(content, cursor + 1int))
        } else {
            (cursor, current)
        },
        None => (cursor, current),
    }
}

/// Skipping whitespace stops on a byte that is not whitespace, or where the bytes run out,
/// and never moves the cursor back.
pub proof fn lemma_skip_stops(content: Seq<u8>, cursor: nat, current: Option<u8>)
    ensures
        ({
            let (k, cur) = skip_spec(content, cursor, current);
            &&& cursor <= k
            &&& cur matches Some(c) ==> !spec_byte_whitespace(c)
        }),
    decreases progress(content, cursor, current),
{
    if let Some(c) = current {
        if spec_byte_whitespace(c) {
            lemma_skip_stops(content, cursor + 1, byte_at(content, cursor + 1int));
        }
    }
}

/// Reading a token from a state, with the characters `acc` read so far: each byte is taken
/// as a character; the token ends after a byte that is followed by ASCII whitespace, or that
/// is followed by or is itself ASCII punctuation. Running out of bytes gives no token.
pub open spec fn scan_spec(content: Seq<u8>, cursor: nat, current: Option<u8>, acc: Seq<char>) -> (
    Option<Seq<char>>,
    nat,
    Option<u8>,
)
    decreases progress(content, cursor, current),
{
    match current {
        None => (None, cursor, current),
        Some(c) => {
            let next = byte_at(content, cursor + 1int);
            let acc2 = acc.push(c as char);
            match next {
                Some(n) => if spec_byte_whitespace(n) || spec_byte_punctuation(n)
                    || spec_byte_punctuation(c) {
                    (Some(acc2), cursor + 1, next)
                } else {
                    scan_spec(content, cursor + 1, next, acc2)
                },
                None => scan_spec(content, cursor + 1, next, acc2),
            }
        },
    }
}

/// One call of `next_token` from a state: whitespace is skipped, then a token read.
pub open spec fn next_spec(content: Seq<u8>, cursor: nat, current: Option<u8>) -> (
    Option<Seq<char>>,
    nat,
    Option<u8>,
) {
    let (k, cur) = skip_spec(content, cursor, current);
    scan_spec(content, k, cur, Seq::empty())
}

/// From a state whose current byte is the byte under the cursor, skipping whitespace keeps
/// it so, never moves the cursor back, and stops on a byte that is not whitespace.
proof fn lemma_skip_in_place(content: Seq<u8>, cursor: nat, current: Option<u8>)
    requires
        current == byte_at(content, cursor as int),
    ensures
        ({
            let (k, cur) = skip_spec(content, cursor, current);
            &&& cursor <= k
            &&& cur == byte_at(content, k as int)
            &&& cur matches Some(c) ==> !spec_byte_whitespace(c)
        }),
    decreases progress(content, cursor, current),
{
    if let Some(c) = current {
        if spec_byte_whitespace(c) {
            lemma_skip_in_place(content, cursor + 1, byte_at(content, cursor + 1int));
        }
    }
}

/// From a state whose current byte is the byte under the cursor and is not whitespace,
/// reading a token keeps the current byte under the cursor and never moves the cursor
/// back; no token is read only where the bytes ran out, and a token read is longer than
/// what was read before and holds no whitespace.
proof fn lemma_scan_in_place(content: Seq<u8>, cursor: nat, current: Option<u8>, acc: Seq<char>)
    requires
        current == byte_at(content, cursor as int),
        current matches Some(c) ==> !spec_byte_whitespace(c),
        no_ascii_whitespace(acc),
    ensures
        ({
            let (r, k, cur) = scan_spec(content, cursor, current, acc);
            &&& cursor <= k
            &&& cur == byte_at(content, k as int)
            &&& r is None ==> cur is None
            &&& r matches Some(t) ==> t.len() > acc.len() && no_ascii_whitespace(t)
        }),
    decreases progress(content, cursor, current),
{
    if let Some(c) = current {
        let next = byte_at(content, cursor + 1int);
        let acc2 = acc.push(c as char);
        assert(no_ascii_whitespace(acc2)) by {
            assert forall|i: int| 0 <= i < acc2.len() implies !spec_ascii_whitespace(
                #[trigger] acc2[i],
            ) by {
                if i < acc.len() {
                    assert(acc2[i] == acc[i]);
                }
            }
        }
        match next {
            Some(n) => {
                if !(spec_byte_whitespace(n) || spec_byte_punctuation(n) || spec_byte_punctuation(
                    c,
                )) {
                    lemma_scan_in_place(content, cursor + 1, next, acc2);
                }
            },
            None => {
                lemma_scan_in_place(content, cursor + 1, next, acc2);
            },
        }
    }
}

/// What `next_token` keeps: from a state whose current byte is the byte under the cursor,
/// it stays so and the cursor never moves back; when no token comes the bytes have run out,
/// and every later call gives no token either; a token is never empty and holds no ASCII
/// whitespace.
pub proof fn lemma_tokenizer_keeps_place(content: Seq<u8>, cursor: nat, current: Option<u8>)
    requires
        current == byte_at(content, cursor as int),
    ensures
        ({
            let (r, k, cur) = next_spec(content, cursor, current);
            &&& cursor <= k
            &&& cur == byte_at(content, k as int)
            &&& r is None ==> cur is None && next_spec(content, k, cur).0 is None
            &&& r matches Some(t) ==> t.len() > 0 && no_ascii_whitespace(t)
        }),
{
    lemma_skip_in_place(content, cursor, current);
    let (k, cur) = skip_spec(content, cursor, current);
    lemma_scan_in_place(content, k, cur, Seq::empty());
}

/// All the tokens that repeated calls of `next_token` return from a state, up to the first
/// `None`.
pub open spec fn tokens_from(content: Seq<u8>, cursor: nat, current: Option<u8>) -> Seq<Seq<char>>
    decreases progress(content, cursor, current),
{
    match next_spec(content, cursor, current) {
        (Some(t), k, cur) => if progress(content, k, cur) < progress(content, cursor, current) {
            seq![t] + tokens_from(content, k, cur)
        } else {
            Seq::empty()
        },
        _ => Seq::empty(),
    }
}

/// The characters of an optional string.
pub open spec fn opt_view(r: Option<String>) -> Option<Seq<char>> {
    match r {
        Some(s) => Some(s@),
        None => None,
    }
}

/// `std::io::Error::new(ErrorKind::Other, "No Content")`.
#[verifier::external_body]
fn no_content_error() -> io::Error {
    io::Error::new(io::ErrorKind::Other, "No Content")
}

/// `PathBuf::display` written into a `String`.
#[verifier::external_body]
fn display_path(p: &PathBuf) -> String {
    p.display().to_string()
}

/// Splits bytes into tokens.
pub struct Tokenizer {
    pub name: String,
    pub content: Vec<u8>,
    cursor: usize,
    current: Option<u8>,
}

impl Tokenizer {
    /// The position of the current byte.
    pub closed spec fn cursor_pos(&self) -> nat {
        self.cursor as nat
    }

    /// The byte under the cursor, as last read.
    pub closed spec fn current_byte(&self) -> Option<u8> {
        self.current
    }

    /// The bytes.
    pub closed spec fn content_view(&self) -> Seq<u8> {
        self.content@
    }

    /// The name.
    pub closed spec fn name_view(&self) -> Seq<char> {
        self.name@
    }

    /// The measure of the state.
    pub open spec fn measure(&self) -> nat {
        progress(self.content_view(), self.cursor_pos(), self.current_byte())
    }

    /// A tokenizer over the bytes of the text that `something` yields, named after its
    /// path; an error when it yields no text.
    pub fn from(something: &mut impl IntoText) -> (r: io::Result<Self>)
        ensures
            r matches Ok(t) ==> t.cursor_pos() == 0 && t.current_byte() == byte_at(t.content_view(), 0)
                && exists|text: Seq<char>| t.content_view() == #[trigger] vstd::utf8::encode_utf8(text),
    {
        match something.into_text() {
            Some(content) => {
                let name = display_path(&something.get_path());
                Ok(Self::from_text(name, content.as_str()))
            },
            None => Err(no_content_error()),
        }
    }

    /// A tokenizer named `name` over the UTF-8 bytes of `text`, at its first byte.
    pub fn from_text(name: String, text: &str) -> (r: Self)
        ensures
            r.name_view() == name@,
            r.content_view() == vstd::utf8::encode_utf8(text@),
            r.cursor_pos() == 0,
            r.current_byte() == byte_at(r.content_view(), 0),
    {
        let bytes = text.as_bytes();
        let mut v: Vec<u8> = Vec::new();
        let mut i: usize = 0;
        while i < bytes.len()
            invariant
                i <= bytes@.len(),
                v@ == bytes@.take(i as int),
            decreases bytes@.len() - i,
        {
            v.push(bytes[i]);
            assert(v@ =~= bytes@.take(i + 1));
            i += 1;
        }
        assert(v@ =~= bytes@);
        Self::from_bytes(name, v)
    }

    /// A tokenizer named `name` over `content`, at its first byte.
    pub fn from_bytes(name: String, content: Vec<u8>) -> (r: Self)
        ensures
            r.name_view() == name@,
            r.content_view() == content@,
            r.cursor_pos() == 0,
            r.current_byte() == byte_at(content@, 0),
    {
        let current = if content.len() > 0 {
            Some(content[0])
        } else {
            None
        };
        Self { name, content, current, cursor: 0 }
    }

    /// The byte `ahead` places (one by default) after the cursor, if there is one.
    pub fn peek(&self, ahead: Option<usize>) -> (r: Option<u8>)
        requires
            self.cursor_pos() + match ahead {
                Some(a) => a as nat,
                None => 1nat,
            } <= usize::MAX,
        ensures
            r == byte_at(
                self.content_view(),
                self.cursor_pos() + match ahead {
                    Some(a) => a as int,
                    None => 1int,
                },
            ),
    {
        let ahead = match ahead {
            Some(a) => a,
            None => 1,
        };
        if self.cursor + ahead > self.content.len() {
            None
        } else if self.cursor + ahead < self.content.len() {
            Some(self.content[self.cursor + ahead])
        } else {
            None
        }
    }

    /// Moves the cursor one byte on.
    pub fn consume(&mut self)
        requires
            old(self).cursor_pos() < usize::MAX,
        ensures
            final(self).name_view() == old(self).name_view(),
            final(self).content_view() == old(self).content_view(),
            final(self).cursor_pos() == old(self).cursor_pos() + 1,
            final(self).current_byte() == byte_at(old(self).content_view(), old(self).cursor_pos() + 1int),
    {
        self.current = self.peek(None);
        self.cursor += 1;
    }

    /// Moves the cursor past ASCII whitespace.
    pub fn skip_whitespace(&mut self)
        requires
            old(self).current_byte() is Some ==> old(self).cursor_pos() < usize::MAX,
        ensures
            final(self).name_view() == old(self).name_view(),
            final(self).content_view() == old(self).content_view(),
            (final(self).cursor_pos(), final(self).current_byte()) == skip_spec(
                old(self).content_view(),
                old(self).cursor_pos(),
                old(self).current_byte(),
            ),
            final(self).current_byte() is Some ==> final(self).cursor_pos() < usize::MAX,
            final(self).measure() <= old(self).measure(),
    {
        let len = self.content.len();
        while self.current.is_some() && byte_is_ascii_whitespace(self.current.unwrap())
            invariant
                self.content@.len() == len,
                self.name@ == old(self).name@,
                self.content@ == old(self).content@,
                skip_spec(self.content@, self.cursor_pos(), self.current_byte()) == skip_spec(
                    old(self).content@,
                    old(self).cursor_pos(),
                    old(self).current_byte(),
                ),
                self.current_byte() is Some ==> self.cursor_pos() < usize::MAX,
                self.measure() <= old(self).measure(),
            decreases self.measure(),
        {
            self.consume();
        }
    }

    /// Skips whitespace and reads the next token: bytes are taken as characters up to and
    /// including one that is followed by ASCII whitespace, or that is followed by or is
    /// itself ASCII punctuation. When the bytes run out first, there is no token.
    pub fn next_token(&mut self) -> (r: Option<String>)
        requires
            old(self).current_byte() is Some ==> old(self).cursor_pos() < usize::MAX,
        ensures
            final(self).name_view() == old(self).name_view(),
            final(self).content_view() == old(self).content_view(),
            (opt_view(r), final(self).cursor_pos(), final(self).current_byte()) == next_spec(
                old(self).content_view(),
                old(self).cursor_pos(),
                old(self).current_byte(),
            ),
            final(self).current_byte() is Some ==> final(self).cursor_pos() < usize::MAX,
            final(self).measure() <= old(self).measure(),
            r is Some ==> final(self).measure() < old(self).measure(),
    {
        let mut tok = String::new();
        self.skip_whitespace();
        let ghost k = self.cursor_pos();
        let ghost cur = self.current_byte();
        let len = self.content.len();
        loop
            invariant
                self.content@.len() == len,
                self.name@ == old(self).name@,
                self.content@ == old(self).content@,
                scan_spec(self.content@, k, cur, Seq::empty()) == scan_spec(
                    self.content@,
                    self.cursor_pos(),
                    self.current_byte(),
                    tok@,
                ),
                self.current_byte() is Some ==> self.cursor_pos() < usize::MAX,
                self.measure() <= old(self).measure(),
                self.measure() < old(self).measure() || (self.cursor_pos() == k
                    && self.current_byte() == cur),
                (k, cur) == skip_spec(
                    old(self).content@,
                    old(self).cursor_pos(),
                    old(self).current_byte(),
                ),
            decreases self.measure(),
        {
            match self.current {
                Some(c) => {
                    let next = self.peek(None);
                    match next {
                        Some(n) => {
                            if byte_is_ascii_whitespace(n) || byte_is_ascii_punctuation(n)
                                || byte_is_ascii_punctuation(c) {
                                push_char(&mut tok, c as char);
                                self.consume();
                                return Some(tok);
                            }
                        },
                        None => {},
                    }
                    push_char(&mut tok, c as char);
                    self.consume();
                },
                None => {
                    assert(scan_spec(self.content@, k, cur, Seq::empty()) == (
                        None::<Seq<char>>,
                        self.cursor_pos(),
                        self.current_byte(),
                    ));
                    return None;
                },
            }
        }
    }

    /// All the tokens left, as repeated calls of `next_token` return them up to the first
    /// `None`.
    pub fn into_tokens(self) -> (r: Vec<String>)
        requires
            self.current_byte() is Some ==> self.cursor_pos() < usize::MAX,
        ensures
            r@.map_values(|s: String| s@) == tokens_from(
                self.content_view(),
                self.cursor_pos(),
                self.current_byte(),
            ),
    {
        let ghost content = self.content@;
        let ghost c0 = self.cursor_pos();
        let ghost cur0 = self.current_byte();
        let mut tokenizer = self;
        let mut out: Vec<String> = Vec::new();
        assert(out@.map_values(|s: String| s@) + tokens_from(content, c0, cur0) =~= tokens_from(
            content,
            c0,
            cur0,
        ));
        loop
            invariant
                content == self.content_view(),
                c0 == self.cursor_pos(),
                cur0 == self.current_byte(),
                tokenizer.content@ == content,
                tokenizer.current_byte() is Some ==> tokenizer.cursor_pos() < usize::MAX,
                tokens_from(content, c0, cur0) == out@.map_values(|s: String| s@) + tokens_from(
                    content,
                    tokenizer.cursor_pos(),
                    tokenizer.current_byte(),
                ),
            decreases tokenizer.measure(),
        {
            let ghost before = (tokenizer.cursor_pos(), tokenizer.current_byte());
            match tokenizer.next_token() {
                Some(t) => {
                    let ghost old_out = out@;
                    out.push(t);
                    assert(out@.map_values(|s: String| s@) =~= old_out.map_values(|s: String| s@).push(
                        t@,
                    ));
                    assert(tokens_from(content, before.0, before.1) =~= seq![t@] + tokens_from(
                        content,
                        tokenizer.cursor_pos(),
                        tokenizer.current_byte(),
                    ));
                    assert(tokens_from(content, c0, cur0) =~= out@.map_values(|s: String| s@)
                        + tokens_from(content, tokenizer.cursor_pos(), tokenizer.current_byte()));
                },
                None => {
                    assert(tokens_from(content, before.0, before.1) =~= Seq::<Seq<char>>::empty());
                    assert(tokens_from(content, c0, cur0) =~= out@.map_values(|s: String| s@));
                    return out;
                },
            }
        }
    }
}

/// One document's step of the directory's token counts: a token seen before gains the
/// document's count of it, a token seen for the first time counts one.
pub open spec fn doc_step(m: Map<Seq<char>, nat>, d: Map<Seq<char>, nat>) -> Map<Seq<char>, nat> {
    Map::new(
        |w: Seq<char>| m.contains_key(w) || d.contains_key(w),
        |w: Seq<char>|
            if d.contains_key(w) {
                if m.contains_key(w) {
                    m[w] + d[w]
                } else {
                    1nat
                }
            } else {
                m[w]
            },
    )
}

/// The directory's token counts over the documents `docs`, document after document.
pub open spec fn doc_token_counts(docs: Seq<Map<Seq<char>, nat>>) -> Map<Seq<char>, nat>
    decreases docs.len(),
{
    if docs.len() == 0 {
        Map::empty()
    } else {
        doc_step(doc_token_counts(docs.drop_last()), docs.last())
    }
}

/// Every count fits in an `i32`.
pub open spec fn fits_i32(m: Map<Seq<char>, nat>) -> bool {
    forall|w: Seq<char>| #[trigger] m.contains_key(w) ==> m[w] <= i32::MAX
}

/// A token counted after some of the documents is counted after all of them, at least as
/// often.
proof fn lemma_doc_counts_grow(docs: Seq<Map<Seq<char>, nat>>, i: int, w: Seq<char>)
    requires
        0 <= i <= docs.len(),
        doc_token_counts(docs.take(i)).contains_key(w),
    ensures
        doc_token_counts(docs).contains_key(w),
        doc_token_counts(docs.take(i))[w] <= doc_token_counts(docs)[w],
    decreases docs.len() - i,
{
    if i < docs.len() {
        assert(docs.take(i + 1).drop_last() =~= docs.take(i));
        lemma_doc_counts_grow(docs, i + 1, w);
    } else {
        assert(docs.take(i) =~= docs);
    }
}

/// The first document that holds a token counts it once, whatever its own count: the
/// directory's count of a token held by one document only is one.
pub proof fn lemma_first_document_counts_one(d: Map<Seq<char>, nat>, w: Seq<char>)
    requires
        d.contains_key(w),
    ensures
        doc_token_counts(seq![d]).contains_key(w),
        doc_token_counts(seq![d])[w] == 1,
{
    let ds = seq![d];
    assert(ds.drop_last() =~= Seq::<Map<Seq<char>, nat>>::empty());
    assert(ds.last() == d);
    let m = doc_token_counts(ds.drop_last());
    assert(!m.contains_key(w));
    assert(doc_token_counts(ds) == doc_step(m, d));
}

/// The token counts of a directory from the token counts of its documents, in order: each
/// document adds its count of a token already seen, and a token seen for the first time
/// counts one. `None` when a count exceeds `i32::MAX`.
pub fn token_document_counts(docs: &Vec<WordCounts>) -> (r: Option<WordCounts>)
    requires
        forall|i: int| 0 <= i < docs@.len() ==> #[trigger] docs@[i].wf(),
    ensures
        r is Some <==> fits_i32(doc_token_counts(docs@.map_values(|d: WordCounts| d@))),
        r matches Some(m) ==> m.wf() && m@ == doc_token_counts(
            docs@.map_values(|d: WordCounts| d@),
        ),
{
    let ghost ds = docs@.map_values(|d: WordCounts| d@);
    let mut acc = WordCounts::new();
    let mut i: usize = 0;
    while i < docs.len()
        invariant
            i <= docs@.len(),
            ds == docs@.map_values(|d: WordCounts| d@),
            forall|k: int| 0 <= k < docs@.len() ==> #[trigger] docs@[k].wf(),
            acc.wf(),
            acc@ == doc_token_counts(ds.take(i as int)),
            fits_i32(acc@),
        decreases docs@.len() - i,
    {
        assert(docs@[i as int].wf());
        let pairs = docs[i].pairs();
        proof {
            lemma_entries_map(pairs@);
        }
        let ghost m = doc_token_counts(ds.take(i as int));
        let mut j: usize = 0;
        while j < pairs.len()
            invariant
                i < docs@.len(),
                j <= pairs@.len(),
                ds == docs@.map_values(|d: WordCounts| d@),
                m == doc_token_counts(ds.take(i as int)),
                entries_map(pairs@) == ds[i as int],
                distinct_words(pairs@),
                positive_counts(pairs@),
                acc.wf(),
                acc@ == doc_step(m, entries_map(pairs@.take(j as int))),
                fits_i32(acc@),
            decreases pairs@.len() - j,
        {
            let word = &pairs[j].0;
            let count = pairs[j].1;
            let ghost w = word@;
            let ghost e = entries_map(pairs@.take(j as int));
            proof {
                lemma_entries_map(pairs@.take(j as int));
                assert(!e.contains_key(w)) by {
                    if e.contains_key(w) {
                        let k = choose|k: int|
                            0 <= k < pairs@.take(j as int).len() && pairs@.take(j as int)[k].0@
                                == w;
                        assert(pairs@[k].0@ != pairs@[j as int].0@);
                    }
                }
                lemma_entries_map(pairs@);
                assert(ds.take(i + 1).drop_last() =~= ds.take(i as int));
                assert(ds.take(i + 1).last() == ds[i as int]);
                assert(pairs@.take(j + 1).drop_last() =~= pairs@.take(j as int));
            }
            match acc.get(word.as_str()) {
                Some(n) => {
                    if count > 2147483647usize - n {
                        proof {
                            let full = doc_step(m, ds[i as int]);
                            assert(full[w] > i32::MAX);
                            lemma_doc_counts_grow(ds, i + 1, w);
                        }
                        return None;
                    }
                    acc.add(word.clone(), count);
                },
                None => {
                    acc.add(word.clone(), 1);
                },
            }
            proof {
                assert(acc@ =~= doc_step(m, entries_map(pairs@.take(j + 1))));
            }
            j += 1;
        }
        proof {
            assert(pairs@.take(j as int) =~= pairs@);
            assert(ds.take(i + 1).drop_last() =~= ds.take(i as int));
            assert(acc@ =~= doc_token_counts(ds.take(i + 1)));
        }
        i += 1;
    }
    proof {
        assert(ds.take(i as int) =~= ds);
    }
    Some(acc)
}

} // verus!
