//! Stemming of English words.
use vstd::prelude::*;

use rust_stemmers::{Algorithm, Stemmer};

verus! {

/// The stem that the English (Porter 2) algorithm of `rust_stemmers` gives a word.
pub uninterp spec fn english_stem(word: Seq<char>) -> Seq<char>;

/// The lowercase form that `str::to_lowercase` gives a string, by the Unicode lowercase
/// mappings.
pub uninterp spec fn lowercase(s: Seq<char>) -> Seq<char>;

/// The stem of a word as `stem` computes it: the English stem of its lowercase form.
pub open spec fn stem_spec(word: Seq<char>) -> Seq<char> {
    english_stem(lowercase(word))
}

/// `str::to_lowercase`; its result is named `lowercase`.
#[verifier::external_body]
pub(crate) fn to_lowercase(s: &str) -> (r: String)
    ensures
        r@ == lowercase(s@),
{
    s.to_lowercase()
}

/// `rust_stemmers::Stemmer::stem` with the stemmer that `Stemmer::create` makes for
/// `Algorithm::English`; the result is named `english_stem`.
#[verifier::external_body]
fn stem_english(word: &str) -> (r: String)
    ensures
        r@ == english_stem(word@),
{
    Stemmer::create(Algorithm::English).stem(word).to_string()
}

/// The English stem of the lowercase form of `word`.
pub fn stem(word: String) -> (r: String)
    ensures
        r@ == stem_spec(word@),
{
    let lower = to_lowercase(word.as_str());
    stem_english(lower.as_str())
}

/// The stem of a word is that of its lowercase form, wherever lowercasing that form again
/// changes nothing.
pub proof fn lemma_stem_ignores_case(word: Seq<char>)
    requires
        lowercase(lowercase(word)) == lowercase(word),
    ensures
        stem_spec(lowercase(word)) == stem_spec(word),
{
}

} // verus!
