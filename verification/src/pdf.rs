//! PDF documents.
use vstd::prelude::*;

use crate::stemmer::{lowercase, to_lowercase};

verus! {

/// A PDF document file.
pub struct PdfFile<P> {
    pub filename: P,
}

impl<P> PdfFile<P> {
    /// The document at `filename`.
    pub fn new(filename: P) -> (r: Self)
        ensures
            r.filename == filename,
    {
        Self { filename }
    }
}

/// The texts of `pages` one after the other.
pub open spec fn concat_pages(pages: Seq<String>) -> Seq<char>
    decreases pages.len(),
{
    if pages.len() == 0 {
        Seq::empty()
    } else {
        concat_pages(pages.drop_last()) + pages.last()@
    }
}

/// The text of a document from the texts of its pages: joined in order, then lowercased.
pub fn pages_text(pages: &Vec<String>) -> (r: String)
    ensures
        r@ == lowercase(concat_pages(pages@)),
{
    let mut content = String::new();
    let mut i: usize = 0;
    while i < pages.len()
        invariant
            i <= pages@.len(),
            content@ == concat_pages(pages@.take(i as int)),
        decreases pages@.len() - i,
    {
        content.append(pages[i].as_str());
        assert(pages@.take(i + 1).drop_last() =~= pages@.take(i as int));
        i += 1;
    }
    assert(pages@.take(i as int) =~= pages@);
    to_lowercase(content.as_str())
}

} // verus!
