//! The command line of the search program.
use vstd::prelude::*;

verus! {

/// The options of the search program: a directory to index, the index file, and the
/// terms to search for.
#[derive(Debug)]
pub struct Args {
    pub dir: Option<String>,
    pub index: Option<String>,
    pub search: Option<String>,
}

} // verus!
