//! Plain text files.
use vstd::prelude::*;

verus! {

/// A plain text file.
pub struct TextFile {
    pub filename: String,
}

impl TextFile {
    /// The text file at `filename`.
    pub fn new(filename: &str) -> (r: Self)
        ensures
            r.filename@ == filename@,
    {
        Self { filename: filename.to_owned() }
    }
}

} // verus!
