//! The failures of the library.

use vstd::prelude::*;

verus! {

/// Why an operation of this library failed.
#[derive(Clone, Copy, PartialEq, Eq, Debug, Hash, Structural)]
pub enum WordleError {
    /// A word, a feedback code or a word list is malformed.
    InvalidInput,
    /// Something that was looked for is absent: the script tag of the puzzle's
    /// page, or one of the two word arrays of its script.
    NotFound,
}

impl WordleError {
    /// What went wrong, in words.
    pub open spec fn spec_description(self) -> Seq<char> {
        match self {
            WordleError::InvalidInput => "a word, a feedback code or a word list is malformed"@,
            WordleError::NotFound => "the script of the puzzle or one of its word lists was not found"@,
        }
    }

    /// What went wrong, in words.
    pub fn description(&self) -> (r: &'static str)
        ensures
            r@ == self.spec_description(),
    {
        match self {
            WordleError::InvalidInput => "a word, a feedback code or a word list is malformed",
            WordleError::NotFound => "the script of the puzzle or one of its word lists was not found",
        }
    }
}

} // verus!
