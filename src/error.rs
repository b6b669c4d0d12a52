use vstd::prelude::*;

verus! {

/// Errors reported by the library.
#[derive(Debug, PartialEq, Eq)]
pub enum LangErr {
    /// A file that was expected to hold data was empty.
    FileEmpty(String),
    /// A piece of a word could not be matched to a known syllable, or a
    /// syllable has no entry in a table that it needs one in.
    InvalidSyllable(String),
    /// A syllable stands at a position its rule does not allow.
    InvalidSyllablePosition(String, usize),
    /// A position rule name that is not one of the known rules.
    UnknownPosition(String),
    /// No syllable may be placed at some slot of a word.
    NoValidCandidate,
    /// Percentages were asked of counts that are all zero.
    EmptyDatabase,
}

} // verus!
