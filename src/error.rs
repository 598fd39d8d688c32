use vstd::prelude::*;

verus! {

/// Why a rule file or a dictionary file could not be loaded. Lines are
/// numbered from 1, the header being line 1.
#[derive(Clone, Copy, Debug, Hash, PartialEq, Eq)]
pub enum Error {
    /// A line does not have the expected field structure.
    ParseError { lineno: usize, expected: &'static str },
    /// A field that should hold a decimal integer does not.
    ParseInteger { lineno: usize },
}

} // verus!
