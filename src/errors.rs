use vstd::prelude::*;

verus! {

/// What can go wrong in indexing, storing and consulting laws.
#[derive(Debug, Clone, Copy, PartialEq, Eq, Structural)]
pub enum LawError {
    /// A key that the configuration must hold is absent.
    ConfigMissing,
    /// The configured language has no model.
    UnsupportedLanguage,
    /// The configured windows overlap by as much as a window holds.
    InvalidWindows,
    /// A number was expected (a hierarchy field, a mark's id, a size) and none was found.
    ParseError,
    /// A regular expression of a book's configuration does not compile.
    InvalidPattern,
    /// A book's text holds no structural mark, so it cannot be indexed.
    NoMarks,
    /// A phrase needs more windows than a part number can count.
    TooManyParts,
    /// An address is absent from the catalogue even after a reload.
    NotFound,
}

} // verus!
