use vstd::prelude::*;

verus! {

/// The failure kinds that lexing, item-tree building and identifier
/// resolution can report.  Every failure is returned as a value; no
/// function of this crate panics on bad input.
#[derive(Debug, Clone, Copy, PartialEq, Eq, Structural)]
pub enum ResolveError {
    /// The token stream did not match the grammar at some position, or
    /// the source text held a character no token can start with.
    UnexpectedToken,
    /// A path segment resolved to no binding anywhere in the visibility
    /// chain.
    SymbolNotFound,
    /// A non-final path segment named an item that is not a module, so
    /// the path cannot be traversed any further.
    InvalidPathSegment,
    /// Reserved for a stricter collision policy: two children of one
    /// scope sharing a name.  Under the current rules a later binding
    /// shadows an earlier one, so nothing reports this kind today.
    DuplicateDeclaration,
    /// A body operation was applied to an item that is not a function.
    InvalidItemKind,
}

} // verus!
