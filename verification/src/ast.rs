use crate::database::ItemId;
use vstd::prelude::*;

verus! {

/// A dotted identifier exactly as written in source: a non-empty,
/// ordered sequence of name segments (`A2.a_func` becomes
/// `["A2", "a_func"]`).
#[derive(Debug)]
pub struct UnresolvedIdent {
    pub parts: Vec<String>,
}

impl View for UnresolvedIdent {
    type V = Seq<Seq<char>>;

    open spec fn view(&self) -> Seq<Seq<char>> {
        self.parts@.map_values(|p: String| p@)
    }
}

impl UnresolvedIdent {
    /// A dotted identifier is well formed when it has at least one
    /// segment.
    pub open spec fn wf(&self) -> bool {
        self@.len() > 0
    }
}

/// One node of a function body before resolution.  There is a single
/// expression form today, a call of a dotted identifier; the tag leaves
/// room for more.
#[derive(Debug)]
pub enum UnresolvedAST {
    Call { ident: UnresolvedIdent },
}

impl View for UnresolvedAST {
    type V = Seq<Seq<char>>;

    open spec fn view(&self) -> Seq<Seq<char>> {
        match self {
            UnresolvedAST::Call { ident } => ident@,
        }
    }
}

/// One node of a function body after resolution: the same shape as
/// [`UnresolvedAST`] with the identifier replaced by a concrete handle.
#[derive(Debug, Clone, Copy, PartialEq, Eq, Structural)]
pub enum ResolvedAST {
    Call { ident: ItemId },
}

impl View for ResolvedAST {
    type V = int;

    open spec fn view(&self) -> int {
        match self {
            ResolvedAST::Call { ident } => ident@,
        }
    }
}

} // verus!
