//! A minimal front-end for a toy module/function language.
//!
//! The crate tokenizes source text, builds a tree of declared items
//! (modules and functions), and resolves the dotted identifiers used in
//! function bodies to stable item handles.  The heart of the crate is
//! the item database together with the two-phase identifier resolver:
//! phase 1 turns `using` declarations into scope-local aliases, phase 2
//! rewrites every call's dotted identifier into a concrete handle.
//!
//! Every operation reports failure as a value of [`error::ResolveError`];
//! nothing in this crate panics on bad input.

pub mod ast;
pub mod database;
pub mod error;
pub mod laws;
pub mod lexer;
pub mod model;
pub mod parser;
