//! The errors of the front end.

use vstd::prelude::*;
use crate::term::Term;

verus! {

/// What can go wrong between source text and a term.
#[derive(Debug)]
pub enum Error {
    /// The file that a `use` names cannot be read; with its path.
    ModuleNotFound(String),
    /// A name is neither bound, nor defined, nor the name of an identifier.
    DefNotFound(String),
    /// The tokens are not a program; with the place in the source where the
    /// parser stopped, counted in bytes.
    ParserError(usize),
    /// A character starts no token; with its place in the source, counted
    /// in bytes.
    LexerError(usize),
    /// A name is defined a second time; with the term it stands for.
    AlreadyDefined(String, Term),
    /// An identifier or the size of a term has left the range of the
    /// machine's integers.
    OutOfRange,
}

/// The result of a step of the front end.
pub type Result<T> = core::result::Result<T, Error>;

} // verus!
