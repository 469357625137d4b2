use vstd::prelude::*;

verus! {

/// The two fatal conditions of the language.
#[derive(Debug, Clone, Copy, PartialEq, Eq, Structural)]
pub enum Error {
    /// A bracket without a partner, at this position of the token stream.
    UnmatchedBracket(usize),
    /// The cursor would move below the first cell, or past the last index
    /// the tape can grow to.
    OutOfBounds,
}

} // verus!
