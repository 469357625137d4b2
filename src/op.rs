use vstd::prelude::*;

verus! {

/// An operation of a compiled program.
pub type Op = crate::program::Instruction;

} // verus!
