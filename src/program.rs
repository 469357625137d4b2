use vstd::prelude::*;

use crate::error::Error;
use crate::parser::{compile, Parser};
use crate::tokens::{lex, lemma_lex_len, Token};

verus! {

/// One instruction of a compiled program.
#[derive(Debug, Clone, Copy, PartialEq, Eq, Structural)]
pub enum Instruction {
    /// Move the cursor by this many cells; negative is to the left.
    Shift(isize),
    /// Change the current cell by this amount, modulo 256.
    Add(isize),
    /// Emit the current cell.
    Output,
    /// Read one byte into the current cell.
    Input,
    /// `[`: jump to the partner when the current cell is zero.
    JumpIfZero(usize),
    /// `]`: jump to the partner when the current cell is not zero.
    JumpIfNonZero(usize),
}

/// Every jump of `code` names a partner of the other kind that names it back.
pub open spec fn jumps_matched(code: Seq<Instruction>) -> bool {
    forall|k: int|
        0 <= k < code.len() ==> match #[trigger] code[k] {
            Instruction::JumpIfZero(t) => k < t < code.len() && code[t as int]
                == Instruction::JumpIfNonZero(k as usize),
            Instruction::JumpIfNonZero(t) => t < k && code[t as int] == Instruction::JumpIfZero(
                k as usize,
            ),
            _ => true,
        }
}

/// A compiled program: an immutable sequence of instructions whose jumps are
/// all resolved.
#[derive(Debug)]
pub struct Program {
    instructions: Vec<Instruction>,
}

impl View for Program {
    type V = Seq<Instruction>;

    closed spec fn view(&self) -> Seq<Instruction> {
        self.instructions@
    }
}

impl Program {
    #[verifier::type_invariant]
    pub(crate) open spec fn resolved(self) -> bool {
        jumps_matched(self@)
    }

    /// Wraps code whose jumps are resolved.
    pub(crate) fn from_code(code: Vec<Instruction>) -> (r: Program)
        requires
            jumps_matched(code@),
        ensures
            r@ == code@,
    {
        Program { instructions: code }
    }

    /// Lexes and compiles source text.
    pub fn from_text(text: &str) -> (r: Result<Program, Error>)
        requires
            text@.len() <= isize::MAX,
        ensures
            match compile(lex(text@)) {
                Ok(code) => r matches Ok(p) && p@ == code,
                Err(e) => r == Err::<Program, Error>(e),
            },
    {
        let tokens = Token::lex_str(text);
        proof {
            lemma_lex_len(text@);
        }
        Parser::parse_full(&tokens)
    }

    /// The instruction at `index`, if there is one.
    pub fn get_instruction(&self, index: usize) -> (r: Option<Instruction>)
        ensures
            r == (if index < self@.len() {
                Some(self@[index as int])
            } else {
                None
            }),
    {
        if index < self.instructions.len() {
            Some(self.instructions[index])
        } else {
            None
        }
    }

    /// The number of instructions.
    pub fn len(&self) -> (r: usize)
        ensures
            r == self@.len(),
    {
        self.instructions.len()
    }

}

} // verus!
