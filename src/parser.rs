use vstd::prelude::*;

use crate::correctness::{lemma_compiled_jumps_matched, lemma_error_persists, lemma_parse_prefix};
use crate::program::{Instruction, Program};
use crate::tokens::Token;

pub use crate::error::Error;

verus! {

/// What the compiler knows after reading some tokens.
pub ghost struct CompileState {
    /// The instructions emitted so far.
    pub code: Seq<Instruction>,
    /// The index in `code` of each unresolved `JumpIfZero`, innermost last.
    pub stack: Seq<usize>,
    /// The token position of each unresolved `[`, in the order of `stack`.
    pub sites: Seq<usize>,
    /// The number of tokens read.
    pub consumed: nat,
}

/// The state before any token is read.
pub open spec fn start() -> CompileState {
    CompileState { code: Seq::empty(), stack: Seq::empty(), sites: Seq::empty(), consumed: 0 }
}

/// Tokens that fold into a `Shift` or an `Add`.
pub open spec fn is_run_token(t: Token) -> bool {
    t == Token::Left || t == Token::Right || t == Token::Inc || t == Token::Dec
}

/// Tokens that fold into a `Shift`.
pub open spec fn is_shift_token(t: Token) -> bool {
    t == Token::Left || t == Token::Right
}

/// The amount that one run token contributes to its instruction.
pub open spec fn unit_of(t: Token) -> int {
    if t == Token::Left || t == Token::Dec {
        -1
    } else {
        1
    }
}

/// The magnitude of `ins` when it is the kind of instruction that `t` folds into.
pub open spec fn run_of(ins: Instruction, t: Token) -> Option<int> {
    match ins {
        Instruction::Shift(m) => if is_shift_token(t) {
            Some(m as int)
        } else {
            None
        },
        Instruction::Add(m) => if is_shift_token(t) {
            None
        } else {
            Some(m as int)
        },
        _ => None,
    }
}

/// The instruction of `t`'s kind with magnitude `m`.
pub open spec fn run_instruction(t: Token, m: int) -> Instruction {
    if is_shift_token(t) {
        Instruction::Shift(m as isize)
    } else {
        Instruction::Add(m as isize)
    }
}

/// Adds `n` to the last instruction when it has `t`'s kind, else appends a new
/// instruction of magnitude `n`.
pub open spec fn fold_code(code: Seq<Instruction>, t: Token, n: int) -> Seq<Instruction> {
    if code.len() > 0 && run_of(code.last(), t) is Some {
        code.drop_last().push(run_instruction(t, run_of(code.last(), t)->0 + n))
    } else {
        code.push(run_instruction(t, n))
    }
}

/// Reads one token.
pub open spec fn parse_step(s: CompileState, t: Token) -> Result<CompileState, Error> {
    let next = s.consumed + 1;
    match t {
        Token::Put => Ok(
            CompileState {
                code: s.code.push(Instruction::Output),
                stack: s.stack,
                sites: s.sites,
                consumed: next,
            },
        ),
        Token::Get => Ok(
            CompileState {
                code: s.code.push(Instruction::Input),
                stack: s.stack,
                sites: s.sites,
                consumed: next,
            },
        ),
        Token::Open => Ok(
            CompileState {
                code: s.code.push(Instruction::JumpIfZero(0)),
                stack: s.stack.push(s.code.len() as usize),
                sites: s.sites.push(s.consumed as usize),
                consumed: next,
            },
        ),
        Token::Close => if s.stack.len() == 0 {
            Err(Error::UnmatchedBracket(s.consumed as usize))
        } else {
            let o = s.stack.last();
            Ok(
                CompileState {
                    code: s.code.update(o as int, Instruction::JumpIfZero(s.code.len() as usize)).push(
                        Instruction::JumpIfNonZero(o),
                    ),
                    stack: s.stack.drop_last(),
                    sites: s.sites.drop_last(),
                    consumed: next,
                },
            )
        },
        _ => Ok(
            CompileState {
                code: fold_code(s.code, t, unit_of(t)),
                stack: s.stack,
                sites: s.sites,
                consumed: next,
            },
        ),
    }
}

/// The state after the first `i` tokens, or the first error among them.
pub open spec fn parse_upto(toks: Seq<Token>, i: int) -> Result<CompileState, Error>
    decreases i,
{
    if i <= 0 {
        Ok(start())
    } else {
        match parse_upto(toks, i - 1) {
            Ok(s) => parse_step(s, toks[i - 1]),
            Err(e) => Err(e),
        }
    }
}

/// The program of a token sequence: every bracket must have a partner, and
/// the earliest `[` left open is reported.
pub open spec fn compile(toks: Seq<Token>) -> Result<Seq<Instruction>, Error> {
    match parse_upto(toks, toks.len() as int) {
        Ok(s) => if s.stack.len() == 0 {
            Ok(s.code)
        } else {
            Err(Error::UnmatchedBracket(s.sites[0]))
        },
        Err(e) => Err(e),
    }
}

/// A `Shift` or `Add` has magnitude at most `n`.
pub open spec fn magnitude_within(ins: Instruction, n: nat) -> bool {
    match ins {
        Instruction::Shift(m) => -n <= m <= n,
        Instruction::Add(m) => -n <= m <= n,
        _ => true,
    }
}

/// The sizes that keep every index and magnitude representable.
pub open spec fn bounded(s: CompileState) -> bool {
    &&& s.stack.len() == s.sites.len()
    &&& s.code.len() <= s.consumed
    &&& forall|i: int| 0 <= i < s.stack.len() ==> s.stack[i] < s.code.len()
    &&& forall|i: int| 0 <= i < s.sites.len() ==> s.sites[i] < s.consumed
    &&& forall|k: int| 0 <= k < s.code.len() ==> magnitude_within(#[trigger] s.code[k], s.consumed)
}

/// The compiler's own state: the instructions emitted so far and the open
/// brackets that still wait for a partner.
#[derive(Debug)]
pub struct Parser {
    parsed: Vec<Instruction>,
    jump_stack: Vec<usize>,
    open_sites: Vec<usize>,
    consumed: usize,
}

impl View for Parser {
    type V = CompileState;

    closed spec fn view(&self) -> CompileState {
        CompileState {
            code: self.parsed@,
            stack: self.jump_stack@,
            sites: self.open_sites@,
            consumed: self.consumed as nat,
        }
    }
}

impl Parser {
    pub fn new() -> (r: Parser)
        ensures
            r@ == start(),
    {
        Parser { parsed: Vec::new(), jump_stack: Vec::new(), open_sites: Vec::new(), consumed: 0 }
    }

    /// Reads one token; on an error nothing changes.
    pub fn parse_token(&mut self, token: Token) -> (r: Result<(), Error>)
        requires
            bounded(old(self)@),
            old(self)@.consumed < isize::MAX,
        ensures
            match parse_step(old(self)@, token) {
                Ok(s) => r is Ok && final(self)@ == s,
                Err(e) => r == Err::<(), Error>(e) && final(self)@ == old(self)@,
            },
    {
        let ghost s0 = self@;
        match token {
            Token::Put => self.parsed.push(Instruction::Output),
            Token::Get => self.parsed.push(Instruction::Input),
            Token::Open => {
                self.jump_stack.push(self.parsed.len());
                self.open_sites.push(self.consumed);
                self.parsed.push(Instruction::JumpIfZero(0));
            },
            Token::Close => {
                if self.jump_stack.len() == 0 {
                    return Err(Error::UnmatchedBracket(self.consumed));
                }
                let open = self.jump_stack.pop().unwrap();
                self.open_sites.pop();
                let here = self.parsed.len();
                self.parsed.set(open, Instruction::JumpIfZero(here));
                self.parsed.push(Instruction::JumpIfNonZero(open));
            },
            _ => {
                let unit: isize = if token == Token::Left || token == Token::Dec {
                    -1
                } else {
                    1
                };
                let shift = token == Token::Left || token == Token::Right;
                let n = self.parsed.len();
                let mut merged = false;
                if n > 0 {
                    let last = self.parsed[n - 1];
                    proof {
                        assert(magnitude_within(self.parsed@[n - 1], self.consumed as nat));
                    }
                    match last {
                        Instruction::Shift(m) => if shift {
                            self.parsed.set(n - 1, Instruction::Shift(m + unit));
                            merged = true;
                        },
                        Instruction::Add(m) => if !shift {
                            self.parsed.set(n - 1, Instruction::Add(m + unit));
                            merged = true;
                        },
                        _ => {},
                    }
                }
                if !merged {
                    if shift {
                        self.parsed.push(Instruction::Shift(unit));
                    } else {
                        self.parsed.push(Instruction::Add(unit));
                    }
                }
            },
        }
        self.consumed = self.consumed + 1;
        proof {
            if let Ok(s) = parse_step(s0, token) {
                assert(self@.code =~= s.code);
                assert(self@.stack =~= s.stack);
                assert(self@.sites =~= s.sites);
            }
        }
        Ok(())
    }

    /// Compiles a whole token sequence. No sequence held in memory is longer
    /// than `isize::MAX`, which keeps every magnitude representable.
    pub fn parse_full(tokens: &[Token]) -> (r: Result<Program, Error>)
        requires
            tokens@.len() <= isize::MAX,
        ensures
            match compile(tokens@) {
                Ok(code) => r matches Ok(p) && p@ == code,
                Err(e) => r matches Err(x) && x == e,
            },
    {
        let mut parser = Parser::new();
        let mut i: usize = 0;
        while i < tokens.len()
            invariant
                i <= tokens@.len(),
                tokens@.len() <= isize::MAX,
                parse_upto(tokens@, i as int) == Ok::<CompileState, Error>(parser@),
            decreases tokens@.len() - i,
        {
            proof {
                lemma_parse_prefix(tokens@, i as int);
            }
            match parser.parse_token(tokens[i]) {
                Ok(()) => {},
                Err(e) => {
                    proof {
                        lemma_error_persists(tokens@, i + 1, tokens@.len() as int);
                    }
                    return Err(e);
                },
            }
            i = i + 1;
        }
        proof {
            lemma_parse_prefix(tokens@, i as int);
            lemma_compiled_jumps_matched(tokens@);
        }
        if parser.open_sites.len() > 0 {
            return Err(Error::UnmatchedBracket(parser.open_sites[0]));
        }
        Ok(Program::from_code(parser.parsed))
    }
}

} // verus!
