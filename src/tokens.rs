use vstd::prelude::*;

use crate::program::Instruction;

verus! {

/// One of the eight commands of the language.
#[derive(Debug, Clone, Copy, PartialEq, Eq, Structural)]
pub enum Token {
    /// `<`
    Left,
    /// `>`
    Right,
    /// `+`
    Inc,
    /// `-`
    Dec,
    /// `.`
    Put,
    /// `,`
    Get,
    /// `[`
    Open,
    /// `]`
    Close,
}

/// The command that a character spells, if any.
pub open spec fn token_of(c: char) -> Option<Token> {
    if c == '<' {
        Some(Token::Left)
    } else if c == '>' {
        Some(Token::Right)
    } else if c == '+' {
        Some(Token::Inc)
    } else if c == '-' {
        Some(Token::Dec)
    } else if c == '.' {
        Some(Token::Put)
    } else if c == ',' {
        Some(Token::Get)
    } else if c == '[' {
        Some(Token::Open)
    } else if c == ']' {
        Some(Token::Close)
    } else {
        None
    }
}

/// The commands of a text, in order; every other character is a comment.
pub open spec fn lex(s: Seq<char>) -> Seq<Token>
    decreases s.len(),
{
    if s.len() == 0 {
        Seq::empty()
    } else {
        match token_of(s.last()) {
            Some(t) => lex(s.drop_last()).push(t),
            None => lex(s.drop_last()),
        }
    }
}

/// Lexing never lengthens a text.
pub proof fn lemma_lex_len(s: Seq<char>)
    ensures
        lex(s).len() <= s.len(),
    decreases s.len(),
{
    if s.len() > 0 {
        lemma_lex_len(s.drop_last());
    }
}

impl Token {
    pub fn new_from_char(c: char) -> (r: Option<Token>)
        ensures
            r == token_of(c),
    {
        match c {
            '<' => Some(Token::Left),
            '>' => Some(Token::Right),
            '+' => Some(Token::Inc),
            '-' => Some(Token::Dec),
            '.' => Some(Token::Put),
            ',' => Some(Token::Get),
            '[' => Some(Token::Open),
            ']' => Some(Token::Close),
            _ => None,
        }
    }

    /// The commands of `chars`, in order, with every other character dropped.
    pub fn lex_from_iter(chars: &[char]) -> (r: Vec<Token>)
        ensures
            r@ == lex(chars@),
    {
        let mut out: Vec<Token> = Vec::new();
        let mut i: usize = 0;
        while i < chars.len()
            invariant
                i <= chars@.len(),
                out@ == lex(chars@.subrange(0, i as int)),
            decreases chars@.len() - i,
        {
            assert(chars@.subrange(0, i as int) == chars@.subrange(0, i + 1).drop_last());
            match Token::new_from_char(chars[i]) {
                Some(t) => out.push(t),
                None => {},
            }
            i = i + 1;
        }
        assert(chars@.subrange(0, i as int) == chars@);
        out
    }

    /// The commands of a text, in order, with every other character dropped.
    pub fn lex_str(text: &str) -> (r: Vec<Token>)
        ensures
            r@ == lex(text@),
    {
        let mut out: Vec<Token> = Vec::new();
        broadcast use vstd::string::axiom_spec_iter;
        for c in it: text.chars()
            invariant
                it.seq() == text@,
                out@ == lex(text@.subrange(0, it.index() as int)),
        {
            assert(text@.subrange(0, it.index() as int) == text@.subrange(0, it.index() + 1).drop_last());
            match Token::new_from_char(c) {
                Some(t) => out.push(t),
                None => {},
            }
        }
        assert(text@.subrange(0, text@.len() as int) == text@);
        out
    }
}

/// The command an instruction is compiled from; a run is named by its
/// direction, a run of no net change as a step right or an increment.
pub open spec fn token_for(ins: Instruction) -> Token {
    match ins {
        Instruction::Shift(d) => if d < 0 {
            Token::Left
        } else {
            Token::Right
        },
        Instruction::Add(d) => if d < 0 {
            Token::Dec
        } else {
            Token::Inc
        },
        Instruction::Output => Token::Put,
        Instruction::Input => Token::Get,
        Instruction::JumpIfZero(_) => Token::Open,
        Instruction::JumpIfNonZero(_) => Token::Close,
    }
}

impl From<Instruction> for Token {
    fn from(ins: Instruction) -> Token {
        match ins {
            Instruction::Shift(d) => if d < 0 {
                Token::Left
            } else {
                Token::Right
            },
            Instruction::Add(d) => if d < 0 {
                Token::Dec
            } else {
                Token::Inc
            },
            Instruction::Output => Token::Put,
            Instruction::Input => Token::Get,
            Instruction::JumpIfZero(_) => Token::Open,
            Instruction::JumpIfNonZero(_) => Token::Close,
        }
    }
}

impl vstd::std_specs::convert::FromSpecImpl<Instruction> for Token {
    open spec fn obeys_from_spec() -> bool {
        true
    }

    open spec fn from_spec(ins: Instruction) -> Token {
        token_for(ins)
    }
}

} // verus!
