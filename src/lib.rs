//! A compiler and a step-driven execution engine for a tape language of eight
//! commands: `<` `>` `+` `-` `.` `,` `[` `]`.
//!
//! Source text is filtered into tokens, tokens are compiled into a flat
//! program with folded runs and resolved jump targets, and the engine runs
//! that program one instruction at a time over a growable byte tape.

pub mod correctness;
pub mod error;
pub mod interpreter;
pub mod op;
pub mod parser;
pub mod program;
pub mod tokens;

pub use error::Error;
pub use interpreter::{Interpreter, Status};
pub use op::Op;
pub use parser::Parser;
pub use program::{Instruction, Program};
pub use tokens::Token;
