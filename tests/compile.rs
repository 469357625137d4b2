use brainfuck::parser::Parser;
use brainfuck::{Error, Instruction, Program, Token};

fn code_of(text: &str) -> Vec<Instruction> {
    let program = Program::from_text(text).expect("compiles");
    (0..program.len())
        .map(|i| program.get_instruction(i).unwrap())
        .collect()
}

fn assert_jumps_paired(code: &[Instruction]) {
    for (k, ins) in code.iter().enumerate() {
        match *ins {
            Instruction::JumpIfZero(t) => {
                assert!(t > k);
                assert_eq!(code[t], Instruction::JumpIfNonZero(k));
            }
            Instruction::JumpIfNonZero(t) => {
                assert!(t < k);
                assert_eq!(code[t], Instruction::JumpIfZero(k));
            }
            _ => {}
        }
    }
}

#[test]
fn scenario_add_then_output_compiles() {
    assert_eq!(code_of("++."), vec![Instruction::Add(2), Instruction::Output]);
}

#[test]
fn scenario_clear_loop_compiles() {
    assert_eq!(
        code_of("+[-]"),
        vec![
            Instruction::Add(1),
            Instruction::JumpIfZero(3),
            Instruction::Add(-1),
            Instruction::JumpIfNonZero(1),
        ]
    );
}

#[test]
fn scenario_leftover_open_reports_outer() {
    assert_eq!(Program::from_text("[[]").unwrap_err(), Error::UnmatchedBracket(0));
}

#[test]
fn nested_brackets_are_paired() {
    let code = code_of("+[>[-]<-[[.]]]>,[<]");
    assert_jumps_paired(&code);
    assert_eq!(code[1], Instruction::JumpIfZero(13));
    assert_eq!(code[13], Instruction::JumpIfNonZero(1));
    assert_eq!(code[3], Instruction::JumpIfZero(5));
}

#[test]
fn excess_close_reports_its_token_position() {
    assert_eq!(Program::from_text("]").unwrap_err(), Error::UnmatchedBracket(0));
    assert_eq!(Program::from_text("+]").unwrap_err(), Error::UnmatchedBracket(1));
    assert_eq!(Program::from_text("x y + ]").unwrap_err(), Error::UnmatchedBracket(1));
    assert_eq!(Program::from_text("[]][").unwrap_err(), Error::UnmatchedBracket(2));
}

#[test]
fn leftover_open_reports_leftmost_unclosed() {
    assert_eq!(Program::from_text("[][").unwrap_err(), Error::UnmatchedBracket(2));
    assert_eq!(Program::from_text("+[[][").unwrap_err(), Error::UnmatchedBracket(1));
}

#[test]
fn runs_fold_into_one_instruction() {
    let text: String = std::iter::repeat('>').take(1000).collect();
    assert_eq!(code_of(&text), vec![Instruction::Shift(1000)]);
    assert_eq!(code_of("<<<"), vec![Instruction::Shift(-3)]);
    assert_eq!(code_of("---"), vec![Instruction::Add(-3)]);
    let text: String = std::iter::repeat('+').take(300).collect();
    assert_eq!(code_of(&text), vec![Instruction::Add(300)]);
}

#[test]
fn opposite_runs_fold_together() {
    assert_eq!(code_of("+-"), vec![Instruction::Add(0)]);
    assert_eq!(code_of("><<"), vec![Instruction::Shift(-1)]);
    assert_eq!(
        code_of("+>+"),
        vec![Instruction::Add(1), Instruction::Shift(1), Instruction::Add(1)]
    );
}

#[test]
fn output_and_input_do_not_fold() {
    assert_eq!(
        code_of("..,,"),
        vec![
            Instruction::Output,
            Instruction::Output,
            Instruction::Input,
            Instruction::Input,
        ]
    );
}

#[test]
fn empty_source_compiles_to_empty_program() {
    let program = Program::from_text("").unwrap();
    assert_eq!(program.len(), 0);
    assert_eq!(program.get_instruction(0), None);
}

#[test]
fn parser_reads_tokens_one_at_a_time() {
    let mut parser = Parser::new();
    assert_eq!(parser.parse_token(Token::Inc), Ok(()));
    assert_eq!(parser.parse_token(Token::Close), Err(Error::UnmatchedBracket(1)));
    assert_eq!(parser.parse_token(Token::Open), Ok(()));
    assert_eq!(parser.parse_token(Token::Close), Ok(()));
}

#[test]
fn parse_full_compiles_tokens() {
    let tokens = vec![Token::Inc, Token::Open, Token::Dec, Token::Close];
    let program = Parser::parse_full(&tokens).unwrap();
    assert_eq!(program.len(), 4);
    assert_eq!(program.get_instruction(1), Some(Instruction::JumpIfZero(3)));
    assert_eq!(
        Parser::parse_full(&[Token::Open]).unwrap_err(),
        Error::UnmatchedBracket(0)
    );
}
