use brainfuck::{Instruction, Token};

fn lex(text: &str) -> Vec<Token> {
    let chars: Vec<char> = text.chars().collect();
    Token::lex_from_iter(&chars)
}

#[test]
fn lexes_basic() {
    assert_eq!(
        lex("<>+-.,[]"),
        vec![
            Token::Left,
            Token::Right,
            Token::Inc,
            Token::Dec,
            Token::Put,
            Token::Get,
            Token::Open,
            Token::Close,
        ]
    )
}

#[test]
fn skips_other_chars() {
    assert_eq!(
        lex("<>+-gelloasjdhhg.,[]"),
        vec![
            Token::Left,
            Token::Right,
            Token::Inc,
            Token::Dec,
            Token::Put,
            Token::Get,
            Token::Open,
            Token::Close,
        ]
    )
}

#[test]
fn lex_str_matches_lex_from_iter() {
    let text = "a+b[c]d>é<";
    assert_eq!(Token::lex_str(text), lex(text));
    assert_eq!(
        Token::lex_str(text),
        vec![Token::Inc, Token::Open, Token::Close, Token::Right, Token::Left]
    );
}

#[test]
fn new_from_char_maps_each_command() {
    assert_eq!(Token::new_from_char('<'), Some(Token::Left));
    assert_eq!(Token::new_from_char('>'), Some(Token::Right));
    assert_eq!(Token::new_from_char('+'), Some(Token::Inc));
    assert_eq!(Token::new_from_char('-'), Some(Token::Dec));
    assert_eq!(Token::new_from_char('.'), Some(Token::Put));
    assert_eq!(Token::new_from_char(','), Some(Token::Get));
    assert_eq!(Token::new_from_char('['), Some(Token::Open));
    assert_eq!(Token::new_from_char(']'), Some(Token::Close));
    assert_eq!(Token::new_from_char('x'), None);
    assert_eq!(Token::new_from_char(' '), None);
}

#[test]
fn lexing_empty_text_gives_nothing() {
    assert_eq!(lex(""), Vec::<Token>::new());
    assert_eq!(lex("no commands here"), Vec::<Token>::new());
}

#[test]
fn instruction_maps_back_to_its_token() {
    assert_eq!(Token::from(Instruction::Shift(-2)), Token::Left);
    assert_eq!(Token::from(Instruction::Shift(3)), Token::Right);
    assert_eq!(Token::from(Instruction::Add(4)), Token::Inc);
    assert_eq!(Token::from(Instruction::Add(-1)), Token::Dec);
    assert_eq!(Token::from(Instruction::Output), Token::Put);
    assert_eq!(Token::from(Instruction::Input), Token::Get);
    assert_eq!(Token::from(Instruction::JumpIfZero(5)), Token::Open);
    assert_eq!(Token::from(Instruction::JumpIfNonZero(0)), Token::Close);
}
