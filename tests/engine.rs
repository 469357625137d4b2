use brainfuck::interpreter::{TAPE_BLOCK, TAPE_LEN};
use brainfuck::{Error, Interpreter, Program, Status};

fn engine(text: &str) -> Interpreter {
    Interpreter::new(Program::from_text(text).expect("compiles"))
}

fn run(engine: &mut Interpreter) -> Result<Status, Error> {
    loop {
        match engine.step()? {
            Status::Continue => {}
            other => return Ok(other),
        }
    }
}

#[test]
fn scenario_add_then_output_runs() {
    let mut e = engine("++.");
    assert_eq!(e.step(), Ok(Status::Continue));
    assert_eq!(e.step(), Ok(Status::Halted));
    assert_eq!(e.pop_output(), Some(2));
    assert_eq!(e.pop_output(), None);
    assert_eq!(e.step(), Ok(Status::Halted));
}

#[test]
fn scenario_clear_loop_runs() {
    let mut e = engine("+[-]");
    assert_eq!(run(&mut e), Ok(Status::Halted));
    assert_eq!(e.current_cell(), 0);
    assert_eq!(e.step(), Ok(Status::Halted));
}

#[test]
fn scenario_input_blocks_until_fed() {
    let mut e = engine(",");
    assert_eq!(e.step(), Ok(Status::Blocked));
    assert_eq!(e.pc(), 0);
    e.push_input(65);
    assert_eq!(e.step(), Ok(Status::Halted));
    assert_eq!(e.current_cell(), 65);
}

#[test]
fn scenario_left_of_first_cell_is_out_of_bounds() {
    let mut e = engine("<");
    assert_eq!(e.step(), Err(Error::OutOfBounds));
    assert_eq!(e.pc(), 0);
    assert_eq!(e.cursor(), 0);
}

#[test]
fn byte_arithmetic_wraps_up() {
    let mut text: String = std::iter::repeat('+').take(255).collect();
    text.push('.');
    text.push('+');
    text.push('.');
    let mut e = engine(&text);
    assert_eq!(run(&mut e), Ok(Status::Halted));
    assert_eq!(e.pop_output(), Some(255));
    assert_eq!(e.pop_output(), Some(0));
}

#[test]
fn byte_arithmetic_wraps_down() {
    let mut e = engine("-.");
    assert_eq!(run(&mut e), Ok(Status::Halted));
    assert_eq!(e.pop_output(), Some(255));
}

#[test]
fn large_magnitudes_wrap() {
    let text: String = std::iter::repeat('+').take(513).collect();
    let mut e = engine(&text);
    assert_eq!(e.step(), Ok(Status::Halted));
    assert_eq!(e.current_cell(), 1);
    let text: String = std::iter::repeat('-').take(257).collect();
    let mut e = engine(&text);
    assert_eq!(e.step(), Ok(Status::Halted));
    assert_eq!(e.current_cell(), 255);
}

#[test]
fn new_engine_starts_zeroed() {
    let e = engine("+");
    assert_eq!(e.pc(), 0);
    assert_eq!(e.cursor(), 0);
    assert_eq!(e.tape_len(), TAPE_LEN);
    assert_eq!(e.cell(TAPE_LEN - 1), Some(0));
    assert_eq!(e.cell(TAPE_LEN), None);
    assert_eq!(e.program().len(), 1);
}

#[test]
fn tape_grows_in_blocks() {
    let mut text: String = std::iter::repeat('>').take(TAPE_LEN - 1).collect();
    text.push('+');
    let mut e = engine(&text);
    assert_eq!(e.step(), Ok(Status::Continue));
    assert_eq!(e.tape_len(), TAPE_LEN);
    assert_eq!(e.cursor(), TAPE_LEN - 1);

    let text: String = std::iter::repeat('>').take(TAPE_LEN).collect();
    let mut e = engine(&text);
    assert_eq!(e.step(), Ok(Status::Halted));
    assert_eq!(e.cursor(), TAPE_LEN);
    assert_eq!(e.tape_len(), TAPE_LEN + TAPE_BLOCK);
    assert_eq!(e.current_cell(), 0);

    let text: String = std::iter::repeat('>').take(TAPE_LEN + 2 * TAPE_BLOCK).collect();
    let mut e = engine(&text);
    assert_eq!(e.step(), Ok(Status::Halted));
    assert_eq!(e.tape_len(), TAPE_LEN + 3 * TAPE_BLOCK);
}

#[test]
fn moving_back_keeps_cells() {
    let mut e = engine(">+++<.>.");
    assert_eq!(run(&mut e), Ok(Status::Halted));
    assert_eq!(e.pop_output(), Some(0));
    assert_eq!(e.pop_output(), Some(3));
    assert_eq!(e.cell(1), Some(3));
}

#[test]
fn skipped_loop_jumps_past_partner() {
    let mut e = engine("[+].");
    assert_eq!(e.step(), Ok(Status::Continue));
    assert_eq!(e.pc(), 3);
    assert_eq!(e.step(), Ok(Status::Halted));
    assert_eq!(e.pop_output(), Some(0));
}

#[test]
fn echo_copies_input_to_output() {
    let mut e = engine(",[.,]");
    for b in [104u8, 105, 0] {
        e.push_input(b);
    }
    assert_eq!(run(&mut e), Ok(Status::Halted));
    assert_eq!(e.pop_output(), Some(104));
    assert_eq!(e.pop_output(), Some(105));
    assert_eq!(e.pop_output(), None);
}

#[test]
fn multiplication_loop() {
    let mut e = engine("+++[>++<-]>.");
    assert_eq!(run(&mut e), Ok(Status::Halted));
    assert_eq!(e.pop_output(), Some(6));
}

#[test]
fn empty_program_halts_at_once() {
    let mut e = engine("");
    assert_eq!(e.step(), Ok(Status::Halted));
    assert_eq!(e.step(), Ok(Status::Halted));
}
