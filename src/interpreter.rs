use vstd::prelude::*;

use std::collections::VecDeque;

use crate::error::Error;
use crate::program::{jumps_matched, Instruction, Program};

verus! {

/// The number of cells a new tape starts with.
pub const TAPE_LEN: usize = 30000;

/// The number of cells the tape grows by at a time.
pub const TAPE_BLOCK: usize = 4096;

/// The largest cursor position the tape can grow to.
pub const MAX_CURSOR: usize = usize::MAX - TAPE_BLOCK;

/// What one step leaves the engine in.
#[derive(Debug, Clone, Copy, PartialEq, Eq, Structural)]
pub enum Status {
    /// Instructions remain.
    Continue,
    /// The program has run to its end.
    Halted,
    /// An `Input` found the input queue empty; the same instruction runs
    /// again on the next step.
    Blocked,
}

/// The whole state of an engine.
pub ghost struct Machine {
    pub code: Seq<Instruction>,
    pub tape: Seq<u8>,
    pub cursor: int,
    pub pc: int,
    pub input: Seq<u8>,
    pub output: Seq<u8>,
}

/// `c + d` modulo 256.
pub open spec fn cell_add(c: u8, d: int) -> u8 {
    ((c + d) % 256) as u8
}

/// The tape length after growing a tape of `len` cells, block by block, until
/// it holds the cell `target`.
pub open spec fn grown_len(len: int, target: int) -> int
    decreases target + TAPE_BLOCK - len,
{
    if len <= target {
        grown_len(len + TAPE_BLOCK, target)
    } else {
        len
    }
}

/// The tape grown with zero cells until it holds the cell `target`.
pub open spec fn grow(tape: Seq<u8>, target: int) -> Seq<u8> {
    tape + Seq::new((grown_len(tape.len() as int, target) - tape.len()) as nat, |i: int| 0u8)
}

/// Moves the instruction pointer one past `from` and reports whether
/// instructions remain.
pub open spec fn moved_on(m: Machine, from: int) -> (Status, Machine) {
    let pc = from + 1;
    (
        if pc >= m.code.len() {
            Status::Halted
        } else {
            Status::Continue
        },
        Machine { pc, ..m },
    )
}

/// One step of execution.
pub open spec fn next(m: Machine) -> Result<(Status, Machine), Error> {
    if m.pc >= m.code.len() {
        Ok((Status::Halted, m))
    } else {
        let cell = m.tape[m.cursor];
        match m.code[m.pc] {
            Instruction::Shift(d) => {
                let target = m.cursor + d;
                if target < 0 || target > MAX_CURSOR {
                    Err(Error::OutOfBounds)
                } else {
                    Ok(moved_on(Machine { cursor: target, tape: grow(m.tape, target), ..m }, m.pc))
                }
            },
            Instruction::Add(d) => Ok(
                moved_on(Machine { tape: m.tape.update(m.cursor, cell_add(cell, d as int)), ..m }, m.pc),
            ),
            Instruction::Output => Ok(moved_on(Machine { output: m.output.push(cell), ..m }, m.pc)),
            Instruction::Input => if m.input.len() == 0 {
                Ok((Status::Blocked, m))
            } else {
                Ok(
                    moved_on(
                        Machine {
                            tape: m.tape.update(m.cursor, m.input[0]),
                            input: m.input.drop_first(),
                            ..m
                        },
                        m.pc,
                    ),
                )
            },
            Instruction::JumpIfZero(t) => Ok(
                moved_on(
                    m,
                    if cell == 0 {
                        t as int
                    } else {
                        m.pc
                    },
                ),
            ),
            Instruction::JumpIfNonZero(t) => Ok(
                moved_on(
                    m,
                    if cell != 0 {
                        t as int
                    } else {
                        m.pc
                    },
                ),
            ),
        }
    }
}

proof fn lemma_grown_len(len: int, target: int)
    ensures
        grown_len(len, target) >= len,
        grown_len(len, target) > target,
        len <= target ==> grown_len(len, target) <= target + TAPE_BLOCK,
    decreases target + TAPE_BLOCK - len,
{
    if len <= target {
        lemma_grown_len(len + TAPE_BLOCK, target);
    }
}

/// `c + d` modulo 256, for any signed `d`.
fn wrapping_cell_add(c: u8, d: isize) -> (r: u8)
    ensures
        r == cell_add(c, d as int),
{
    let k: u16 = if d >= 0 {
        let a = (d as usize) % 256;
        proof {
            vstd::arithmetic::div_mod::lemma_fundamental_div_mod(d as int, 256);
        }
        a as u16
    } else {
        let a = ((-(d + 1)) as usize) % 256;
        proof {
            let x = -(d + 1);
            vstd::arithmetic::div_mod::lemma_fundamental_div_mod(x, 256);
            let q = x / 256;
            assert(d == (-(q + 1)) * 256 + (255 - a)) by (nonlinear_arith)
                requires
                    x == 256 * q + a,
                    x == -(d + 1),
            ;
            vstd::arithmetic::div_mod::lemma_fundamental_div_mod_converse_mod(
                d as int,
                256,
                -(q + 1),
                255 - a,
            );
        }
        (255 - a) as u16
    };
    proof {
        vstd::arithmetic::div_mod::lemma_add_mod_noop(c as int, d as int, 256);
        vstd::arithmetic::div_mod::lemma_small_mod(c as nat, 256);
        vstd::arithmetic::div_mod::lemma_small_mod(k as nat, 256);
    }
    ((c as u16 + k) % 256) as u8
}

/// The execution engine: a program, a tape of byte cells, a cursor into the
/// tape, an instruction pointer, and queues of input and output bytes.
#[derive(Debug)]
pub struct Interpreter {
    pc: usize,
    program: Program,
    memory: Vec<u8>,
    mp: usize,
    input: VecDeque<u8>,
    output: VecDeque<u8>,
}

impl View for Interpreter {
    type V = Machine;

    closed spec fn view(&self) -> Machine {
        Machine {
            code: self.program@,
            tape: self.memory@,
            cursor: self.mp as int,
            pc: self.pc as int,
            input: self.input@,
            output: self.output@,
        }
    }
}

/// The shape every engine keeps: its jumps resolved, the cursor inside the
/// tape, and the instruction pointer at most one past the end.
pub open spec fn machine_ok(m: Machine) -> bool {
    &&& jumps_matched(m.code)
    &&& 0 <= m.cursor < m.tape.len()
    &&& m.cursor <= MAX_CURSOR
    &&& m.tape.len() >= TAPE_LEN
    &&& 0 <= m.pc <= m.code.len()
}

impl Interpreter {
    /// The engine keeps the shape of `machine_ok`.
    pub open spec fn well_formed(&self) -> bool {
        machine_ok(self@)
    }

    /// An engine at the start of `program`, with a zeroed tape and empty queues.
    pub fn new(program: Program) -> (r: Interpreter)
        ensures
            r.well_formed(),
            r@ == (Machine {
                code: program@,
                tape: Seq::new(TAPE_LEN as nat, |i: int| 0u8),
                cursor: 0,
                pc: 0,
                input: Seq::empty(),
                output: Seq::empty(),
            }),
    {
        proof {
            use_type_invariant(&program);
        }
        let mut memory: Vec<u8> = Vec::new();
        let mut i: usize = 0;
        while i < TAPE_LEN
            invariant
                i <= TAPE_LEN,
                memory@ == Seq::new(i as nat, |j: int| 0u8),
            decreases TAPE_LEN - i,
        {
            memory.push(0);
            i = i + 1;
            assert(memory@ =~= Seq::new(i as nat, |j: int| 0u8));
        }
        Interpreter {
            pc: 0,
            program,
            memory,
            mp: 0,
            input: VecDeque::new(),
            output: VecDeque::new(),
        }
    }

    /// Runs one instruction. On an error nothing changes and execution must
    /// stop.
    pub fn step(&mut self) -> (r: Result<Status, Error>)
        requires
            old(self).well_formed(),
        ensures
            final(self).well_formed(),
            match next(old(self)@) {
                Ok((status, m)) => r == Ok::<Status, Error>(status) && final(self)@ == m,
                Err(e) => r == Err::<Status, Error>(e) && final(self)@ == old(self)@,
            },
    {
        let ghost m0 = self@;
        let n = self.program.len();
        if self.pc >= n {
            return Ok(Status::Halted);
        }
        let ins = match self.program.get_instruction(self.pc) {
            Some(ins) => ins,
            None => {
                return Ok(Status::Halted);
            },
        };
        let cell = self.memory[self.mp];
        let mut from = self.pc;
        match ins {
            Instruction::Shift(d) => {
                let target: usize;
                if d < 0 {
                    let back = (-(d + 1)) as usize + 1;
                    if back > self.mp {
                        return Err(Error::OutOfBounds);
                    }
                    target = self.mp - back;
                } else {
                    let forward = d as usize;
                    if forward > MAX_CURSOR - self.mp {
                        return Err(Error::OutOfBounds);
                    }
                    target = self.mp + forward;
                }
                proof {
                    lemma_grown_len(m0.tape.len() as int, target as int);
                }
                while self.memory.len() <= target
                    invariant
                        target <= MAX_CURSOR,
                        self.mp < m0.tape.len() <= self.memory@.len(),
                        grow(self.memory@, target as int) == grow(m0.tape, target as int),
                        self@ == (Machine { tape: self.memory@, ..m0 }),
                    decreases target + TAPE_BLOCK - self.memory@.len(),
                {
                    let ghost before = self.memory@;
                    let mut j: usize = 0;
                    while j < TAPE_BLOCK
                        invariant
                            j <= TAPE_BLOCK,
                            before.len() <= target <= MAX_CURSOR,
                            self.memory@ == before + Seq::new(j as nat, |i: int| 0u8),
                            self@ == (Machine { tape: self.memory@, ..m0 }),
                        decreases TAPE_BLOCK - j,
                    {
                        self.memory.push(0);
                        j = j + 1;
                        assert(self.memory@ =~= before + Seq::new(j as nat, |i: int| 0u8));
                    }
                    proof {
                        let len = before.len() as int;
                        lemma_grown_len(len + TAPE_BLOCK, target as int);
                        assert(grown_len(len, target as int) == grown_len(len + TAPE_BLOCK, target as int));
                        assert(grow(self.memory@, target as int) =~= grow(before, target as int));
                    }
                }
                proof {
                    assert(grow(self.memory@, target as int) =~= self.memory@);
                }
                self.mp = target;
            },
            Instruction::Add(d) => {
                let value = wrapping_cell_add(cell, d);
                self.memory.set(self.mp, value);
            },
            Instruction::Output => {
                self.output.push_back(cell);
            },
            Instruction::Input => {
                match self.input.pop_front() {
                    Some(b) => {
                        self.memory.set(self.mp, b);
                    },
                    None => {
                        return Ok(Status::Blocked);
                    },
                }
            },
            Instruction::JumpIfZero(t) => {
                if cell == 0 {
                    from = t;
                }
            },
            Instruction::JumpIfNonZero(t) => {
                if cell != 0 {
                    from = t;
                }
            },
        }
        self.pc = from + 1;
        proof {
            assert(self@.input =~= next(m0)->Ok_0.1.input);
        }
        if self.pc >= n {
            Ok(Status::Halted)
        } else {
            Ok(Status::Continue)
        }
    }

    /// Appends a byte to the input queue.
    pub fn push_input(&mut self, byte: u8)
        requires
            old(self).well_formed(),
        ensures
            final(self).well_formed(),
            final(self)@ == (Machine { input: old(self)@.input.push(byte), ..old(self)@ }),
    {
        self.input.push_back(byte);
    }

    /// Takes the oldest byte of the output queue, if there is one.
    pub fn pop_output(&mut self) -> (r: Option<u8>)
        requires
            old(self).well_formed(),
        ensures
            final(self).well_formed(),
            old(self)@.output.len() == 0 ==> r is None && final(self)@ == old(self)@,
            old(self)@.output.len() > 0 ==> r == Some(old(self)@.output[0]) && final(self)@ == (
            Machine { output: old(self)@.output.drop_first(), ..old(self)@ }),
    {
        let r = self.output.pop_front();
        proof {
            if r is Some {
                assert(self.output@ =~= old(self)@.output.drop_first());
            }
        }
        r
    }

    /// The instruction pointer.
    pub fn pc(&self) -> (r: usize)
        ensures
            r == self@.pc,
    {
        self.pc
    }

    /// The cursor: the index of the current cell.
    pub fn cursor(&self) -> (r: usize)
        ensures
            r == self@.cursor,
    {
        self.mp
    }

    /// The value of the current cell.
    pub fn current_cell(&self) -> (r: u8)
        requires
            self.well_formed(),
        ensures
            r == self@.tape[self@.cursor],
    {
        self.memory[self.mp]
    }

    /// The value of cell `index`, if the tape has grown that far.
    pub fn cell(&self, index: usize) -> (r: Option<u8>)
        ensures
            r == (if index < self@.tape.len() {
                Some(self@.tape[index as int])
            } else {
                None
            }),
    {
        if index < self.memory.len() {
            Some(self.memory[index])
        } else {
            None
        }
    }

    /// The number of cells the tape holds now.
    pub fn tape_len(&self) -> (r: usize)
        ensures
            r == self@.tape.len(),
    {
        self.memory.len()
    }

    /// The program being run.
    pub fn program(&self) -> (r: &Program)
        ensures
            r@ == self@.code,
    {
        &self.program
    }
}

} // verus!
