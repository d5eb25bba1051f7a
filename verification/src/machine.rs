//! The machine: a program with its jump table, a tape of byte cells, a
//! pointer into the tape and a program counter.
//!
//! A move that would take the pointer off either end of the tape stops the
//! run with [`Error::PointerOutOfBounds`]; the pointer never leaves the tape
//! and never wraps around.

use vstd::prelude::*;
use crate::brackets::{
    balanced, bracket_fault, build_jump_table, jump_target, lemma_partner_involution,
    lemma_unopened_closing, partner,
};
use crate::character::{symbol, Character, Program};
use crate::error::{Error, Unmatched};
use crate::translate::{lemma_translation_of_comments, translation};

verus! {

/// The number of cells on the tape, and the largest number of instructions
/// that a program may hold.
pub const SIZE: usize = 30000;

/// The part of a machine that changes while it runs, as a mathematical value.
pub struct Config {
    /// The cells of the tape.
    pub memory: Seq<u8>,
    /// The index of the current cell.
    pub pointer: int,
    /// The index of the next instruction.
    pub pc: int,
}

impl Config {
    /// Where every run starts: all cells zero, pointer and program counter at zero.
    pub open spec fn initial() -> Config {
        Config { memory: Seq::new(SIZE as nat, |i: int| 0u8), pointer: 0, pc: 0 }
    }

    /// Whether the tape has its full length and both cursors are in range for `p`.
    pub open spec fn fits(self, p: Seq<Character>) -> bool {
        &&& self.memory.len() == SIZE
        &&& 0 <= self.pointer < SIZE
        &&& 0 <= self.pc <= p.len()
    }

    /// The value of the current cell.
    pub open spec fn cell(self) -> u8 {
        self.memory[self.pointer]
    }

    /// Whether the program counter has run past the last instruction of `p`.
    pub open spec fn halted(self, p: Seq<Character>) -> bool {
        self.pc >= p.len()
    }
}

/// A cell value plus one, modulo 256.
pub open spec fn increment(v: u8) -> u8 {
    ((v + 1) % 256) as u8
}

/// A cell value minus one, modulo 256.
pub open spec fn decrement(v: u8) -> u8 {
    ((v - 1) % 256) as u8
}

/// A cell value after `n` increments in a row.
pub open spec fn increment_n(v: u8, n: nat) -> u8
    decreases n,
{
    if n == 0 {
        v
    } else {
        increment(increment_n(v, (n - 1) as nat))
    }
}

/// `n` increments in a row add `n` modulo 256.
pub proof fn lemma_increment_n(v: u8, n: nat)
    ensures
        increment_n(v, n) == (v + n) % 256,
    decreases n,
{
    if n > 0 {
        lemma_increment_n(v, (n - 1) as nat);
    }
}

/// Cell arithmetic wraps around: 255 plus one is 0 and 0 minus one is 255,
/// increment and decrement undo each other, and 256 increments in a row
/// bring every cell back to where it was.
pub proof fn lemma_cell_arithmetic_wraps(v: u8)
    ensures
        increment(255) == 0,
        decrement(0) == 255,
        decrement(increment(v)) == v,
        increment(decrement(v)) == v,
        increment_n(v, 256) == v,
{
    lemma_increment_n(v, 256);
}

/// Whether a program may be loaded, and if not, why not.
pub open spec fn admissible(p: Seq<Character>) -> Result<(), Error> {
    if p.len() == 0 {
        Err(Error::EmptyProgram)
    } else if p.len() > SIZE {
        Err(Error::ProgramTooLarge)
    } else {
        match bracket_fault(p) {
            Some(unmatched) => Err(Error::MalformedBrackets(unmatched)),
            None => Ok(()),
        }
    }
}

/// A text without any of the eight symbols is rejected as an empty program.
pub proof fn lemma_comments_only_rejected(source: Seq<char>)
    requires
        forall|i: int| 0 <= i < source.len() ==> symbol(#[trigger] source[i]) is None,
    ensures
        admissible(translation(source)) == Err::<(), Error>(Error::EmptyProgram),
{
    lemma_translation_of_comments(source);
}

/// A program that fits the tape and holds a `]` with no `[` anywhere to its
/// left is rejected as malformed, for an unmatched closing bracket.
pub proof fn lemma_unopened_closing_rejected(p: Seq<Character>, j: int)
    requires
        p.len() <= SIZE,
        0 <= j < p.len(),
        p[j] == Character::JumpBackward,
        forall|i: int| 0 <= i < j ==> p[i] != Character::JumpForward,
    ensures
        admissible(p) == Err::<(), Error>(Error::MalformedBrackets(Unmatched::Closing)),
{
    lemma_unopened_closing(p, j);
}

/// One step of program `p` from configuration `c`.
///
/// `input` is the byte offered to an input instruction, `None` when the input
/// has run out; every other instruction ignores it. The result is the next
/// configuration together with the byte emitted, if any. A halted machine
/// stays as it is.
pub open spec fn step_spec(p: Seq<Character>, c: Config, input: Option<u8>) -> Result<
    (Config, Option<u8>),
    Error,
> {
    if c.halted(p) {
        Ok((c, None))
    } else {
        match p[c.pc] {
            Character::IncrementPointer => if c.pointer + 1 < SIZE {
                Ok((Config { pointer: c.pointer + 1, pc: c.pc + 1, ..c }, None))
            } else {
                Err(Error::PointerOutOfBounds)
            },
            Character::DecrementPointer => if c.pointer > 0 {
                Ok((Config { pointer: c.pointer - 1, pc: c.pc + 1, ..c }, None))
            } else {
                Err(Error::PointerOutOfBounds)
            },
            Character::IncrementValue => Ok(
                (
                    Config {
                        memory: c.memory.update(c.pointer, increment(c.cell())),
                        pc: c.pc + 1,
                        ..c
                    },
                    None,
                ),
            ),
            Character::DecrementValue => Ok(
                (
                    Config {
                        memory: c.memory.update(c.pointer, decrement(c.cell())),
                        pc: c.pc + 1,
                        ..c
                    },
                    None,
                ),
            ),
            Character::Output => Ok((Config { pc: c.pc + 1, ..c }, Some(c.cell()))),
            Character::Input => match input {
                Some(byte) => Ok(
                    (Config { memory: c.memory.update(c.pointer, byte), pc: c.pc + 1, ..c }, None),
                ),
                None => Err(Error::InputExhausted),
            },
            Character::JumpForward => if c.cell() == 0 {
                Ok((Config { pc: partner(p, c.pc) + 1, ..c }, None))
            } else {
                Ok((Config { pc: c.pc + 1, ..c }, None))
            },
            Character::JumpBackward => if c.cell() != 0 {
                Ok((Config { pc: partner(p, c.pc) + 1, ..c }, None))
            } else {
                Ok((Config { pc: c.pc + 1, ..c }, None))
            },
        }
    }
}

/// A step of a balanced program keeps the tape at its length and both
/// cursors in range, whatever the input.
pub proof fn lemma_step_fits(p: Seq<Character>, c: Config, input: Option<u8>)
    requires
        balanced(p),
        c.fits(p),
    ensures
        step_spec(p, c, input) matches Ok((next, _)) ==> next.fits(p),
{
    if !c.halted(p) && (p[c.pc] == Character::JumpForward || p[c.pc] == Character::JumpBackward) {
        lemma_partner_involution(p, c.pc);
    }
}

/// A loaded program and the state of its run.
#[derive(Debug)]
pub struct Machine {
    program: Program,
    jumps: Vec<usize>,
    memory: Vec<u8>,
    pointer: usize,
    pc: usize,
}

impl View for Machine {
    type V = Config;

    /// The configuration that the machine is in.
    closed spec fn view(&self) -> Config {
        Config { memory: self.memory@, pointer: self.pointer as int, pc: self.pc as int }
    }
}

impl Machine {
    /// The program that the machine runs.
    pub closed spec fn program(&self) -> Seq<Character> {
        self.program@
    }

    /// What holds of every machine: its program could be loaded, its
    /// configuration fits the program, and its jump table is that of the
    /// program.
    #[verifier::type_invariant]
    spec fn well_formed(&self) -> bool {
        &&& admissible(self.program@) is Ok
        &&& self@.fits(self.program@)
        &&& self.jumps@.len() == self.program@.len()
        &&& forall|i: int|
            0 <= i < self.jumps@.len() ==> self.jumps@[i] as int == #[trigger] jump_target(
                self.program@,
                i,
            )
    }

    /// Loads a program: checks that it is neither empty nor longer than the
    /// tape and that its brackets balance, pairs the brackets, and clears the
    /// tape.
    pub fn new(program: Program) -> (r: Result<Machine, Error>)
        ensures
            match r {
                Ok(machine) => {
                    &&& admissible(program@) is Ok
                    &&& machine.program() == program@
                    &&& machine@ == Config::initial()
                },
                Err(e) => admissible(program@) == Err::<(), Error>(e),
            },
    {
        if program.len() == 0 {
            return Err(Error::EmptyProgram);
        }
        if program.len() > SIZE {
            return Err(Error::ProgramTooLarge);
        }
        match build_jump_table(&program) {
            Ok(jumps) => {
                let memory = vec![0u8; SIZE];
                assert(memory@ =~= Config::initial().memory);
                Ok(Machine { program, jumps, memory, pointer: 0, pc: 0 })
            },
            Err(e) => Err(e),
        }
    }

    /// The index of the next instruction; it is never beyond the end of the
    /// program.
    pub fn pc(&self) -> (r: usize)
        ensures
            r == self@.pc,
            self@.fits(self.program()),
    {
        proof {
            use_type_invariant(self);
        }
        self.pc
    }

    /// The index of the current cell; it is always on the tape.
    pub fn pointer(&self) -> (r: usize)
        ensures
            r == self@.pointer,
            self@.fits(self.program()),
    {
        proof {
            use_type_invariant(self);
        }
        self.pointer
    }

    /// The value of the current cell.
    pub fn cell(&self) -> (r: u8)
        ensures
            r == self@.cell(),
    {
        proof {
            use_type_invariant(self);
        }
        self.memory[self.pointer]
    }

    /// Whether the run is over: the program counter is past the last instruction.
    pub fn halted(&self) -> (r: bool)
        ensures
            r == self@.halted(self.program()),
    {
        self.pc >= self.program.len()
    }

    /// Whether the next instruction reads a byte of input.
    pub fn awaits_input(&self) -> (r: bool)
        ensures
            r == (!self@.halted(self.program()) && self.program()[self@.pc] == Character::Input),
    {
        proof {
            use_type_invariant(self);
        }
        self.pc < self.program.len() && self.program[self.pc] == Character::Input
    }

    /// Executes one instruction.
    ///
    /// `input` is the byte offered to an input instruction, `None` when the
    /// input has run out. The result is the byte to emit, if any. On an error
    /// the machine is left as it was. The program stays what it is, a
    /// program that could be loaded, and the configuration keeps fitting it.
    pub fn step(&mut self, input: Option<u8>) -> (r: Result<Option<u8>, Error>)
        ensures
            final(self).program() == old(self).program(),
            admissible(final(self).program()) is Ok,
            final(self)@.fits(final(self).program()),
            match step_spec(old(self).program(), old(self)@, input) {
                Ok((next, emitted)) => r == Ok::<Option<u8>, Error>(emitted) && final(self)@
                    == next,
                Err(e) => r == Err::<Option<u8>, Error>(e) && final(self)@ == old(self)@,
            },
    {
        proof {
            use_type_invariant(&*self);
        }
        if self.pc >= self.program.len() {
            return Ok(None);
        }
        let cell = self.memory[self.pointer];
        let mut emitted: Option<u8> = None;
        match self.program[self.pc] {
            Character::IncrementPointer => {
                if self.pointer + 1 >= SIZE {
                    return Err(Error::PointerOutOfBounds);
                }
                self.pointer += 1;
            },
            Character::DecrementPointer => {
                if self.pointer == 0 {
                    return Err(Error::PointerOutOfBounds);
                }
                self.pointer -= 1;
            },
            Character::IncrementValue => {
                self.memory[self.pointer] = cell.wrapping_add(1);
            },
            Character::DecrementValue => {
                self.memory[self.pointer] = cell.wrapping_sub(1);
            },
            Character::Output => {
                emitted = Some(cell);
            },
            Character::Input => {
                match input {
                    Some(byte) => {
                        self.memory[self.pointer] = byte;
                    },
                    None => {
                        return Err(Error::InputExhausted);
                    },
                }
            },
            Character::JumpForward => {
                proof {
                    lemma_partner_involution(self.program@, self.pc as int);
                }
                if cell == 0 {
                    self.pc = self.jumps[self.pc];
                }
            },
            Character::JumpBackward => {
                proof {
                    lemma_partner_involution(self.program@, self.pc as int);
                }
                if cell != 0 {
                    self.pc = self.jumps[self.pc];
                }
            },
        }
        self.pc += 1;
        Ok(emitted)
    }
}

} // verus!
