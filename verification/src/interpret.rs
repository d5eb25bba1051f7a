//! Whole runs: a program, the bytes it may read and the bytes it emits.
//!
//! A run need not end, so a run here is bounded by a number of steps; a run
//! that has not halted within its bound is reported as interrupted.

use vstd::prelude::*;
use crate::brackets::{balanced, depth, lemma_partner_involution, paired, partner};
use crate::character::{Character, Program};
use crate::error::Error;
use crate::machine::{admissible, lemma_step_fits, step_spec, Config, Machine, SIZE};

verus! {

/// How a bounded run ended when nothing went wrong.
#[derive(Debug, Clone, Copy, PartialEq, Eq, Structural)]
pub enum Outcome {
    /// The program counter ran past the last instruction.
    Halted,
    /// The step limit was reached first.
    Interrupted,
}

/// A run in progress, as a mathematical value.
pub struct Run {
    /// The configuration of the machine.
    pub config: Config,
    /// How many bytes of input have been read.
    pub consumed: int,
    /// The bytes emitted so far.
    pub output: Seq<u8>,
}

impl Run {
    /// The start of every run: the initial configuration, nothing read, nothing emitted.
    pub open spec fn start() -> Run {
        Run { config: Config::initial(), consumed: 0, output: Seq::empty() }
    }

    /// The run after the instruction at its program counter has led to
    /// `config` and emitted `emitted`: an input instruction has used up one
    /// byte of input, and an emitted byte is appended to the output.
    pub open spec fn record(self, p: Seq<Character>, config: Config, emitted: Option<u8>) -> Run {
        Run {
            config,
            consumed: if p[self.config.pc] == Character::Input {
                self.consumed + 1
            } else {
                self.consumed
            },
            output: match emitted {
                Some(byte) => self.output.push(byte),
                None => self.output,
            },
        }
    }
}

/// The byte that an input instruction reads after `consumed` bytes were read,
/// or `None` when the input has run out.
pub open spec fn next_byte(input: Seq<u8>, consumed: int) -> Option<u8> {
    if 0 <= consumed < input.len() {
        Some(input[consumed])
    } else {
        None
    }
}

/// One step of a run that has not halted: the machine takes a step on the
/// next byte of input, and the run records what came of it.
pub open spec fn advance(p: Seq<Character>, input: Seq<u8>, r: Run) -> Result<Run, Error> {
    match step_spec(p, r.config, next_byte(input, r.consumed)) {
        Ok((config, emitted)) => Ok(r.record(p, config, emitted)),
        Err(e) => Err(e),
    }
}

/// Runs `p` from `r` for at most `fuel` steps. The result is where the run
/// stopped and why: it halted, it ran out of fuel, or a step failed.
pub open spec fn run_spec(p: Seq<Character>, input: Seq<u8>, r: Run, fuel: nat) -> (
    Run,
    Result<Outcome, Error>,
)
    decreases fuel,
{
    if r.config.halted(p) {
        (r, Ok(Outcome::Halted))
    } else if fuel == 0 {
        (r, Ok(Outcome::Interrupted))
    } else {
        match advance(p, input, r) {
            Ok(next) => run_spec(p, input, next, (fuel - 1) as nat),
            Err(e) => (r, Err(e)),
        }
    }
}

/// A run that stopped for any reason other than lack of fuel stops in the
/// same way, at the same place, with any larger amount of fuel.
pub proof fn lemma_more_fuel(p: Seq<Character>, input: Seq<u8>, r: Run, fuel: nat, more: nat)
    requires
        fuel <= more,
        run_spec(p, input, r, fuel).1 != Ok::<Outcome, Error>(Outcome::Interrupted),
    ensures
        run_spec(p, input, r, more) == run_spec(p, input, r, fuel),
    decreases fuel,
{
    if !r.config.halted(p) && fuel > 0 {
        if let Ok(next) = advance(p, input, r) {
            lemma_more_fuel(p, input, next, (fuel - 1) as nat, (more - 1) as nat);
        }
    }
}

/// What holds of every run of a balanced program, however long it goes on:
/// the tape keeps its length, the cursors stay in range, no more input is
/// read than there is, and what was emitted is never taken back.
pub proof fn lemma_run_invariants(p: Seq<Character>, input: Seq<u8>, r: Run, fuel: nat)
    requires
        balanced(p),
        r.config.fits(p),
        0 <= r.consumed <= input.len(),
    ensures
        ({
            let end = run_spec(p, input, r, fuel).0;
            &&& end.config.fits(p)
            &&& r.consumed <= end.consumed <= input.len()
            &&& r.output.is_prefix_of(end.output)
        }),
    decreases fuel,
{
    if !r.config.halted(p) && fuel > 0 {
        if let Ok(next) = advance(p, input, r) {
            lemma_step_fits(p, r.config, next_byte(input, r.consumed));
            lemma_run_invariants(p, input, next, (fuel - 1) as nat);
        }
    }
}

/// An input instruction reached when no byte of input is left stops the run
/// there with `InputExhausted`: nothing is stored, nothing moves.
pub proof fn lemma_input_exhausted(p: Seq<Character>, input: Seq<u8>, r: Run, fuel: nat)
    requires
        !r.config.halted(p),
        p[r.config.pc] == Character::Input,
        r.consumed >= input.len(),
        fuel > 0,
    ensures
        run_spec(p, input, r, fuel) == (r, Err::<Outcome, Error>(Error::InputExhausted)),
{
}

/// The program of `n` increments followed by one output.
pub open spec fn increments_then_output(n: nat) -> Seq<Character> {
    Seq::new(n, |i: int| Character::IncrementValue).push(Character::Output)
}

/// After `k` of the `n` increments the first cell holds `k` modulo 256, and
/// the rest of the run emits `n` modulo 256 and halts.
proof fn lemma_count_up(n: nat, input: Seq<u8>, k: nat, r: Run, fuel: nat)
    requires
        k <= n,
        fuel > n - k,
        r.config.pc == k,
        r.config.pointer == 0,
        r.config.memory.len() > 0,
        r.config.memory[0] == k % 256,
        r.output == Seq::<u8>::empty(),
    ensures
        run_spec(increments_then_output(n), input, r, fuel).1 == Ok::<Outcome, Error>(
            Outcome::Halted,
        ),
        run_spec(increments_then_output(n), input, r, fuel).0.output == seq![(n % 256) as u8],
    decreases n - k,
{
    let p = increments_then_output(n);
    let next = advance(p, input, r).unwrap();
    if k < n {
        assert(p[k as int] == Character::IncrementValue);
        lemma_count_up(n, input, k + 1, next, (fuel - 1) as nat);
    } else {
        assert(p[k as int] == Character::Output);
        assert(next.config.halted(p));
        assert(next.output =~= seq![(n % 256) as u8]);
        assert(run_spec(p, input, next, (fuel - 1) as nat) == (
            next,
            Ok::<Outcome, Error>(Outcome::Halted),
        ));
    }
}

/// A program without brackets has depth zero everywhere.
proof fn lemma_flat_depth(p: Seq<Character>, k: int)
    requires
        0 <= k <= p.len(),
        forall|i: int|
            0 <= i < p.len() ==> #[trigger] p[i] != Character::JumpForward && p[i]
                != Character::JumpBackward,
    ensures
        depth(p, k) == 0,
    decreases k,
{
    if k > 0 {
        lemma_flat_depth(p, k - 1);
    }
}

/// A program of `n` increments followed by one output, given more than `n`
/// steps, halts after emitting exactly one byte, `n` modulo 256, whatever
/// the input. It can be loaded whenever it is no longer than the tape.
pub proof fn lemma_increments_then_output(n: nat, input: Seq<u8>, fuel: nat)
    requires
        fuel > n,
    ensures
        run_spec(increments_then_output(n), input, Run::start(), fuel).1 == Ok::<Outcome, Error>(
            Outcome::Halted,
        ),
        run_spec(increments_then_output(n), input, Run::start(), fuel).0.output == seq![
            (n % 256) as u8,
        ],
        n < SIZE ==> admissible(increments_then_output(n)) is Ok,
{
    lemma_count_up(n, input, 0, Run::start(), fuel);
    let p = increments_then_output(n);
    assert forall|k: int| 0 <= k <= p.len() implies depth(p, k) == 0 by {
        lemma_flat_depth(p, k);
    }
}

/// A `[` met while the current cell is zero skips its whole loop: the next
/// instruction is the one after the matching `]`, and the tape, the pointer,
/// the input read and the output emitted are what they were.
pub proof fn lemma_zero_loop_skipped(p: Seq<Character>, input: Seq<u8>, r: Run)
    requires
        balanced(p),
        r.config.fits(p),
        !r.config.halted(p),
        p[r.config.pc] == Character::JumpForward,
        r.config.cell() == 0,
    ensures
        paired(p, r.config.pc, partner(p, r.config.pc)),
        advance(p, input, r) == Ok::<Run, Error>(
            Run { config: Config { pc: partner(p, r.config.pc) + 1, ..r.config }, ..r },
        ),
{
    lemma_partner_involution(p, r.config.pc);
}

/// Loads `program` and runs it for at most `limit` steps, reading from
/// `input` and appending what it emits to `output`.
///
/// A program that cannot be loaded leaves `output` untouched. A run that
/// fails keeps what was emitted before the failing step.
pub fn interpret(program: Program, input: &[u8], output: &mut Vec<u8>, limit: u64) -> (r: Result<
    Outcome,
    Error,
>)
    ensures
        match admissible(program@) {
            Err(e) => r == Err::<Outcome, Error>(e) && final(output)@ == old(output)@,
            Ok(_) => {
                let (end, result) = run_spec(program@, input@, Run::start(), limit as nat);
                r == result && final(output)@ == old(output)@ + end.output
            },
        },
{
    let ghost p = program@;
    let ghost before = output@;
    let mut machine = match Machine::new(program) {
        Ok(machine) => machine,
        Err(e) => {
            return Err(e);
        },
    };
    let ghost mut run = Run::start();
    let mut consumed: usize = 0;
    let mut steps: u64 = 0;
    assert(output@ =~= before + run.output);
    while steps < limit
        invariant
            steps <= limit,
            p == program@,
            before == old(output)@,
            admissible(p) is Ok,
            machine.program() == p,
            run.config == machine@,
            run.consumed == consumed,
            consumed <= input@.len(),
            output@ == before + run.output,
            run_spec(p, input@, run, (limit - steps) as nat) == run_spec(
                p,
                input@,
                Run::start(),
                limit as nat,
            ),
        decreases limit - steps,
    {
        if machine.halted() {
            return Ok(Outcome::Halted);
        }
        let reads = machine.awaits_input();
        let byte = if consumed < input.len() {
            Some(input[consumed])
        } else {
            None
        };
        match machine.step(byte) {
            Ok(emitted) => {
                if reads {
                    consumed += 1;
                }
                match emitted {
                    Some(b) => {
                        output.push(b);
                    },
                    None => {},
                }
                proof {
                    run = advance(p, input@, run).unwrap();
                    assert(output@ =~= before + run.output);
                }
            },
            Err(e) => {
                return Err(e);
            },
        }
        steps += 1;
    }
    if machine.halted() {
        Ok(Outcome::Halted)
    } else {
        Ok(Outcome::Interrupted)
    }
}

} // verus!
