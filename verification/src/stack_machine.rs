//! The same machine without a jump table.
//!
//! A simple interpreter resolves brackets as it goes. It keeps a stack of the
//! loops it has entered: a `[` on a nonzero cell pushes its own index, a `]`
//! on a nonzero cell goes back to the index on top, and a `]` on a zero cell
//! pops. To skip a loop, at a `[` on a zero cell, it scans to the right with a
//! counter that starts at one, goes up at every `[` and down at every `]`,
//! and stops where the counter reaches zero.
//!
//! This module states that discipline and proves that on a balanced program
//! it takes the very steps that the jump table takes, so the two cannot be
//! told apart by what a program reads and emits.

use vstd::prelude::*;
use crate::brackets::{
    balanced, depth, lemma_partner_involution, never_negative, paired, partner, weight,
};
use crate::character::Character;
use crate::error::Error;
use crate::interpret::{next_byte, run_spec, Outcome, Run};
use crate::machine::{lemma_step_fits, step_spec, Config};

verus! {

/// Where a scan to the right ends that stands at `pc` with its counter at
/// `count`: at the first index where the counter has come down to zero.
pub open spec fn rescan(p: Seq<Character>, pc: int, count: int) -> int
    decreases p.len() - pc,
{
    if count == 0 || pc + 1 >= p.len() {
        pc
    } else {
        rescan(p, pc + 1, count + weight(p[pc + 1]))
    }
}

/// The loops that are open before index `k`, outermost first: every `[` to
/// the left of `k` that no `]` to the left of `k` closes.
pub open spec fn open_loops(p: Seq<Character>, k: int) -> Seq<int>
    decreases k,
{
    if k <= 0 {
        Seq::empty()
    } else {
        let before = open_loops(p, k - 1);
        match p[k - 1] {
            Character::JumpForward => before.push(k - 1),
            Character::JumpBackward => before.drop_last(),
            _ => before,
        }
    }
}

/// One step of the machine that keeps a stack of open loops.
///
/// Brackets are resolved with the stack and by scanning; every other
/// instruction does what it does in [`step_spec`] and leaves the stack alone.
pub open spec fn stack_step(
    p: Seq<Character>,
    c: Config,
    stack: Seq<int>,
    input: Option<u8>,
) -> Result<(Config, Seq<int>, Option<u8>), Error> {
    if !c.halted(p) && p[c.pc] == Character::JumpForward {
        if c.cell() == 0 {
            Ok((Config { pc: rescan(p, c.pc, 1) + 1, ..c }, stack, None))
        } else {
            Ok((Config { pc: c.pc + 1, ..c }, stack.push(c.pc), None))
        }
    } else if !c.halted(p) && p[c.pc] == Character::JumpBackward {
        if c.cell() != 0 {
            Ok((Config { pc: stack.last() + 1, ..c }, stack, None))
        } else {
            Ok((Config { pc: c.pc + 1, ..c }, stack.drop_last(), None))
        }
    } else {
        match step_spec(p, c, input) {
            Ok((next, emitted)) => Ok((next, stack, emitted)),
            Err(e) => Err(e),
        }
    }
}

/// A bounded run of the machine that keeps a stack of open loops.
pub open spec fn stack_run(
    p: Seq<Character>,
    input: Seq<u8>,
    r: Run,
    stack: Seq<int>,
    fuel: nat,
) -> (Run, Result<Outcome, Error>)
    decreases fuel,
{
    if r.config.halted(p) {
        (r, Ok(Outcome::Halted))
    } else if fuel == 0 {
        (r, Ok(Outcome::Interrupted))
    } else {
        match stack_step(p, r.config, stack, next_byte(input, r.consumed)) {
            Ok((config, next_stack, emitted)) => stack_run(
                p,
                input,
                r.record(p, config, emitted),
                next_stack,
                (fuel - 1) as nat,
            ),
            Err(e) => (r, Err(e)),
        }
    }
}

/// A scan that started at the `[` at `i` and has come as far as `pc` ends at
/// the `]` that is paired with `i`.
proof fn lemma_rescan_from(p: Seq<Character>, i: int, j: int, pc: int)
    requires
        paired(p, i, j),
        i <= pc <= j,
    ensures
        rescan(p, pc, depth(p, pc + 1) - depth(p, i)) == j,
    decreases j - pc,
{
    if pc < j {
        lemma_rescan_from(p, i, j, pc + 1);
    }
}

/// The scan from a `[` with the counter at one ends at the partner of that `[`.
pub proof fn lemma_rescan_finds_partner(p: Seq<Character>, i: int)
    requires
        balanced(p),
        0 <= i < p.len(),
        p[i] == Character::JumpForward,
    ensures
        rescan(p, i, 1) == partner(p, i),
{
    lemma_partner_involution(p, i);
    lemma_rescan_from(p, i, partner(p, i), i);
}

/// As many loops are open before `k` as the depth before `k` says.
pub proof fn lemma_open_loops_len(p: Seq<Character>, k: int)
    requires
        never_negative(p),
        0 <= k <= p.len(),
    ensures
        open_loops(p, k).len() == depth(p, k),
    decreases k,
{
    if k > 0 {
        lemma_open_loops_len(p, k - 1);
        assert(depth(p, k) >= 0);
    }
}

/// While the depth stays above what it was before the `[` at `i`, that `[`
/// and all loops around it stay open.
proof fn lemma_open_loops_inside(p: Seq<Character>, i: int, k: int)
    requires
        never_negative(p),
        0 <= i < k <= p.len(),
        p[i] == Character::JumpForward,
        forall|x: int| i < x <= k ==> depth(p, x) > depth(p, i),
    ensures
        open_loops(p, k).len() == depth(p, k),
        open_loops(p, k).take(depth(p, i) + 1) == open_loops(p, i).push(i),
    decreases k,
{
    lemma_open_loops_len(p, i);
    lemma_open_loops_len(p, k);
    if k == i + 1 {
        assert(open_loops(p, k).take(depth(p, i) + 1) =~= open_loops(p, i).push(i));
    } else {
        lemma_open_loops_inside(p, i, k - 1);
        lemma_open_loops_len(p, k - 1);
        assert(depth(p, k - 1) > depth(p, i));
        assert(open_loops(p, k).take(depth(p, i) + 1) =~= open_loops(p, k - 1).take(
            depth(p, i) + 1,
        ));
    }
}

/// Just before the `]` of a pair, the innermost open loop is the `[` of that
/// pair; just after it, the open loops are those that were open before the `[`.
pub proof fn lemma_open_loops_of_pair(p: Seq<Character>, i: int, j: int)
    requires
        balanced(p),
        paired(p, i, j),
    ensures
        open_loops(p, j) == open_loops(p, i).push(i),
        open_loops(p, i + 1) == open_loops(p, i).push(i),
        open_loops(p, j + 1) == open_loops(p, i),
{
    lemma_open_loops_inside(p, i, j);
    assert(depth(p, j) == depth(p, i) + 1);
    assert(open_loops(p, j).take(depth(p, i) + 1) =~= open_loops(p, j));
    assert(open_loops(p, i).push(i).drop_last() =~= open_loops(p, i));
}

/// On a balanced program, a step with the stack of open loops is the step
/// with the jump table, and it leaves the stack holding the loops that are
/// open at the new program counter.
pub proof fn lemma_stack_step_agrees(p: Seq<Character>, c: Config, input: Option<u8>)
    requires
        balanced(p),
        c.fits(p),
    ensures
        stack_step(p, c, open_loops(p, c.pc), input) == match step_spec(p, c, input) {
            Ok((next, emitted)) => Ok::<(Config, Seq<int>, Option<u8>), Error>(
                (next, open_loops(p, next.pc), emitted),
            ),
            Err(e) => Err(e),
        },
{
    if !c.halted(p) {
        let pc = c.pc;
        if p[pc] == Character::JumpForward {
            lemma_partner_involution(p, pc);
            lemma_rescan_finds_partner(p, pc);
            lemma_open_loops_of_pair(p, pc, partner(p, pc));
        } else if p[pc] == Character::JumpBackward {
            lemma_partner_involution(p, pc);
            lemma_open_loops_of_pair(p, partner(p, pc), pc);
        } else {
            assert(open_loops(p, pc + 1) == open_loops(p, pc));
        }
    }
}

/// On a balanced program, a run with the stack of open loops stops where the
/// run with the jump table stops, for the same reason, having read and
/// emitted the same bytes.
pub proof fn lemma_stack_run_agrees(p: Seq<Character>, input: Seq<u8>, r: Run, fuel: nat)
    requires
        balanced(p),
        r.config.fits(p),
    ensures
        stack_run(p, input, r, open_loops(p, r.config.pc), fuel) == run_spec(p, input, r, fuel),
    decreases fuel,
{
    if !r.config.halted(p) && fuel > 0 {
        let byte = next_byte(input, r.consumed);
        lemma_stack_step_agrees(p, r.config, byte);
        lemma_step_fits(p, r.config, byte);
        if let Ok((next, emitted)) = step_spec(p, r.config, byte) {
            lemma_stack_run_agrees(p, input, r.record(p, next, emitted), (fuel - 1) as nat);
        }
    }
}

} // verus!
