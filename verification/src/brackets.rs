//! Bracket matching: which `[` belongs to which `]`.
//!
//! The nesting depth before an index is the number of `[` minus the number of
//! `]` to its left. A `[` at `i` and a `]` at `j` form a pair when the depth
//! after `j` is back to the depth before `i` for the first time.

use vstd::prelude::*;
use crate::character::{Character, Program};
use crate::error::{Error, Unmatched};

verus! {

/// Whether an instruction is one of the two brackets.
pub open spec fn is_bracket(c: Character) -> bool {
    c == Character::JumpForward || c == Character::JumpBackward
}

/// What an instruction adds to the nesting depth.
pub open spec fn weight(c: Character) -> int {
    match c {
        Character::JumpForward => 1,
        Character::JumpBackward => -1,
        _ => 0,
    }
}

/// The nesting depth before index `k`: opening minus closing brackets among
/// the first `k` instructions.
pub open spec fn depth(p: Seq<Character>, k: int) -> int
    decreases k,
{
    if k <= 0 {
        0
    } else {
        depth(p, k - 1) + weight(p[k - 1])
    }
}

/// Whether the depth never drops below zero: every `]` has a `[` to its left
/// that is still open.
pub open spec fn never_negative(p: Seq<Character>) -> bool {
    forall|k: int| 0 <= k <= p.len() ==> depth(p, k) >= 0
}

/// A program is balanced when the depth never drops below zero and ends at zero.
pub open spec fn balanced(p: Seq<Character>) -> bool {
    &&& never_negative(p)
    &&& depth(p, p.len() as int) == 0
}

/// What is wrong with the brackets of a program, if anything: a `]` that
/// closes nothing, or else a `[` that is never closed.
pub open spec fn bracket_fault(p: Seq<Character>) -> Option<Unmatched> {
    if !never_negative(p) {
        Some(Unmatched::Closing)
    } else if depth(p, p.len() as int) != 0 {
        Some(Unmatched::Opening)
    } else {
        None
    }
}

/// Where no `[` stands among the first `k` instructions, the depth before
/// `k` is not above zero.
proof fn lemma_depth_without_opening(p: Seq<Character>, k: int)
    requires
        0 <= k <= p.len(),
        forall|i: int| 0 <= i < k ==> p[i] != Character::JumpForward,
    ensures
        depth(p, k) <= 0,
    decreases k,
{
    if k > 0 {
        lemma_depth_without_opening(p, k - 1);
    }
}

/// A `]` with no `[` anywhere to its left closes nothing: the program is
/// malformed, and that is the fault reported.
pub proof fn lemma_unopened_closing(p: Seq<Character>, j: int)
    requires
        0 <= j < p.len(),
        p[j] == Character::JumpBackward,
        forall|i: int| 0 <= i < j ==> p[i] != Character::JumpForward,
    ensures
        !balanced(p),
        bracket_fault(p) == Some(Unmatched::Closing),
{
    lemma_depth_without_opening(p, j);
    assert(depth(p, j + 1) < 0);
}

/// The `[` at `i` and the `]` at `j` match: everything strictly between them
/// lies deeper than `i`, and `j` brings the depth back.
pub open spec fn paired(p: Seq<Character>, i: int, j: int) -> bool {
    &&& 0 <= i < j < p.len()
    &&& p[i] == Character::JumpForward
    &&& p[j] == Character::JumpBackward
    &&& depth(p, j + 1) == depth(p, i)
    &&& forall|k: int| i < k <= j ==> depth(p, k) > depth(p, i)
}

/// The index of the bracket that matches the bracket at `i`.
pub open spec fn partner(p: Seq<Character>, i: int) -> int {
    choose|j: int| paired(p, i, j) || paired(p, j, i)
}

/// The entry of the jump table at `i`: the partner of a bracket, and zero for
/// every other instruction.
pub open spec fn jump_target(p: Seq<Character>, i: int) -> int {
    if is_bracket(p[i]) {
        partner(p, i)
    } else {
        0
    }
}

/// A bracket has at most one partner.
pub proof fn lemma_paired_unique(p: Seq<Character>, i: int, j: int, i2: int, j2: int)
    requires
        paired(p, i, j),
        paired(p, i2, j2),
    ensures
        i == i2 <==> j == j2,
        i != j2,
        j != i2,
{
    if i == i2 && j != j2 {
        if j < j2 {
            assert(depth(p, j + 1) > depth(p, i2));
        } else {
            assert(depth(p, j2 + 1) > depth(p, i));
        }
    }
    if j == j2 && i != i2 {
        if i < i2 {
            assert(depth(p, i2) > depth(p, i));
        } else {
            assert(depth(p, i) > depth(p, i2));
        }
    }
}

/// Whoever is paired with a bracket is its partner.
pub proof fn lemma_partner_of_pair(p: Seq<Character>, i: int, j: int)
    requires
        paired(p, i, j),
    ensures
        partner(p, i) == j,
        partner(p, j) == i,
{
    let x = partner(p, i);
    assert(paired(p, i, x) || paired(p, x, i));
    if paired(p, i, x) {
        lemma_paired_unique(p, i, j, i, x);
    }
    let y = partner(p, j);
    assert(paired(p, j, y) || paired(p, y, j));
    if paired(p, y, j) {
        lemma_paired_unique(p, i, j, y, j);
    }
}

/// Walks right from a `[` at `i` until the depth is back to what it was
/// before `i`, and returns the `]` found there.
proof fn lemma_closing_exists(p: Seq<Character>, i: int, k: int) -> (j: int)
    requires
        balanced(p),
        0 <= i < k <= p.len(),
        p[i] == Character::JumpForward,
        forall|x: int| i < x <= k ==> depth(p, x) > depth(p, i),
    ensures
        paired(p, i, j),
    decreases p.len() - k,
{
    assert(depth(p, k) > depth(p, i) >= 0);
    if depth(p, k + 1) > depth(p, i) {
        lemma_closing_exists(p, i, k + 1)
    } else {
        k
    }
}

/// Walks left from a `]` at `j` until the depth is down to what it is after
/// `j`, and returns the `[` found there.
proof fn lemma_opening_exists(p: Seq<Character>, j: int, k: int) -> (i: int)
    requires
        balanced(p),
        0 <= k <= j < p.len(),
        p[j] == Character::JumpBackward,
        forall|x: int| k <= x <= j ==> #[trigger] depth(p, x) > depth(p, j + 1),
    ensures
        paired(p, i, j),
    decreases k,
{
    assert(depth(p, k) > depth(p, j + 1) >= 0);
    if depth(p, k - 1) > depth(p, j + 1) {
        lemma_opening_exists(p, j, k - 1)
    } else {
        k - 1
    }
}

/// In a balanced program every bracket has a partner of the other kind, and
/// the pairing is an involution: the partner of the partner of a bracket is
/// the bracket itself, so following the jump table twice leads back.
pub proof fn lemma_partner_involution(p: Seq<Character>, i: int)
    requires
        balanced(p),
        0 <= i < p.len(),
        is_bracket(p[i]),
    ensures
        0 <= partner(p, i) < p.len(),
        p[i] == Character::JumpForward ==> paired(p, i, partner(p, i)),
        p[i] == Character::JumpBackward ==> paired(p, partner(p, i), i),
        partner(p, partner(p, i)) == i,
        jump_target(p, jump_target(p, i)) == i,
{
    if p[i] == Character::JumpForward {
        let j = lemma_closing_exists(p, i, i + 1);
        lemma_partner_of_pair(p, i, j);
    } else {
        let j = lemma_opening_exists(p, i, i);
        lemma_partner_of_pair(p, j, i);
    }
}

/// Whether `j` is among the indices held in `stack`.
spec fn open_at(stack: Seq<usize>, j: int) -> bool {
    exists|m: int| 0 <= m < stack.len() && #[trigger] stack[m] == j
}

/// Builds the jump table of a program: for every bracket the index of its
/// partner, for every other instruction zero. A program whose brackets do not
/// balance has no jump table; the error says which kind of bracket is left over.
pub fn build_jump_table(program: &Program) -> (r: Result<Vec<usize>, Error>)
    ensures
        match r {
            Ok(table) => {
                &&& balanced(program@)
                &&& table@.len() == program@.len()
                &&& forall|i: int|
                    0 <= i < table@.len() ==> table@[i] as int == #[trigger] jump_target(
                        program@,
                        i,
                    )
                &&& forall|i: int|
                    0 <= i < table@.len() && is_bracket(#[trigger] program@[i]) ==> {
                        &&& table@[i] < table@.len()
                        &&& table@[table@[i] as int] == i
                    }
            },
            Err(e) => bracket_fault(program@) matches Some(unmatched) && e
                == Error::MalformedBrackets(unmatched),
        },
{
    let n = program.len();
    let mut table: Vec<usize> = vec![0usize; n];
    let mut stack: Vec<usize> = Vec::new();
    let mut i: usize = 0;
    while i < n
        invariant
            n == program@.len(),
            i <= n,
            table@.len() == n,
            stack@.len() == depth(program@, i as int),
            forall|k: int| 0 <= k <= i ==> depth(program@, k) >= 0,
            forall|m: int|
                0 <= m < stack@.len() ==> {
                    &&& (#[trigger] stack@[m]) < i
                    &&& program@[stack@[m] as int] == Character::JumpForward
                    &&& depth(program@, stack@[m] as int) == m
                },
            forall|m: int, k: int|
                0 <= m < stack@.len() && stack@[m] < k <= i ==> #[trigger] depth(program@, k)
                    > #[trigger] depth(program@, stack@[m] as int),
            forall|j: int|
                0 <= j < n && !is_bracket(#[trigger] program@[j]) ==> table@[j] == 0,
            forall|j: int|
                0 <= j < i && #[trigger] program@[j] == Character::JumpBackward ==> paired(
                    program@,
                    table@[j] as int,
                    j,
                ),
            forall|j: int|
                0 <= j < i && #[trigger] program@[j] == Character::JumpForward ==> paired(
                    program@,
                    j,
                    table@[j] as int,
                ) || open_at(stack@, j),
        decreases n - i,
    {
        let ghost before = stack@;
        match program[i] {
            Character::JumpForward => {
                stack.push(i);
                proof {
                    assert(stack@[before.len() as int] == i);
                    assert forall|j: int| open_at(before, j) implies open_at(stack@, j) by {
                        let m = choose|m: int| 0 <= m < before.len() && before[m] == j;
                        assert(stack@[m] == j);
                    }
                }
            },
            Character::JumpBackward => {
                match stack.pop() {
                    Some(open) => {
                        table[i] = open;
                        table[open] = i;
                        proof {
                            assert(before[stack@.len() as int] == open);
                            assert(paired(program@, open as int, i as int));
                            assert forall|j: int| open_at(before, j) && j != open implies open_at(
                                stack@,
                                j,
                            ) by {
                                let m = choose|m: int| 0 <= m < before.len() && before[m] == j;
                                assert(stack@[m] == j);
                            }
                        }
                    },
                    None => {
                        assert(depth(program@, i + 1) < 0);
                        return Err(Error::MalformedBrackets(Unmatched::Closing));
                    },
                }
            },
            _ => {},
        }
        i += 1;
    }
    if stack.len() != 0 {
        return Err(Error::MalformedBrackets(Unmatched::Opening));
    }
    proof {
        assert forall|j: int| 0 <= j < table@.len() implies table@[j] as int == #[trigger] jump_target(
            program@,
            j,
        ) by {
            if program@[j] == Character::JumpForward {
                lemma_partner_of_pair(program@, j, table@[j] as int);
            } else if program@[j] == Character::JumpBackward {
                lemma_partner_of_pair(program@, table@[j] as int, j);
            }
        }
        assert forall|j: int|
            0 <= j < table@.len() && is_bracket(#[trigger] program@[j]) implies table@[j]
            < table@.len() && table@[table@[j] as int] == j by {
            lemma_partner_involution(program@, j);
            assert(table@[j] as int == jump_target(program@, j));
            assert(table@[table@[j] as int] as int == jump_target(program@, table@[j] as int));
        }
    }
    Ok(table)
}

} // verus!
