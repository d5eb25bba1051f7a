//! The eight instructions and the symbols that stand for them in source text.

use vstd::prelude::*;

verus! {

/// One instruction of a program.
#[derive(Debug, Clone, Copy, PartialEq, Eq, Structural)]
pub enum Character {
    /// `>`: move the pointer one cell to the right.
    IncrementPointer,
    /// `<`: move the pointer one cell to the left.
    DecrementPointer,
    /// `+`: add one to the current cell, modulo 256.
    IncrementValue,
    /// `-`: subtract one from the current cell, modulo 256.
    DecrementValue,
    /// `.`: emit the current cell.
    Output,
    /// `,`: read one byte into the current cell.
    Input,
    /// `[`: skip past the matching `]` if the current cell is zero.
    JumpForward,
    /// `]`: go back to just after the matching `[` if the current cell is not zero.
    JumpBackward,
}

/// A program: instructions in the order in which they stand in the source.
pub type Program = Vec<Character>;

/// The instruction that a character of source text denotes, if any.
pub open spec fn symbol(c: char) -> Option<Character> {
    if c == '>' {
        Some(Character::IncrementPointer)
    } else if c == '<' {
        Some(Character::DecrementPointer)
    } else if c == '+' {
        Some(Character::IncrementValue)
    } else if c == '-' {
        Some(Character::DecrementValue)
    } else if c == '.' {
        Some(Character::Output)
    } else if c == ',' {
        Some(Character::Input)
    } else if c == '[' {
        Some(Character::JumpForward)
    } else if c == ']' {
        Some(Character::JumpBackward)
    } else {
        None
    }
}

/// Maps one character of source text to its instruction; every character
/// outside the eight symbols is a comment and maps to `None`.
pub fn get_character(c: char) -> (r: Option<Character>)
    ensures
        r == symbol(c),
{
    match c {
        '>' => Some(Character::IncrementPointer),
        '<' => Some(Character::DecrementPointer),
        '+' => Some(Character::IncrementValue),
        '-' => Some(Character::DecrementValue),
        '.' => Some(Character::Output),
        ',' => Some(Character::Input),
        '[' => Some(Character::JumpForward),
        ']' => Some(Character::JumpBackward),
        _ => None,
    }
}

} // verus!
