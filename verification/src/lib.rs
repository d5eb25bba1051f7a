//! A small virtual machine for an eight-symbol tape language.
//!
//! Source text is translated into a sequence of [`Character`]s, the brackets
//! of that sequence are paired, and a [`Machine`] then executes it on a tape
//! of [`SIZE`] byte cells.

pub mod brackets;
pub mod character;
pub mod error;
pub mod interpret;
pub mod machine;
pub mod stack_machine;
pub mod translate;

pub use brackets::build_jump_table;
pub use character::{get_character, Character, Program};
pub use error::{Error, Unmatched};
pub use interpret::{interpret, Outcome};
pub use machine::{Machine, SIZE};
pub use translate::translate;
