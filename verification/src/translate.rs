//! Translation of source text into instructions.
//!
//! Every character that is one of the eight symbols becomes its instruction;
//! every other character is a comment and is dropped. Nothing is checked
//! here: any text translates.

use vstd::prelude::*;
use crate::character::{get_character, symbol, Character, Program};

verus! {

/// The predicate that holds of the eight symbols.
pub open spec fn recognized() -> spec_fn(char) -> bool {
    |c: char| symbol(c) is Some
}

/// The map from a symbol to its instruction.
pub open spec fn instruction_of() -> spec_fn(char) -> Character {
    |c: char| symbol(c).unwrap()
}

/// The translation of a text: its recognized symbols, in their order, each
/// replaced by its instruction.
pub open spec fn translation(source: Seq<char>) -> Seq<Character> {
    source.filter(recognized()).map_values(instruction_of())
}

/// Appending one character to a text appends its instruction to the
/// translation if the character is a symbol, and nothing otherwise.
pub proof fn lemma_translation_push(source: Seq<char>, c: char)
    ensures
        translation(source.push(c)) == match symbol(c) {
            Some(instruction) => translation(source).push(instruction),
            None => translation(source),
        },
{
    source.lemma_filter_push(c, recognized());
    assert(translation(source.push(c)) =~= match symbol(c) {
        Some(instruction) => translation(source).push(instruction),
        None => translation(source),
    });
}

/// The translation of two texts put together is the two translations put
/// together: what comes first in the source comes first in the program.
pub proof fn lemma_translation_concat(first: Seq<char>, second: Seq<char>)
    ensures
        translation(first + second) == translation(first) + translation(second),
{
    Seq::filter_distributes_over_add(first, second, recognized());
    assert(translation(first + second) =~= translation(first) + translation(second));
}

/// A text without any of the eight symbols translates to the empty program.
pub proof fn lemma_translation_of_comments(source: Seq<char>)
    requires
        forall|i: int| 0 <= i < source.len() ==> symbol(#[trigger] source[i]) is None,
    ensures
        translation(source) == Seq::<Character>::empty(),
{
    let kept = source.filter(recognized());
    if kept.len() > 0 {
        source.lemma_filter_pred(recognized(), 0);
        assert(kept.contains(kept[0]));
        source.lemma_filter_contains_rev(recognized(), kept[0]);
        let i = choose|i: int| 0 <= i < source.len() && source[i] == kept[0];
        assert(symbol(source[i]) is None);
    }
    assert(translation(source) =~= Seq::<Character>::empty());
}

/// Translates source text into a program.
pub fn translate(program: &str) -> (r: Program)
    ensures
        r@ == translation(program@),
        r@.len() == program@.filter(recognized()).len(),
{
    let mut out: Program = Vec::new();
    for c in it: program.chars()
        invariant
            it.seq() == program@,
            out@ == translation(program@.take(it.index())),
    {
        proof {
            lemma_translation_push(program@.take(it.index()), c);
            assert(program@.take(it.index() + 1) =~= program@.take(it.index()).push(c));
        }
        match get_character(c) {
            Some(instruction) => {
                out.push(instruction);
            },
            None => {},
        }
    }
    assert(program@.take(program@.len() as int) =~= program@);
    out
}

} // verus!
