use bf_interpreter::{get_character, translate, Character};

#[test]
fn each_symbol_has_its_instruction() {
    assert_eq!(get_character('>'), Some(Character::IncrementPointer));
    assert_eq!(get_character('<'), Some(Character::DecrementPointer));
    assert_eq!(get_character('+'), Some(Character::IncrementValue));
    assert_eq!(get_character('-'), Some(Character::DecrementValue));
    assert_eq!(get_character('.'), Some(Character::Output));
    assert_eq!(get_character(','), Some(Character::Input));
    assert_eq!(get_character('['), Some(Character::JumpForward));
    assert_eq!(get_character(']'), Some(Character::JumpBackward));
}

#[test]
fn other_characters_have_none() {
    for c in ['a', 'Z', '0', ' ', '\n', '\t', '(', ')', '{', '}', '*', '/', '\u{e9}', '\u{1f600}'] {
        assert_eq!(get_character(c), None);
    }
}

#[test]
fn translate_keeps_the_eight_symbols_in_order() {
    assert_eq!(
        translate("><+-.,[]"),
        vec![
            Character::IncrementPointer,
            Character::DecrementPointer,
            Character::IncrementValue,
            Character::DecrementValue,
            Character::Output,
            Character::Input,
            Character::JumpForward,
            Character::JumpBackward,
        ]
    );
}

#[test]
fn translate_drops_comments() {
    assert_eq!(
        translate("add one: + then\nprint it: . (done)"),
        vec![Character::IncrementValue, Character::Output]
    );
}

#[test]
fn translate_of_empty_text_is_empty() {
    assert_eq!(translate(""), Vec::<Character>::new());
}

#[test]
fn translate_of_comments_only_is_empty() {
    assert_eq!(translate("no symbols here\n"), Vec::<Character>::new());
}

#[test]
fn translate_accepts_unbalanced_brackets() {
    assert_eq!(
        translate("]][ "),
        vec![Character::JumpBackward, Character::JumpBackward, Character::JumpForward]
    );
}

#[test]
fn translate_skips_characters_outside_ascii() {
    assert_eq!(
        translate("\u{e9}+\u{4e16}\u{754c}-\u{1f600}."),
        vec![Character::IncrementValue, Character::DecrementValue, Character::Output]
    );
}

#[test]
fn translate_counts_the_recognized_symbols() {
    let source = "++[>+<-]. a comment, with a comma\n>>.<<";
    let recognized = source.chars().filter(|c| "><+-.,[]".contains(*c)).count();
    assert_eq!(recognized, 15);
    assert_eq!(translate(source).len(), recognized);
}

#[test]
fn translate_preserves_relative_order() {
    let source = "a>b<c+d-e.f,g[h]i";
    let expected: Vec<Character> =
        source.chars().filter_map(get_character).collect();
    assert_eq!(translate(source), expected);
    assert_eq!(translate(source), translate("><+-.,[]"));
}
