use bf_interpreter::{translate, Character, Error, Machine, Unmatched, SIZE};

fn load(source: &str) -> Machine {
    Machine::new(translate(source)).unwrap()
}

#[test]
fn tape_has_thirty_thousand_cells() {
    assert_eq!(SIZE, 30000);
}

#[test]
fn new_machine_starts_at_zero() {
    let machine = load("+");
    assert_eq!(machine.pc(), 0);
    assert_eq!(machine.pointer(), 0);
    assert_eq!(machine.cell(), 0);
    assert!(!machine.halted());
    assert!(!machine.awaits_input());
}

#[test]
fn empty_program_is_rejected() {
    assert_eq!(Machine::new(Vec::new()).unwrap_err(), Error::EmptyProgram);
}

#[test]
fn program_longer_than_the_tape_is_rejected() {
    let program = vec![Character::IncrementValue; SIZE + 1];
    assert_eq!(Machine::new(program).unwrap_err(), Error::ProgramTooLarge);
}

#[test]
fn program_as_long_as_the_tape_is_accepted() {
    let program = vec![Character::IncrementValue; SIZE];
    assert!(Machine::new(program).is_ok());
}

#[test]
fn length_is_checked_before_brackets() {
    let program = vec![Character::JumpBackward; SIZE + 1];
    assert_eq!(Machine::new(program).unwrap_err(), Error::ProgramTooLarge);
}

#[test]
fn unbalanced_program_is_rejected() {
    assert_eq!(
        Machine::new(translate("+]")).unwrap_err(),
        Error::MalformedBrackets(Unmatched::Closing)
    );
    assert_eq!(
        Machine::new(translate("[+")).unwrap_err(),
        Error::MalformedBrackets(Unmatched::Opening)
    );
}

#[test]
fn increment_adds_one() {
    let mut machine = load("+++");
    assert_eq!(machine.step(None), Ok(None));
    assert_eq!(machine.cell(), 1);
    assert_eq!(machine.pc(), 1);
    assert_eq!(machine.step(None), Ok(None));
    assert_eq!(machine.step(None), Ok(None));
    assert_eq!(machine.cell(), 3);
    assert!(machine.halted());
}

#[test]
fn decrement_of_zero_is_255() {
    let mut machine = load("-");
    assert_eq!(machine.step(None), Ok(None));
    assert_eq!(machine.cell(), 255);
}

#[test]
fn increment_of_255_is_zero() {
    let mut machine = load("-+");
    machine.step(None).unwrap();
    assert_eq!(machine.cell(), 255);
    machine.step(None).unwrap();
    assert_eq!(machine.cell(), 0);
}

#[test]
fn two_hundred_fifty_six_increments_return_to_zero() {
    let mut machine = Machine::new(vec![Character::IncrementValue; 256]).unwrap();
    for expected in 1..=255u8 {
        machine.step(None).unwrap();
        assert_eq!(machine.cell(), expected);
    }
    machine.step(None).unwrap();
    assert_eq!(machine.cell(), 0);
    assert!(machine.halted());
}

#[test]
fn moves_change_the_pointer_only() {
    let mut machine = load("+>><");
    machine.step(None).unwrap();
    assert_eq!(machine.step(None), Ok(None));
    assert_eq!(machine.pointer(), 1);
    assert_eq!(machine.cell(), 0);
    assert_eq!(machine.step(None), Ok(None));
    assert_eq!(machine.pointer(), 2);
    assert_eq!(machine.step(None), Ok(None));
    assert_eq!(machine.pointer(), 1);
    machine = load("+><");
    machine.step(None).unwrap();
    machine.step(None).unwrap();
    machine.step(None).unwrap();
    assert_eq!(machine.pointer(), 0);
    assert_eq!(machine.cell(), 1);
}

#[test]
fn move_left_of_the_first_cell_fails() {
    let mut machine = load("<+");
    assert_eq!(machine.step(None), Err(Error::PointerOutOfBounds));
    assert_eq!(machine.pointer(), 0);
    assert_eq!(machine.pc(), 0);
    assert_eq!(machine.cell(), 0);
}

#[test]
fn move_right_of_the_last_cell_fails() {
    let mut machine = Machine::new(vec![Character::IncrementPointer; SIZE]).unwrap();
    for _ in 0..SIZE - 1 {
        assert_eq!(machine.step(None), Ok(None));
    }
    assert_eq!(machine.pointer(), SIZE - 1);
    assert_eq!(machine.step(None), Err(Error::PointerOutOfBounds));
    assert_eq!(machine.pointer(), SIZE - 1);
    assert_eq!(machine.pc(), SIZE - 1);
}

#[test]
fn output_emits_the_current_cell() {
    let mut machine = load("++.");
    machine.step(None).unwrap();
    machine.step(None).unwrap();
    assert_eq!(machine.step(None), Ok(Some(2)));
    assert_eq!(machine.cell(), 2);
    assert!(machine.halted());
}

#[test]
fn input_stores_the_byte_offered() {
    let mut machine = load(",.");
    assert!(machine.awaits_input());
    assert_eq!(machine.step(Some(200)), Ok(None));
    assert_eq!(machine.cell(), 200);
    assert!(!machine.awaits_input());
    assert_eq!(machine.step(None), Ok(Some(200)));
}

#[test]
fn input_without_a_byte_fails_and_changes_nothing() {
    let mut machine = load("+++,");
    machine.step(None).unwrap();
    machine.step(None).unwrap();
    machine.step(None).unwrap();
    assert_eq!(machine.step(None), Err(Error::InputExhausted));
    assert_eq!(machine.cell(), 3);
    assert_eq!(machine.pc(), 3);
    assert!(machine.awaits_input());
    assert_eq!(machine.step(Some(7)), Ok(None));
    assert_eq!(machine.cell(), 7);
}

#[test]
fn other_instructions_ignore_the_byte_offered() {
    let mut machine = load("+.");
    assert_eq!(machine.step(Some(99)), Ok(None));
    assert_eq!(machine.cell(), 1);
    assert_eq!(machine.step(Some(99)), Ok(Some(1)));
}

#[test]
fn loop_on_a_zero_cell_is_skipped() {
    //                      0123456
    let mut machine = load("[+.>,]+");
    assert_eq!(machine.step(None), Ok(None));
    assert_eq!(machine.pc(), 6);
    assert_eq!(machine.pointer(), 0);
    assert_eq!(machine.cell(), 0);
    assert_eq!(machine.step(None), Ok(None));
    assert_eq!(machine.cell(), 1);
    assert!(machine.halted());
}

#[test]
fn skipped_loop_skips_its_inner_loops_too() {
    //                      0123456789
    let mut machine = load("[+[-]>[]]-");
    machine.step(None).unwrap();
    assert_eq!(machine.pc(), 9);
    machine.step(None).unwrap();
    assert_eq!(machine.cell(), 255);
}

#[test]
fn loop_on_a_nonzero_cell_is_entered() {
    let mut machine = load("+[-]");
    machine.step(None).unwrap();
    machine.step(None).unwrap();
    assert_eq!(machine.pc(), 2);
    assert_eq!(machine.cell(), 1);
}

#[test]
fn closing_bracket_on_a_nonzero_cell_goes_back_into_the_body() {
    //                      01234
    let mut machine = load("++[-]");
    machine.step(None).unwrap();
    machine.step(None).unwrap();
    machine.step(None).unwrap();
    machine.step(None).unwrap();
    assert_eq!((machine.pc(), machine.cell()), (4, 1));
    machine.step(None).unwrap();
    assert_eq!((machine.pc(), machine.cell()), (3, 1));
    machine.step(None).unwrap();
    assert_eq!((machine.pc(), machine.cell()), (4, 0));
    machine.step(None).unwrap();
    assert_eq!(machine.pc(), 5);
    assert!(machine.halted());
}

#[test]
fn halted_machine_stays_as_it_is() {
    let mut machine = load("+");
    machine.step(None).unwrap();
    assert!(machine.halted());
    assert_eq!(machine.step(Some(5)), Ok(None));
    assert_eq!(machine.pc(), 1);
    assert_eq!(machine.cell(), 1);
    assert_eq!(machine.pointer(), 0);
    assert!(!machine.awaits_input());
}
