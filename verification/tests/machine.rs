use bfvm::{Action, EofPolicy, ExecError, Machine, Op, MEMORY_SIZE};

#[test]
fn a_new_machine_has_a_zeroed_default_tape() {
    let machine = Machine::new();
    assert_eq!(MEMORY_SIZE, 30000);
    assert_eq!(machine.memory().len(), 30000);
    assert!(machine.memory().iter().all(|&cell| cell == 0));
    assert_eq!(machine.data_pointer(), 0);
    assert_eq!(machine.instruction_pointer(), 0);
}

#[test]
fn the_tape_size_can_be_chosen() {
    let machine = Machine::with_tape_size(1);
    assert_eq!(machine.memory(), &vec![0u8]);
    let machine = Machine::with_tape_size(7);
    assert_eq!(machine.memory(), &vec![0u8; 7]);
}

#[test]
fn a_step_past_the_end_halts() {
    let mut machine = Machine::with_tape_size(4);
    assert_eq!(machine.step(&vec![]), Ok(Action::Halt));
    assert_eq!(machine.instruction_pointer(), 0);
    let program = vec![Op::IncreaseByteAtDPBy(1)];
    assert_eq!(machine.step(&program), Ok(Action::Continue));
    assert_eq!(machine.step(&program), Ok(Action::Halt));
    assert_eq!(machine.instruction_pointer(), 1);
}

#[test]
fn moves_add_to_the_cursor() {
    let mut machine = Machine::with_tape_size(10);
    let program = vec![Op::IncreaseDPBy(9), Op::DecreaseDPBy(4), Op::DecreaseDPBy(5)];
    assert_eq!(machine.step(&program), Ok(Action::Continue));
    assert_eq!(machine.data_pointer(), 9);
    assert_eq!(machine.step(&program), Ok(Action::Continue));
    assert_eq!(machine.data_pointer(), 5);
    assert_eq!(machine.step(&program), Ok(Action::Continue));
    assert_eq!(machine.data_pointer(), 0);
    assert_eq!(machine.instruction_pointer(), 3);
}

#[test]
fn moving_left_from_the_first_cell_fails() {
    let mut machine = Machine::new();
    let program = vec![Op::DecreaseDPBy(1)];
    assert_eq!(machine.step(&program), Err(ExecError::DataPointerOutOfBounds));
    assert_eq!(machine.data_pointer(), 0);
    assert_eq!(machine.instruction_pointer(), 0);
}

#[test]
fn moving_right_from_the_last_cell_fails() {
    let mut machine = Machine::new();
    let program = vec![Op::IncreaseDPBy(MEMORY_SIZE - 1), Op::IncreaseDPBy(1)];
    assert_eq!(machine.step(&program), Ok(Action::Continue));
    assert_eq!(machine.data_pointer(), MEMORY_SIZE - 1);
    assert_eq!(machine.step(&program), Err(ExecError::DataPointerOutOfBounds));
    assert_eq!(machine.data_pointer(), MEMORY_SIZE - 1);
    assert_eq!(machine.instruction_pointer(), 1);
}

#[test]
fn a_move_past_the_tape_fails_whatever_its_size() {
    let mut machine = Machine::with_tape_size(3);
    assert_eq!(
        machine.step(&vec![Op::IncreaseDPBy(3)]),
        Err(ExecError::DataPointerOutOfBounds)
    );
    assert_eq!(
        machine.step(&vec![Op::IncreaseDPBy(usize::MAX)]),
        Err(ExecError::DataPointerOutOfBounds)
    );
    assert_eq!(
        machine.step(&vec![Op::DecreaseDPBy(usize::MAX)]),
        Err(ExecError::DataPointerOutOfBounds)
    );
    assert_eq!(machine.step(&vec![Op::IncreaseDPBy(2)]), Ok(Action::Continue));
    assert_eq!(machine.data_pointer(), 2);
}

#[test]
fn incrementing_the_largest_cell_value_gives_zero() {
    let mut machine = Machine::with_tape_size(2);
    let program = vec![Op::IncreaseByteAtDPBy(255), Op::IncreaseByteAtDPBy(1)];
    assert_eq!(machine.step(&program), Ok(Action::Continue));
    assert_eq!(machine.memory()[0], 255);
    assert_eq!(machine.step(&program), Ok(Action::Continue));
    assert_eq!(machine.memory()[0], 0);
}

#[test]
fn decrementing_zero_gives_the_largest_cell_value() {
    let mut machine = Machine::with_tape_size(2);
    let program = vec![Op::DecreaseByteAtDPBy(1)];
    assert_eq!(machine.step(&program), Ok(Action::Continue));
    assert_eq!(machine.memory(), &vec![255u8, 0]);
}

#[test]
fn amounts_are_taken_modulo_the_cell_width() {
    let mut machine = Machine::with_tape_size(1);
    let program = vec![
        Op::IncreaseByteAtDPBy(300),
        Op::DecreaseByteAtDPBy(513),
        Op::IncreaseByteAtDPBy(usize::MAX),
        Op::DecreaseByteAtDPBy(usize::MAX),
    ];
    assert_eq!(machine.step(&program), Ok(Action::Continue));
    assert_eq!(machine.memory()[0], 44);
    assert_eq!(machine.step(&program), Ok(Action::Continue));
    assert_eq!(machine.memory()[0], 43);
    assert_eq!(machine.step(&program), Ok(Action::Continue));
    assert_eq!(machine.memory()[0], 42);
    assert_eq!(machine.step(&program), Ok(Action::Continue));
    assert_eq!(machine.memory()[0], 43);
}

#[test]
fn output_hands_the_current_cell_to_the_host() {
    let mut machine = Machine::with_tape_size(1);
    let program = vec![Op::IncreaseByteAtDPBy(65), Op::OutputByteAtDP];
    assert_eq!(machine.step(&program), Ok(Action::Continue));
    assert_eq!(machine.step(&program), Ok(Action::Emit(65)));
    assert_eq!(machine.instruction_pointer(), 2);
    assert_eq!(machine.memory()[0], 65);
}

#[test]
fn a_read_waits_for_its_byte() {
    let mut machine = Machine::with_tape_size(1);
    let program = vec![Op::InputByteToDP];
    assert_eq!(machine.step(&program), Ok(Action::Read));
    assert_eq!(machine.instruction_pointer(), 0);
    assert_eq!(machine.step(&program), Ok(Action::Read));
    assert_eq!(machine.deliver(&program, Some(9), EofPolicy::Fail), Ok(()));
    assert_eq!(machine.memory()[0], 9);
    assert_eq!(machine.instruction_pointer(), 1);
}

#[test]
fn end_of_input_fails_by_default() {
    let mut machine = Machine::with_tape_size(1);
    let program = vec![Op::IncreaseByteAtDPBy(5), Op::InputByteToDP];
    assert_eq!(machine.step(&program), Ok(Action::Continue));
    assert_eq!(machine.step(&program), Ok(Action::Read));
    assert_eq!(
        machine.deliver(&program, None, EofPolicy::Fail),
        Err(ExecError::InputExhausted)
    );
    assert_eq!(machine.memory()[0], 5);
    assert_eq!(machine.instruction_pointer(), 1);
}

#[test]
fn end_of_input_can_store_zero() {
    let mut machine = Machine::with_tape_size(1);
    let program = vec![Op::IncreaseByteAtDPBy(5), Op::InputByteToDP];
    assert_eq!(machine.step(&program), Ok(Action::Continue));
    assert_eq!(machine.step(&program), Ok(Action::Read));
    assert_eq!(machine.deliver(&program, None, EofPolicy::ZeroFill), Ok(()));
    assert_eq!(machine.memory()[0], 0);
    assert_eq!(machine.instruction_pointer(), 2);
}

#[test]
fn end_of_input_can_leave_the_cell() {
    let mut machine = Machine::with_tape_size(1);
    let program = vec![Op::IncreaseByteAtDPBy(5), Op::InputByteToDP];
    assert_eq!(machine.step(&program), Ok(Action::Continue));
    assert_eq!(machine.step(&program), Ok(Action::Read));
    assert_eq!(machine.deliver(&program, None, EofPolicy::NoOp), Ok(()));
    assert_eq!(machine.memory()[0], 5);
    assert_eq!(machine.instruction_pointer(), 2);
}

#[test]
fn branch_if_zero_jumps_on_zero_only() {
    let program = vec![
        Op::IncreaseByteAtDPBy(1),
        Op::IfByteZeroJumpTo(Some(4)),
        Op::DecreaseByteAtDPBy(1),
        Op::IfByteZeroJumpTo(Some(0)),
    ];
    let mut machine = Machine::with_tape_size(1);
    assert_eq!(machine.step(&program), Ok(Action::Continue));
    assert_eq!(machine.step(&program), Ok(Action::Continue));
    assert_eq!(machine.instruction_pointer(), 2);
    assert_eq!(machine.step(&program), Ok(Action::Continue));
    assert_eq!(machine.step(&program), Ok(Action::Continue));
    assert_eq!(machine.instruction_pointer(), 0);
}

#[test]
fn branch_if_not_zero_jumps_on_nonzero_only() {
    let program = vec![
        Op::IfByteNotZeroJumpTo(3),
        Op::IncreaseByteAtDPBy(1),
        Op::IfByteNotZeroJumpTo(0),
    ];
    let mut machine = Machine::with_tape_size(1);
    assert_eq!(machine.step(&program), Ok(Action::Continue));
    assert_eq!(machine.instruction_pointer(), 1);
    assert_eq!(machine.step(&program), Ok(Action::Continue));
    assert_eq!(machine.step(&program), Ok(Action::Continue));
    assert_eq!(machine.instruction_pointer(), 0);
    assert_eq!(machine.step(&program), Ok(Action::Continue));
    assert_eq!(machine.instruction_pointer(), 3);
    assert_eq!(machine.step(&program), Ok(Action::Halt));
}

#[test]
fn a_jump_past_the_end_halts() {
    let program = vec![Op::IfByteZeroJumpTo(Some(17))];
    let mut machine = Machine::with_tape_size(1);
    assert_eq!(machine.step(&program), Ok(Action::Continue));
    assert_eq!(machine.instruction_pointer(), 17);
    assert_eq!(machine.step(&program), Ok(Action::Halt));
}

#[test]
fn an_unresolved_branch_fails() {
    let program = vec![Op::IfByteZeroJumpTo(None)];
    let mut machine = Machine::with_tape_size(1);
    assert_eq!(machine.step(&program), Err(ExecError::UnresolvedBranch));
    assert_eq!(machine.instruction_pointer(), 0);
}
