use bfvm::{
    execute, parse, parse_unoptimized, EofPolicy, ExecError, Machine, Op, Status, MEMORY_SIZE,
};

const HELLO: &str = "++++++++[>++++[>++>+++>+++>+<<<<-]>+>+>->>+[<]<-]>>.>---.+++++++..+++.>>.<-.<.+++.------.--------.>>+.>++.";

#[test]
fn two_increments_and_an_output_give_two() {
    let program = parse("++.").unwrap();
    let run = execute(&program, &[], EofPolicy::Fail, 100);
    assert_eq!(run.status, Status::Halted);
    assert_eq!(run.output, vec![2]);
}

#[test]
fn a_clearing_loop_runs_once_and_leaves_zero() {
    let program = parse("+[-]").unwrap();
    let run = execute(&program, &[], EofPolicy::Fail, 100);
    assert_eq!(run.status, Status::Halted);
    assert_eq!(run.machine.memory()[0], 0);
    assert_eq!(run.machine.data_pointer(), 0);
    assert_eq!(run.machine.instruction_pointer(), 4);
    assert_eq!(run.output, vec![]);
    // Four instructions and the step that finds the end.
    assert_eq!(execute(&program, &[], EofPolicy::Fail, 5).status, Status::Halted);
    assert_eq!(execute(&program, &[], EofPolicy::Fail, 4).status, Status::Running);
}

#[test]
fn input_is_echoed() {
    let program = parse(",.").unwrap();
    let run = execute(&program, &[65], EofPolicy::Fail, 100);
    assert_eq!(run.status, Status::Halted);
    assert_eq!(run.output, vec![65]);
    assert_eq!(run.consumed, 1);
}

#[test]
fn a_stray_close_is_rejected_before_any_run() {
    assert!(parse("]").is_err());
}

#[test]
fn an_empty_loop_on_a_zero_cell_is_skipped() {
    let program = parse("[]").unwrap();
    let run = execute(&program, &[], EofPolicy::Fail, 100);
    assert_eq!(run.status, Status::Halted);
    assert_eq!(run.machine.instruction_pointer(), 2);
    assert!(run.machine.memory().iter().all(|&cell| cell == 0));
    // The branch over the loop and the step that finds the end: the closing
    // bracket is never reached.
    assert_eq!(execute(&program, &[], EofPolicy::Fail, 2).status, Status::Halted);
    assert_eq!(execute(&program, &[], EofPolicy::Fail, 1).status, Status::Running);
}

#[test]
fn an_empty_loop_on_a_nonzero_cell_never_ends() {
    let program = parse("+[]").unwrap();
    let run = execute(&program, &[], EofPolicy::Fail, 100_000);
    assert_eq!(run.status, Status::Running);
    assert_eq!(run.machine.instruction_pointer(), 2);
    assert_eq!(run.machine.memory()[0], 1);
}

#[test]
fn the_empty_program_halts_at_once() {
    let run = execute(&vec![], &[1, 2, 3], EofPolicy::Fail, 1);
    assert_eq!(run.status, Status::Halted);
    assert_eq!(run.consumed, 0);
    assert_eq!(run.output, vec![]);
}

#[test]
fn no_budget_no_step() {
    let program = parse("+.").unwrap();
    let run = execute(&program, &[], EofPolicy::Fail, 0);
    assert_eq!(run.status, Status::Running);
    assert_eq!(run.machine.memory()[0], 0);
    assert_eq!(run.machine.instruction_pointer(), 0);
}

#[test]
fn runs_use_the_default_tape() {
    let run = execute(&vec![], &[], EofPolicy::Fail, 1);
    assert_eq!(run.machine.memory().len(), MEMORY_SIZE);
}

#[test]
fn hello_world() {
    let program = parse(HELLO).unwrap();
    let run = execute(&program, &[], EofPolicy::Fail, 1_000_000);
    assert_eq!(run.status, Status::Halted);
    assert_eq!(run.output, b"Hello World!\n".to_vec());
}

#[test]
fn cells_wrap_in_a_run() {
    let program = parse("-.+.").unwrap();
    let run = execute(&program, &[], EofPolicy::Fail, 100);
    assert_eq!(run.output, vec![255, 0]);
    let text = "+".repeat(256 + 7);
    let run = execute(&parse(&text).unwrap(), &[], EofPolicy::Fail, 100);
    assert_eq!(run.machine.memory()[0], 7);
}

#[test]
fn leaving_the_tape_on_the_left_fails() {
    let program = parse("+.<.").unwrap();
    let run = execute(&program, &[], EofPolicy::Fail, 100);
    assert_eq!(run.status, Status::Failed(ExecError::DataPointerOutOfBounds));
    assert_eq!(run.output, vec![1]);
    assert_eq!(run.machine.instruction_pointer(), 2);
}

#[test]
fn leaving_the_tape_on_the_right_fails() {
    let text = ">".repeat(MEMORY_SIZE);
    let run = execute(&parse(&text).unwrap(), &[], EofPolicy::Fail, 100);
    assert_eq!(run.status, Status::Failed(ExecError::DataPointerOutOfBounds));
    let text = ">".repeat(MEMORY_SIZE - 1);
    let run = execute(&parse(&text).unwrap(), &[], EofPolicy::Fail, 100);
    assert_eq!(run.status, Status::Halted);
    assert_eq!(run.machine.data_pointer(), MEMORY_SIZE - 1);
}

#[test]
fn an_unresolved_branch_ends_the_run() {
    let program = vec![Op::IncreaseByteAtDPBy(1), Op::IfByteZeroJumpTo(None)];
    let run = execute(&program, &[], EofPolicy::Fail, 100);
    assert_eq!(run.status, Status::Failed(ExecError::UnresolvedBranch));
    assert_eq!(run.machine.memory()[0], 1);
}

#[test]
fn reading_past_the_input_fails_by_default() {
    let program = parse(",.,.").unwrap();
    let run = execute(&program, &[7], EofPolicy::Fail, 100);
    assert_eq!(run.status, Status::Failed(ExecError::InputExhausted));
    assert_eq!(run.output, vec![7]);
    assert_eq!(run.consumed, 1);
}

#[test]
fn reading_past_the_input_can_give_zero() {
    let program = parse(",.,.").unwrap();
    let run = execute(&program, &[7], EofPolicy::ZeroFill, 100);
    assert_eq!(run.status, Status::Halted);
    assert_eq!(run.output, vec![7, 0]);
    assert_eq!(run.consumed, 1);
}

#[test]
fn reading_past_the_input_can_keep_the_cell() {
    let program = parse(",.,.").unwrap();
    let run = execute(&program, &[7], EofPolicy::NoOp, 100);
    assert_eq!(run.status, Status::Halted);
    assert_eq!(run.output, vec![7, 7]);
}

#[test]
fn input_is_read_in_order() {
    let program = parse(",>,>,<<.>.>.").unwrap();
    let run = execute(&program, &[3, 1, 2, 9], EofPolicy::Fail, 100);
    assert_eq!(run.output, vec![3, 1, 2]);
    assert_eq!(run.consumed, 3);
}

#[test]
fn a_run_can_start_from_a_chosen_machine() {
    let program = parse(">>+").unwrap();
    let run = Machine::with_tape_size(3).run(&program, &[], EofPolicy::Fail, 100);
    assert_eq!(run.status, Status::Halted);
    assert_eq!(run.machine.memory(), &vec![0u8, 0, 1]);
    let run = Machine::with_tape_size(2).run(&program, &[], EofPolicy::Fail, 100);
    assert_eq!(run.status, Status::Failed(ExecError::DataPointerOutOfBounds));
}

fn same_results(text: &str, input: &[u8], on_eof: EofPolicy) {
    let coalesced = execute(&parse(text).unwrap(), input, on_eof, 10_000_000);
    let plain = execute(&parse_unoptimized(text).unwrap(), input, on_eof, 10_000_000);
    assert_ne!(coalesced.status, Status::Running);
    assert_eq!(coalesced.status, plain.status);
    assert_eq!(coalesced.output, plain.output);
    assert_eq!(coalesced.consumed, plain.consumed);
    assert_eq!(coalesced.machine.memory(), plain.machine.memory());
}

#[test]
fn coalescing_does_not_change_a_run() {
    same_results(HELLO, &[], EofPolicy::Fail);
    same_results(",[.,]", b"echo", EofPolicy::ZeroFill);
    same_results(",>,<[->+<]>.", &[200, 100], EofPolicy::Fail);
    same_results("+++[>+++[>+++<-]<-]>>.", &[], EofPolicy::Fail);
}

#[test]
fn coalescing_does_not_change_a_failure() {
    same_results("+++.>>.<<<<.", &[], EofPolicy::Fail);
    same_results("+.,.,", &[1], EofPolicy::Fail);
    let text = format!("+.{}", ">".repeat(MEMORY_SIZE + 5));
    same_results(&text, &[], EofPolicy::Fail);
}

#[test]
fn the_plain_run_takes_no_fewer_steps() {
    let text = "+++++>>>>><<<<<-----";
    let coalesced = parse(text).unwrap();
    let plain = parse_unoptimized(text).unwrap();
    assert_eq!(execute(&coalesced, &[], EofPolicy::Fail, 5).status, Status::Halted);
    assert_eq!(execute(&plain, &[], EofPolicy::Fail, 5).status, Status::Running);
    assert_eq!(execute(&plain, &[], EofPolicy::Fail, 21).status, Status::Halted);
}
