use bfvm::{parse, parse_unoptimized, Op, ParseError};

#[test]
fn empty_text_is_the_empty_program() {
    assert_eq!(parse("").unwrap(), vec![]);
    assert_eq!(parse_unoptimized("").unwrap(), vec![]);
}

#[test]
fn each_instruction_character_has_its_instruction() {
    assert_eq!(
        parse("><+-.,").unwrap(),
        vec![
            Op::IncreaseDPBy(1),
            Op::DecreaseDPBy(1),
            Op::IncreaseByteAtDPBy(1),
            Op::DecreaseByteAtDPBy(1),
            Op::OutputByteAtDP,
            Op::InputByteToDP,
        ]
    );
}

#[test]
fn coalesces_runs_of_one_kind() {
    assert_eq!(
        parse("+++>><<<<-").unwrap(),
        vec![
            Op::IncreaseByteAtDPBy(3),
            Op::IncreaseDPBy(2),
            Op::DecreaseDPBy(4),
            Op::DecreaseByteAtDPBy(1),
        ]
    );
}

#[test]
fn opposite_directions_do_not_coalesce() {
    assert_eq!(
        parse("><><").unwrap(),
        vec![
            Op::IncreaseDPBy(1),
            Op::DecreaseDPBy(1),
            Op::IncreaseDPBy(1),
            Op::DecreaseDPBy(1),
        ]
    );
    assert_eq!(
        parse("+-").unwrap(),
        vec![Op::IncreaseByteAtDPBy(1), Op::DecreaseByteAtDPBy(1)]
    );
}

#[test]
fn lookback_is_one_instruction_deep() {
    assert_eq!(
        parse("+>+").unwrap(),
        vec![Op::IncreaseByteAtDPBy(1), Op::IncreaseDPBy(1), Op::IncreaseByteAtDPBy(1)]
    );
}

#[test]
fn output_and_input_never_coalesce() {
    assert_eq!(
        parse("..,,").unwrap(),
        vec![
            Op::OutputByteAtDP,
            Op::OutputByteAtDP,
            Op::InputByteToDP,
            Op::InputByteToDP,
        ]
    );
}

#[test]
fn comments_are_skipped_and_do_not_break_a_run() {
    assert_eq!(parse("hello").unwrap(), vec![]);
    assert_eq!(parse("+ add\n+ again").unwrap(), vec![Op::IncreaseByteAtDPBy(2)]);
    assert_eq!(
        parse("a>b>c.d").unwrap(),
        vec![Op::IncreaseDPBy(2), Op::OutputByteAtDP]
    );
}

#[test]
fn characters_outside_ascii_are_comments() {
    assert_eq!(
        parse("é+ü+→.").unwrap(),
        vec![Op::IncreaseByteAtDPBy(2), Op::OutputByteAtDP]
    );
}

#[test]
fn counts_do_not_wrap_at_the_cell_width() {
    let text = "+".repeat(300);
    assert_eq!(parse(&text).unwrap(), vec![Op::IncreaseByteAtDPBy(300)]);
    let text = ">".repeat(70000);
    assert_eq!(parse(&text).unwrap(), vec![Op::IncreaseDPBy(70000)]);
}

#[test]
fn empty_loop_points_past_itself() {
    assert_eq!(
        parse("[]").unwrap(),
        vec![Op::IfByteZeroJumpTo(Some(2)), Op::IfByteNotZeroJumpTo(1)]
    );
}

#[test]
fn loop_targets_are_one_past_the_partner() {
    assert_eq!(
        parse("+[-]").unwrap(),
        vec![
            Op::IncreaseByteAtDPBy(1),
            Op::IfByteZeroJumpTo(Some(4)),
            Op::DecreaseByteAtDPBy(1),
            Op::IfByteNotZeroJumpTo(2),
        ]
    );
}

#[test]
fn nested_loops_match_innermost_first() {
    assert_eq!(
        parse("[[-]>[+]]").unwrap(),
        vec![
            Op::IfByteZeroJumpTo(Some(9)),
            Op::IfByteZeroJumpTo(Some(4)),
            Op::DecreaseByteAtDPBy(1),
            Op::IfByteNotZeroJumpTo(2),
            Op::IncreaseDPBy(1),
            Op::IfByteZeroJumpTo(Some(8)),
            Op::IncreaseByteAtDPBy(1),
            Op::IfByteNotZeroJumpTo(6),
            Op::IfByteNotZeroJumpTo(1),
        ]
    );
}

#[test]
fn targets_count_coalesced_instructions() {
    assert_eq!(
        parse("+++[>>++<<-]").unwrap(),
        vec![
            Op::IncreaseByteAtDPBy(3),
            Op::IfByteZeroJumpTo(Some(7)),
            Op::IncreaseDPBy(2),
            Op::IncreaseByteAtDPBy(2),
            Op::DecreaseDPBy(2),
            Op::DecreaseByteAtDPBy(1),
            Op::IfByteNotZeroJumpTo(2),
        ]
    );
}

#[test]
fn brackets_break_a_run() {
    assert_eq!(
        parse("+[+]+").unwrap(),
        vec![
            Op::IncreaseByteAtDPBy(1),
            Op::IfByteZeroJumpTo(Some(4)),
            Op::IncreaseByteAtDPBy(1),
            Op::IfByteNotZeroJumpTo(2),
            Op::IncreaseByteAtDPBy(1),
        ]
    );
}

#[test]
fn unoptimized_translation_has_one_instruction_per_character() {
    assert_eq!(
        parse_unoptimized("++[>>-]x").unwrap(),
        vec![
            Op::IncreaseByteAtDPBy(1),
            Op::IncreaseByteAtDPBy(1),
            Op::IfByteZeroJumpTo(Some(7)),
            Op::IncreaseDPBy(1),
            Op::IncreaseDPBy(1),
            Op::DecreaseByteAtDPBy(1),
            Op::IfByteNotZeroJumpTo(3),
        ]
    );
}

#[test]
fn every_target_of_a_translation_is_within_the_program() {
    let text = "++[>+[>+<-]<-]>>[-]+[[-]>]<,[.,]";
    for program in [parse(text).unwrap(), parse_unoptimized(text).unwrap()] {
        for (i, op) in program.iter().enumerate() {
            match *op {
                Op::IfByteZeroJumpTo(target) => {
                    let target = target.unwrap();
                    assert!(target <= program.len());
                    assert_eq!(program[target - 1], Op::IfByteNotZeroJumpTo(i + 1));
                }
                Op::IfByteNotZeroJumpTo(target) => {
                    assert!(target <= program.len());
                    assert_eq!(program[target - 1], Op::IfByteZeroJumpTo(Some(i + 1)));
                }
                _ => {}
            }
        }
    }
}

#[test]
fn unmatched_open_is_rejected() {
    assert_eq!(parse("[+"), Err(ParseError::MismatchedBracket { position: 0 }));
    assert_eq!(parse_unoptimized("[+"), Err(ParseError::MismatchedBracket { position: 0 }));
}

#[test]
fn unmatched_close_is_rejected() {
    assert_eq!(parse("+]"), Err(ParseError::MismatchedBracket { position: 1 }));
    assert_eq!(parse("]"), Err(ParseError::MismatchedBracket { position: 0 }));
    assert_eq!(parse_unoptimized("]"), Err(ParseError::MismatchedBracket { position: 0 }));
}

#[test]
fn the_first_stray_close_is_reported() {
    assert_eq!(parse("[]]+]["), Err(ParseError::MismatchedBracket { position: 2 }));
}

#[test]
fn the_last_unclosed_open_is_reported() {
    assert_eq!(parse("[+[-]>[[.]"), Err(ParseError::MismatchedBracket { position: 6 }));
    assert_eq!(parse("[["), Err(ParseError::MismatchedBracket { position: 1 }));
}

#[test]
fn positions_count_characters() {
    assert_eq!(parse("é→]"), Err(ParseError::MismatchedBracket { position: 2 }));
    assert_eq!(parse("ü[é"), Err(ParseError::MismatchedBracket { position: 1 }));
}
