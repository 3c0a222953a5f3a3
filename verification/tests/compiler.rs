use tape_builder::machine::Status;
use tape_builder::program::{Instruction, Program};
use tape_builder::runner::Runner;

fn run_text(text: &str, input: &[u8]) -> Runner<16, Vec<u8>, u8> {
    Program::new(text).unwrap().run(input, Vec::new())
}

#[test]
fn nested_loop_program_moves_three_into_the_next_cell() {
    let r = run_text("+++[->+<]", &[]);
    assert_eq!(r.status(), Status::Running);
    assert_eq!(r.memory()[0], 0);
    assert_eq!(r.memory()[1], 3);
    assert_eq!(r.pointer(), 0);
    assert!(r.output().is_empty());
}

#[test]
fn doubly_nested_loops_multiply() {
    // 3 * 4 into cell 2
    let r = run_text("+++[>++++[>+<-]<-]>>.", &[]);
    assert_eq!(r.output(), &vec![12u8]);
}

#[test]
fn two_opening_brackets_are_an_unmatched_opening() {
    assert_eq!(Program::new("[[").err(), Some("unmatched opening bracket"));
}

#[test]
fn a_lone_closing_bracket_is_an_unmatched_closing() {
    assert_eq!(Program::new("]").err(), Some("unmatched closing bracket"));
}

#[test]
fn a_closing_bracket_before_its_opening_is_an_unmatched_closing() {
    assert_eq!(Program::new("][").err(), Some("unmatched closing bracket"));
    assert_eq!(Program::new("+[-]]+[").err(), Some("unmatched closing bracket"));
}

#[test]
fn an_opening_bracket_left_open_is_an_unmatched_opening() {
    assert_eq!(Program::new("+[-[+]").err(), Some("unmatched opening bracket"));
}

#[test]
fn the_empty_text_compiles_and_does_nothing() {
    let r = run_text("", &[7]);
    assert_eq!(r.status(), Status::Running);
    assert!(r.output().is_empty());
    assert_eq!(r.memory()[0], 0);
}

#[test]
fn other_characters_are_skipped() {
    let plain = run_text("++>+++<[->+<]>.", &[]);
    let noisy = run_text("add two: ++ then > three +++\n<[ - > + < ] done >.", &[]);
    assert_eq!(plain.output(), &vec![5u8]);
    assert_eq!(noisy.output(), plain.output());
}

#[test]
fn read_takes_input_in_order() {
    let r = run_text(",.>,.>,.", &[10, 20, 30]);
    assert_eq!(r.output(), &vec![10u8, 20, 30]);
}

#[test]
fn read_on_exhausted_input_leaves_the_cell_unchanged() {
    let r = run_text("+++++,.", &[]);
    assert_eq!(r.output(), &vec![5u8]);
    let r = run_text(",>+++,.", &[9]);
    assert_eq!(r.output(), &vec![3u8]);
}

#[test]
fn increment_wraps_from_the_top() {
    let r = run_text("-.+.", &[]);
    assert_eq!(r.output(), &vec![255u8, 0]);
}

#[test]
fn loop_is_skipped_when_the_cell_is_zero() {
    let r = run_text("[+.]>+.", &[]);
    assert_eq!(r.output(), &vec![1u8]);
}

#[test]
fn moving_left_of_the_tape_stops_the_runner() {
    let r = run_text("+.<+.", &[]);
    assert_eq!(r.status(), Status::OutOfBounds);
    assert_eq!(r.output(), &vec![1u8]);
    assert_eq!(r.pointer(), 0);
}

#[test]
fn moving_right_of_the_tape_stops_the_runner() {
    let program = Program::new(">>>>+.").unwrap();
    let r: Runner<4, Vec<u8>, u8> = program.run(&[], Vec::new());
    assert_eq!(r.status(), Status::OutOfBounds);
    assert_eq!(r.pointer(), 3);
    assert!(r.output().is_empty());
}

#[test]
fn an_endless_loop_reaches_the_limit() {
    let program = Program::new("+[]").unwrap();
    let mut r: Runner<4, Vec<u8>, u8> = Runner::new(&[], Vec::new());
    r.set_limit(1000);
    program.run_on(&mut r);
    assert_eq!(r.status(), Status::LimitReached);
}

#[test]
fn a_loop_within_the_limit_finishes() {
    let program = Program::new("-[-]+.").unwrap();
    let mut r: Runner<4, Vec<u8>, u8> = Runner::new(&[], Vec::new());
    r.set_limit(255);
    program.run_on(&mut r);
    assert_eq!(r.status(), Status::Running);
    assert_eq!(r.output(), &vec![1u8]);

    let mut r: Runner<4, Vec<u8>, u8> = Runner::new(&[], Vec::new());
    r.set_limit(254);
    program.run_on(&mut r);
    assert_eq!(r.status(), Status::LimitReached);
    assert!(r.output().is_empty());
}

#[test]
fn a_stopped_runner_ignores_further_instructions() {
    let mut r: Runner<2, Vec<u8>, u8> = Runner::new(&[4], Vec::new());
    r.shl();
    assert_eq!(r.status(), Status::OutOfBounds);
    r.inc();
    r.read();
    r.write();
    r.shr();
    assert_eq!(r.memory()[0], 0);
    assert_eq!(r.pointer(), 0);
    assert!(r.output().is_empty());
}

#[test]
fn runner_primitives_act_on_the_current_cell() {
    let mut r: Runner<3, Vec<u16>, u16> = Runner::new(&[500, 7], Vec::new());
    r.inc();
    r.inc();
    r.write();
    r.shr();
    r.dec();
    r.write();
    r.shr();
    r.read();
    r.write();
    r.shl();
    r.read();
    r.write();
    r.read();
    r.write();
    assert_eq!(r.output(), &vec![2u16, 65535, 500, 7, 7]);
    assert_eq!(r.pointer(), 1);
    assert_eq!(r.memory(), &[2u16, 7, 500]);
    assert_eq!(r.into_output(), vec![2u16, 65535, 500, 7, 7]);
}

#[test]
fn repeat_runs_a_body_until_the_cell_is_zero() {
    let mut r: Runner<3, Vec<u8>, u8> = Runner::new(&[], Vec::new());
    r.inc();
    r.inc();
    r.inc();
    let body = vec![
        Instruction::Dec,
        Instruction::Shr,
        Instruction::Inc,
        Instruction::Inc,
        Instruction::Shl,
    ];
    r.repeat(&body);
    assert_eq!(r.memory(), &[0u8, 6, 0]);
    r.repeat(&body);
    assert_eq!(r.memory(), &[0u8, 6, 0]);
}
