use bf_interp::instruction::Instruction::{
    DataDecrement, DataIncrement, Input, JumpBackward, JumpForward, Output, PointerDecrement,
    PointerIncrement,
};
use bf_interp::instruction::{decode, Instruction, StructuralError};
use bf_interp::instruction::instructions_from_source;
use bf_interp::machine::{run_program, Event, Machine, Status};
use bf_interp::memory::Memory;

fn chars(s: &str) -> Vec<char> {
    s.chars().collect()
}

fn run_text(src: &str, input: &[u8], fuse: bool) -> (Vec<u8>, Status) {
    let program = instructions_from_source(&chars(src), fuse).expect("balanced program");
    let outcome = run_program(&program, &input.to_vec(), 1_000_000);
    (outcome.output, outcome.status)
}

const HELLO: &str = "++++++++[>++++[>++>+++>+++>+<<<<-]>+>+>->>+[<]<-]>>.>---.+++++++..+++.";

#[test]
fn hello_prefix_starts_with_h() {
    for fuse in [false, true] {
        let (out, status) = run_text(HELLO, &[], fuse);
        assert_eq!(status, Status::Halted);
        assert_eq!(out[0], b'H');
        assert_eq!(out, b"Hello".to_vec());
    }
}

#[test]
fn echo_one_byte() {
    for fuse in [false, true] {
        let (out, status) = run_text(",.", &[65], fuse);
        assert_eq!(status, Status::Halted);
        assert_eq!(out, vec![65]);
    }
}

#[test]
fn three_increments_output_three() {
    for fuse in [false, true] {
        let (out, status) = run_text("+++.", &[], fuse);
        assert_eq!(status, Status::Halted);
        assert_eq!(out, vec![3]);
    }
}

fn run_machine(program: &Vec<Instruction>) -> Machine {
    let mut m = Machine::new();
    for _ in 0..1000 {
        match m.step(program, None) {
            Event::Halted => return m,
            Event::Continued | Event::Emitted(_) => {}
            other => panic!("unexpected event {:?}", other),
        }
    }
    panic!("program did not halt");
}

#[test]
fn loop_on_zero_cell_is_skipped() {
    let program = instructions_from_source(&chars("[]"), false).unwrap();
    assert_eq!(program, vec![Instruction::JumpForward(1), Instruction::JumpBackward(1)]);
    let outcome = run_program(&program, &vec![], 100);
    assert_eq!(outcome.status, Status::Halted);
    assert!(outcome.output.is_empty());
    assert_eq!(outcome.steps, 1);
    let mut m = run_machine(&program);
    assert_eq!(m.pc, 2);
    assert_eq!(m.cursor, 0);
    assert_eq!(m.memory.get(0), 0);
}

#[test]
fn clearing_loop_terminates_at_zero() {
    for fuse in [false, true] {
        let program = instructions_from_source(&chars("+[-]"), fuse).unwrap();
        let outcome = run_program(&program, &vec![], 100);
        assert_eq!(outcome.status, Status::Halted);
        assert_eq!(outcome.steps, 4);
        let (out, _) = run_text("+[-].", &[], fuse);
        assert_eq!(out, vec![0]);
        let mut m = run_machine(&program);
        assert_eq!(m.memory.get(0), 0);
        assert_eq!(m.cursor, 0);
    }
}

#[test]
fn increment_wraps_from_255_to_zero() {
    let src = format!("{}.+.", "+".repeat(255));
    for fuse in [false, true] {
        let (out, _) = run_text(&src, &[], fuse);
        assert_eq!(out, vec![255, 0]);
    }
}

#[test]
fn decrement_wraps_from_zero_to_255() {
    for fuse in [false, true] {
        let (out, _) = run_text("-.", &[], fuse);
        assert_eq!(out, vec![255]);
    }
}

#[test]
fn negative_cells_are_separate_from_positive_ones() {
    let mut m = Memory::new();
    m.set(5, 9);
    m.set(0, 4);
    m.set(-1, 7);
    assert_eq!(m.get(-1), 7);
    assert_eq!(m.get(0), 4);
    assert_eq!(m.get(5), 9);
    assert_eq!(m.get(-6), 0);
    assert_eq!(m.get(100), 0);
    m.add(-1, 250);
    assert_eq!(m.get(-1), 1);
    m.sub(-3, 1);
    assert_eq!(m.get(-3), 255);
    assert_eq!(m.get(-2), 0);
}

#[test]
fn tape_left_of_origin_through_programs() {
    for fuse in [false, true] {
        let (out, _) = run_text("<++>>>>>+<<<<<.>.<<.", &[], fuse);
        assert_eq!(out, vec![2, 0, 0]);
    }
}

#[test]
fn unmatched_open_is_rejected() {
    assert_eq!(instructions_from_source(&chars("+[+"), false), Err(StructuralError::UnmatchedOpen));
    assert_eq!(instructions_from_source(&chars("[[]"), true), Err(StructuralError::UnmatchedOpen));
}

#[test]
fn unmatched_close_is_rejected() {
    assert_eq!(instructions_from_source(&chars("+]"), false), Err(StructuralError::UnmatchedClose));
    assert_eq!(instructions_from_source(&chars("[]][["), true), Err(StructuralError::UnmatchedClose));
}

#[test]
fn nested_brackets_pair_correctly() {
    let program = instructions_from_source(&chars("[[[]]]"), false).unwrap();
    assert_eq!(
        program,
        vec![
            JumpForward(5),
            JumpForward(3),
            JumpForward(1),
            JumpBackward(1),
            JumpBackward(3),
            JumpBackward(5)
        ]
    );
    let program = instructions_from_source(&chars("[][+[]]"), false).unwrap();
    assert_eq!(
        program,
        vec![
            JumpForward(1),
            JumpBackward(1),
            JumpForward(4),
            DataIncrement(1),
            JumpForward(1),
            JumpBackward(1),
            JumpBackward(4)
        ]
    );
}

#[test]
fn link_jumps_leaves_input_on_error() {
    let mut v = decode(&chars("[+"));
    let before = v.clone();
    assert_eq!(Instruction::link_jumps(&mut v), Err(StructuralError::UnmatchedOpen));
    assert_eq!(v, before);
}

#[test]
fn decoding_skips_comments() {
    assert_eq!(
        decode(&chars("a+ b>\n<-.,x[]")),
        vec![
            DataIncrement(1),
            PointerIncrement(1),
            PointerDecrement(1),
            DataDecrement(1),
            Output,
            Input,
            JumpForward(0),
            JumpBackward(0)
        ]
    );
    assert_eq!(Instruction::from_char('q'), None);
    assert_eq!(Instruction::from_char(']'), Some(JumpBackward(0)));
}

#[test]
fn fusion_counts_runs() {
    let fused = Instruction::compress_instructions(&decode(&chars(">>>+++--<[,..]")));
    assert_eq!(
        fused,
        vec![
            PointerIncrement(3),
            DataIncrement(3),
            DataDecrement(2),
            PointerDecrement(1),
            JumpForward(0),
            Input,
            Output,
            Output,
            JumpBackward(0)
        ]
    );
    assert!(Instruction::compress_instructions(&vec![]).is_empty());
}

#[test]
fn fusing_256_increments_gives_count_zero() {
    let fused = Instruction::compress_instructions(&decode(&chars(&"+".repeat(256))));
    assert_eq!(fused, vec![Instruction::DataIncrement(0)]);
    let (out, _) = run_text(&format!("+{}.", "+".repeat(256)), &[], true);
    assert_eq!(out, vec![1]);
}

#[test]
fn fusing_256_moves_does_not_wrap() {
    let fused = Instruction::compress_instructions(&decode(&chars(&">".repeat(300))));
    assert_eq!(fused, vec![Instruction::PointerIncrement(300)]);
    let src = format!("+{}+{}.", ">".repeat(256), "<".repeat(256));
    for fuse in [false, true] {
        let (out, _) = run_text(&src, &[], fuse);
        assert_eq!(out, vec![1]);
    }
}

#[test]
fn fused_and_unfused_agree() {
    let sources = [HELLO, "+++[>++<-]>.", ",[.,]", "++>+<[->+<]>.", "+[-]."];
    for src in sources {
        let input = [3u8, 1, 4];
        assert_eq!(run_text(src, &input, false).0, run_text(src, &input, true).0);
    }
}

#[test]
fn end_of_input_stops_the_run() {
    let (out, status) = run_text(".,.", &[], false);
    assert_eq!(out, vec![0]);
    assert_eq!(status, Status::EndOfInput);
}

#[test]
fn fuel_bounds_an_endless_loop() {
    let program = instructions_from_source(&chars("+[]"), false).unwrap();
    let outcome = run_program(&program, &vec![], 50);
    assert_eq!(outcome.status, Status::OutOfFuel);
    assert_eq!(outcome.steps, 50);
}

#[test]
fn cursor_overflow_is_reported() {
    let program = vec![Instruction::PointerDecrement(isize::MAX as usize), Instruction::PointerDecrement(2)];
    let outcome = run_program(&program, &vec![], 10);
    assert_eq!(outcome.status, Status::CursorOverflow);
    assert_eq!(outcome.steps, 1);
}

#[test]
fn machine_steps_one_instruction_at_a_time() {
    let program = instructions_from_source(&chars(",+."), false).unwrap();
    let mut m = Machine::new();
    assert!(m.wants_input(&program));
    assert_eq!(m.step(&program, None), Event::EndOfInput);
    assert_eq!(m.pc, 0);
    assert_eq!(m.step(&program, Some(41)), Event::Continued);
    assert!(!m.wants_input(&program));
    assert_eq!(m.step(&program, None), Event::Continued);
    assert_eq!(m.step(&program, None), Event::Emitted(42));
    assert_eq!(m.step(&program, None), Event::Halted);
}
