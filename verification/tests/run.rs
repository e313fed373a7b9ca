use tapevm::bf;
use tapevm::ir;
use tapevm::ir::Interpreter;
use tapevm::machine::{Action, Machine, Outcome, Status};

const LIMIT: usize = 1_000_000;

fn run_direct(src: &str, input: &[u8]) -> Outcome {
    let code = bf::Code::from(src.as_bytes().to_vec()).unwrap();
    assert!(code.is_linked());
    code.run(&input.to_vec(), LIMIT)
}

fn run_folded(src: &str, input: &[u8]) -> Outcome {
    let code = ir::Code::from(src.as_bytes().to_vec()).unwrap();
    assert!(code.widest().checked_mul(LIMIT).is_some());
    Interpreter::run(code, &input.to_vec(), LIMIT)
}

fn both(src: &str, input: &[u8]) -> (Vec<u8>, Status) {
    let d = run_direct(src, input);
    let f = run_folded(src, input);
    assert_eq!(d.output, f.output);
    assert_eq!(d.status, f.status);
    (d.output, d.status)
}

fn drive_direct(src: &str) -> Machine {
    let code = bf::Code::from(src.as_bytes().to_vec()).unwrap();
    let mut m = Machine::new();
    for _ in 0..LIMIT {
        assert!(code.ready(&m));
        match code.step(&mut m, None) {
            Action::Finished | Action::LeftBoundary => return m,
            Action::Input => panic!("no input in these programs"),
            _ => {}
        }
    }
    panic!("did not halt");
}

fn drive_folded(src: &str) -> Machine {
    let code = ir::Code::from(src.as_bytes().to_vec()).unwrap();
    let mut m = Machine::new();
    for _ in 0..LIMIT {
        assert!(Interpreter::fits(&code, &m));
        match Interpreter::step(&code, &mut m, None) {
            Action::Finished | Action::LeftBoundary => return m,
            Action::Input => panic!("no input in these programs"),
            _ => {}
        }
    }
    panic!("did not halt");
}

#[test]
fn a_new_machine_has_one_zero_cell() {
    let m = Machine::new();
    assert_eq!(m.pc(), 0);
    assert_eq!(m.cursor(), 0);
    assert_eq!(m.cell(), 0);
    assert_eq!(m.tape(), &vec![0u8]);
}

#[test]
fn empty_program_halts_at_once_without_io() {
    assert_eq!(both("", b"abc"), (vec![], Status::Finished));
    let code = bf::Code::from(Vec::new()).unwrap();
    let mut m = Machine::new();
    assert_eq!(code.step(&mut m, None), Action::Finished);
    let code = ir::Code::from(Vec::new()).unwrap();
    assert_eq!(Interpreter::step(&code, &mut m, None), Action::Finished);
    assert_eq!(m.pc(), 0);
}

#[test]
fn two_increments_then_output() {
    assert_eq!(both("++.", b""), (vec![2], Status::Finished));
    assert_eq!(both("++.", b"ignored"), (vec![2], Status::Finished));
}

#[test]
fn countdown_loop_writes_two_one_zero() {
    assert_eq!(both("+++[-.]", b""), (vec![2, 1, 0], Status::Finished));
}

#[test]
fn increments_wrap_at_256() {
    let mut src = "+".repeat(255);
    src.push('.');
    assert_eq!(both(&src, b"").0, vec![255]);
    let mut src = "+".repeat(256);
    src.push('.');
    assert_eq!(both(&src, b"").0, vec![0]);
    let mut src = "+".repeat(256 + 7);
    src.push('.');
    assert_eq!(both(&src, b"").0, vec![7]);
}

#[test]
fn decrement_of_zero_is_255() {
    assert_eq!(both("-.", b"").0, vec![255]);
    assert_eq!(both("---.", b"").0, vec![253]);
    let mut src = "-".repeat(256);
    src.push('.');
    assert_eq!(both(&src, b"").0, vec![0]);
}

#[test]
fn moving_right_grows_the_tape_with_zeros() {
    for n in [0usize, 1, 2, 9, 300] {
        let src = ">".repeat(n);
        let d = drive_direct(&src);
        let f = drive_folded(&src);
        assert_eq!(d.cursor(), n);
        assert_eq!(f.cursor(), n);
        assert_eq!(d.tape(), &vec![0u8; n + 1]);
        assert_eq!(f.tape(), &vec![0u8; n + 1]);
    }
}

#[test]
fn the_tape_never_shrinks() {
    let d = drive_direct(">>>+<<");
    let f = drive_folded(">>>+<<");
    assert_eq!(d.cursor(), 1);
    assert_eq!(f.cursor(), 1);
    assert_eq!(d.tape(), &vec![0, 0, 0, 1]);
    assert_eq!(f.tape(), &vec![0, 0, 0, 1]);
}

#[test]
fn moving_right_over_old_cells_keeps_them() {
    let d = drive_direct("+>++>+++<<>>>");
    let f = drive_folded("+>++>+++<<>>>");
    assert_eq!(d.tape(), &vec![1, 2, 3, 0]);
    assert_eq!(f.tape(), &vec![1, 2, 3, 0]);
    assert_eq!(d.cursor(), 3);
    assert_eq!(f.cursor(), 3);
}

#[test]
fn three_moves_end_at_the_same_cursor_in_both_forms() {
    let d = drive_direct(">>>");
    let f = drive_folded(">>>");
    assert_eq!(d.cursor(), 3);
    assert_eq!(f.cursor(), 3);
    assert_eq!(d.pc(), 3);
    assert_eq!(f.pc(), 1);
}

#[test]
fn leading_move_left_halts_silently() {
    assert_eq!(both("<", b""), (vec![], Status::LeftBoundary));
    assert_eq!(both("<+++.", b""), (vec![], Status::LeftBoundary));
    assert_eq!(both("<<<<.[.]", b"x"), (vec![], Status::LeftBoundary));
}

#[test]
fn move_left_past_the_start_halts_later_too() {
    assert_eq!(both("+.>.<<.", b""), (vec![1, 0], Status::LeftBoundary));
}

#[test]
fn folded_move_left_halts_without_moving() {
    let f = drive_folded(">><<<");
    assert_eq!(f.cursor(), 2);
    assert_eq!(f.pc(), 1);
    let d = drive_direct(">><<<");
    assert_eq!(d.cursor(), 0);
    assert_eq!(d.pc(), 4);
}

#[test]
fn clear_loop_zeroes_the_cell() {
    for n in 1usize..=255 {
        let mut src = "+".repeat(n);
        src.push_str("[-]");
        let d = drive_direct(&src);
        let f = drive_folded(&src);
        assert_eq!(d.cell(), 0);
        assert_eq!(f.cell(), 0);
        assert_eq!(both(&src, b""), (vec![], Status::Finished));
    }
}

#[test]
fn loop_is_skipped_on_a_zero_cell() {
    assert_eq!(both("[+.]-.", b""), (vec![255], Status::Finished));
}

#[test]
fn nested_loops_multiply() {
    assert_eq!(both("+++[>++++[>++<-]<-]>>.", b""), (vec![24], Status::Finished));
}

#[test]
fn input_is_copied_to_output() {
    assert_eq!(both(",.,.", b"hi"), (b"hi".to_vec(), Status::Finished));
    assert_eq!(both(",+.", &[255]), (vec![0], Status::Finished));
}

#[test]
fn input_beyond_the_stream_stops_the_run() {
    assert_eq!(both(",", b""), (vec![], Status::InputExhausted));
    assert_eq!(both("+.,.,.", b"a"), (vec![1, b'a'], Status::InputExhausted));
}

#[test]
fn echo_until_zero() {
    assert_eq!(both(",[.,]", &[3, 2, 1, 0, 9]), (vec![3, 2, 1], Status::Finished));
}

#[test]
fn endless_loop_runs_into_the_limit() {
    assert_eq!(both("+[]", b""), (vec![], Status::Running));
    let code = bf::Code::from(b"+[.]".to_vec()).unwrap();
    let out = code.run(&Vec::new(), 10);
    assert_eq!(out.status, Status::Running);
    assert_eq!(out.output, vec![1, 1, 1, 1]);
    let code = ir::Code::from(b"+[.]".to_vec()).unwrap();
    let out = Interpreter::run(code, &Vec::new(), 10);
    assert_eq!(out.status, Status::Running);
    assert_eq!(out.output, vec![1, 1, 1, 1]);
}

#[test]
fn limit_counts_steps_exactly() {
    let code = bf::Code::from(b"+.+.".to_vec()).unwrap();
    assert_eq!(code.run(&Vec::new(), 0).output, vec![]);
    assert_eq!(code.run(&Vec::new(), 0).status, Status::Running);
    assert_eq!(code.run(&Vec::new(), 2).output, vec![1]);
    assert_eq!(code.run(&Vec::new(), 3).status, Status::Running);
    assert_eq!(code.run(&Vec::new(), 4).output, vec![1, 2]);
    assert_eq!(code.run(&Vec::new(), 4).status, Status::Finished);
}

#[test]
fn folded_run_takes_one_step_per_run_of_symbols() {
    let code = ir::Code::from(b"+++.".to_vec()).unwrap();
    let out = Interpreter::run(code, &Vec::new(), 2);
    assert_eq!(out.output, vec![3]);
    assert_eq!(out.status, Status::Finished);
    let code = bf::Code::from(b"+++.".to_vec()).unwrap();
    let out = code.run(&Vec::new(), 2);
    assert_eq!(out.output, vec![]);
    assert_eq!(out.status, Status::Running);
}

#[test]
fn step_reports_what_the_driver_owes() {
    let code = bf::Code::from(b"+.,<".to_vec()).unwrap();
    let mut m = Machine::new();
    assert_eq!(code.step(&mut m, None), Action::Continue);
    assert_eq!(code.step(&mut m, None), Action::Output(1));
    assert_eq!(code.step(&mut m, None), Action::Input);
    assert_eq!(m.pc(), 2);
    assert_eq!(code.step(&mut m, Some(9)), Action::Continue);
    assert_eq!(m.cell(), 9);
    assert_eq!(code.step(&mut m, None), Action::LeftBoundary);
    assert_eq!(code.step(&mut m, None), Action::LeftBoundary);
    assert_eq!(m.pc(), 3);
}

#[test]
fn folded_step_reports_what_the_driver_owes() {
    let code = ir::Code::from(b"++.,<".to_vec()).unwrap();
    let mut m = Machine::new();
    assert_eq!(Interpreter::step(&code, &mut m, None), Action::Continue);
    assert_eq!(Interpreter::step(&code, &mut m, None), Action::Output(2));
    assert_eq!(Interpreter::step(&code, &mut m, None), Action::Input);
    assert_eq!(m.pc(), 2);
    assert_eq!(Interpreter::step(&code, &mut m, Some(9)), Action::Continue);
    assert_eq!(m.cell(), 9);
    assert_eq!(Interpreter::step(&code, &mut m, None), Action::LeftBoundary);
    assert_eq!(m.pc(), 3);
}

#[test]
fn step_ignores_input_it_did_not_ask_for() {
    let code = bf::Code::from(b"+".to_vec()).unwrap();
    let mut m = Machine::new();
    assert_eq!(code.step(&mut m, Some(40)), Action::Continue);
    assert_eq!(m.cell(), 1);
}

#[test]
fn status_tells_why_a_machine_stands() {
    let code = bf::Code::from(b",<".to_vec()).unwrap();
    let mut m = Machine::new();
    assert_eq!(code.status(&m, true), Status::Running);
    assert_eq!(code.status(&m, false), Status::InputExhausted);
    code.step(&mut m, Some(1));
    assert_eq!(code.status(&m, false), Status::LeftBoundary);
    let code = bf::Code::from(b"".to_vec()).unwrap();
    assert_eq!(code.status(&m, true), Status::Finished);
    let code = ir::Code::from(b">,<<".to_vec()).unwrap();
    let mut m = Machine::new();
    assert_eq!(Interpreter::status(&code, &m, false), Status::Running);
    Interpreter::step(&code, &mut m, None);
    assert_eq!(Interpreter::status(&code, &m, false), Status::InputExhausted);
    Interpreter::step(&code, &mut m, Some(1));
    assert_eq!(Interpreter::status(&code, &m, true), Status::LeftBoundary);
}

#[test]
fn unclosed_loop_is_not_ready_on_a_zero_cell() {
    let code = bf::Code::from(b"[".to_vec()).unwrap();
    let m = Machine::new();
    assert!(!code.ready(&m));
    let code = bf::Code::from(b"+[".to_vec()).unwrap();
    let mut m = Machine::new();
    assert!(code.ready(&m));
    code.step(&mut m, None);
    assert!(code.ready(&m));
    assert_eq!(code.step(&mut m, None), Action::Continue);
    assert_eq!(code.step(&mut m, None), Action::Finished);
}

#[test]
fn unclosed_folded_loop_jumps_to_the_start() {
    let code = ir::Code::from(b".[".to_vec()).unwrap();
    let mut m = Machine::new();
    assert_eq!(Interpreter::step(&code, &mut m, None), Action::Output(0));
    assert_eq!(Interpreter::step(&code, &mut m, None), Action::Continue);
    assert_eq!(m.pc(), 1);
}

#[test]
fn fits_holds_where_the_tape_can_grow() {
    let code = ir::Code::from(b">>+".to_vec()).unwrap();
    let mut m = Machine::new();
    assert!(Interpreter::fits(&code, &m));
    Interpreter::step(&code, &mut m, None);
    assert!(Interpreter::fits(&code, &m));
    Interpreter::step(&code, &mut m, None);
    assert!(Interpreter::fits(&code, &m));
}

#[test]
fn hello() {
    let src = "++++++++[>++++[>++>+++>+++>+<<<<-]>+>+>->>+[<]<-]>>.>---.+++++++..+++.>>.<-.<.+++.------.--------.>>+.>++.";
    assert_eq!(both(src, b""), (b"Hello World!\n".to_vec(), Status::Finished));
}

#[test]
fn every_short_balanced_program_behaves_alike_in_both_forms() {
    let symbols = b"><+-.,[]";
    let input = vec![3u8, 0, 255];
    let mut checked = 0usize;
    for len in 0..=5usize {
        let mut index = vec![0usize; len];
        loop {
            let src: Vec<u8> = index.iter().map(|&i| symbols[i]).collect();
            if let Ok(code) = bf::Code::from(src.clone()) {
                if code.is_linked() {
                    let d = code.run(&input, 3000);
                    let f = Interpreter::run(ir::Code::from(src.clone()).unwrap(), &input, 3000);
                    if d.status != Status::Running {
                        assert_eq!(d.output, f.output);
                        assert_eq!(d.status, f.status);
                    } else {
                        assert!(f.output.starts_with(&d.output));
                    }
                    checked += 1;
                }
            } else {
                assert!(ir::Code::from(src.clone()).is_err());
            }
            let mut k = 0;
            while k < len && index[k] == symbols.len() - 1 {
                index[k] = 0;
                k += 1;
            }
            if k == len {
                break;
            }
            index[k] += 1;
        }
    }
    assert!(checked > 10_000);
}
