use tapevm::bf;
use tapevm::error::CompileError;
use tapevm::ir;
use tapevm::ir::IR;
use tapevm::opcode::OpCode;

fn folded(src: &str) -> Vec<IR> {
    let code = ir::Code::from(src.as_bytes().to_vec()).unwrap();
    (0..code.len()).map(|i| code.get(i).unwrap()).collect()
}

fn direct(src: &str) -> Vec<OpCode> {
    let code = bf::Code::from(src.as_bytes().to_vec()).unwrap();
    (0..code.len()).map(|i| code.get(i).unwrap()).collect()
}

#[test]
fn parse_knows_the_eight_symbols() {
    assert_eq!(OpCode::parse(b'>'), Some(OpCode::SHR));
    assert_eq!(OpCode::parse(b'<'), Some(OpCode::SHL));
    assert_eq!(OpCode::parse(b'+'), Some(OpCode::ADD));
    assert_eq!(OpCode::parse(b'-'), Some(OpCode::SUB));
    assert_eq!(OpCode::parse(b'.'), Some(OpCode::GETCHAR));
    assert_eq!(OpCode::parse(b','), Some(OpCode::PUTCHAR));
    assert_eq!(OpCode::parse(b'['), Some(OpCode::LB));
    assert_eq!(OpCode::parse(b']'), Some(OpCode::RB));
}

#[test]
fn parse_skips_every_other_byte() {
    for b in 0..=255u8 {
        if !b"><+-.,[]".contains(&b) {
            assert_eq!(OpCode::parse(b), None);
        }
    }
}

#[test]
fn empty_buffer_compiles_to_nothing() {
    assert_eq!(bf::Code::from(Vec::new()).unwrap().len(), 0);
    assert_eq!(ir::Code::from(Vec::new()).unwrap().len(), 0);
}

#[test]
fn direct_has_one_instruction_per_symbol() {
    assert_eq!(
        direct("><+-.,[]"),
        vec![
            OpCode::SHR,
            OpCode::SHL,
            OpCode::ADD,
            OpCode::SUB,
            OpCode::GETCHAR,
            OpCode::PUTCHAR,
            OpCode::LB,
            OpCode::RB,
        ]
    );
}

#[test]
fn direct_skips_comments() {
    assert_eq!(direct("a+ b\n+c."), vec![OpCode::ADD, OpCode::ADD, OpCode::GETCHAR]);
    assert_eq!(direct("hello world"), vec![]);
}

#[test]
fn direct_get_past_the_end_is_none() {
    let code = bf::Code::from(b"+".to_vec()).unwrap();
    assert_eq!(code.get(0), Some(OpCode::ADD));
    assert_eq!(code.get(1), None);
}

#[test]
fn direct_table_holds_both_ends_of_each_loop() {
    let code = bf::Code::from(b"[[]]+[]".to_vec()).unwrap();
    assert_eq!(code.target(0), Some(3));
    assert_eq!(code.target(3), Some(0));
    assert_eq!(code.target(1), Some(2));
    assert_eq!(code.target(2), Some(1));
    assert_eq!(code.target(4), None);
    assert_eq!(code.target(5), Some(6));
    assert_eq!(code.target(6), Some(5));
    assert_eq!(code.target(7), None);
    assert!(code.is_linked());
}

#[test]
fn direct_table_counts_instructions_not_bytes() {
    let code = bf::Code::from(b"x[y-z]".to_vec()).unwrap();
    assert_eq!(code.target(0), Some(2));
    assert_eq!(code.target(2), Some(0));
}

#[test]
fn unbalanced_close_bracket_is_refused() {
    assert_eq!(bf::Code::from(b"]".to_vec()).err(), Some(CompileError::UnbalancedCloseBracket));
    assert_eq!(ir::Code::from(b"]".to_vec()).err(), Some(CompileError::UnbalancedCloseBracket));
}

#[test]
fn close_before_open_is_refused() {
    assert_eq!(bf::Code::from(b"+][".to_vec()).err(), Some(CompileError::UnbalancedCloseBracket));
    assert_eq!(ir::Code::from(b"+][".to_vec()).err(), Some(CompileError::UnbalancedCloseBracket));
    assert_eq!(bf::Code::from(b"[]]".to_vec()).err(), Some(CompileError::UnbalancedCloseBracket));
    assert_eq!(ir::Code::from(b"[]]".to_vec()).err(), Some(CompileError::UnbalancedCloseBracket));
}

#[test]
fn open_without_close_is_accepted_unlinked() {
    let code = bf::Code::from(b"+[[-]".to_vec()).unwrap();
    assert_eq!(code.len(), 5);
    assert_eq!(code.target(1), None);
    assert_eq!(code.target(2), Some(4));
    assert_eq!(code.target(4), Some(2));
    assert!(!code.is_linked());
}

#[test]
fn open_without_close_keeps_target_zero() {
    assert_eq!(
        folded("+[[-]"),
        vec![IR::ADD(1), IR::JIZ(0), IR::JIZ(4), IR::SUB(1), IR::JNZ(2)]
    );
}

#[test]
fn three_moves_fold_into_one() {
    assert_eq!(folded(">>>"), vec![IR::SHR(3)]);
}

#[test]
fn each_of_the_four_folds() {
    assert_eq!(
        folded(">><<<++++-----"),
        vec![IR::SHR(2), IR::SHL(3), IR::ADD(4), IR::SUB(5)]
    );
}

#[test]
fn comments_do_not_break_a_run() {
    assert_eq!(folded("+ +\n+x+"), vec![IR::ADD(4)]);
}

#[test]
fn input_and_output_do_not_fold() {
    assert_eq!(folded("..,,"), vec![IR::GETCHAR, IR::GETCHAR, IR::PUTCHAR, IR::PUTCHAR]);
}

#[test]
fn brackets_do_not_fold_and_break_runs() {
    assert_eq!(
        folded("+[[+]]+"),
        vec![IR::ADD(1), IR::JIZ(5), IR::JIZ(4), IR::ADD(1), IR::JNZ(2), IR::JNZ(1), IR::ADD(1)]
    );
}

#[test]
fn branches_point_at_each_other() {
    assert_eq!(
        folded("+[>+<-]"),
        vec![
            IR::ADD(1),
            IR::JIZ(6),
            IR::SHR(1),
            IR::ADD(1),
            IR::SHL(1),
            IR::SUB(1),
            IR::JNZ(1),
        ]
    );
}

#[test]
fn folded_get_past_the_end_is_none() {
    let code = ir::Code::from(b"++".to_vec()).unwrap();
    assert_eq!(code.get(0), Some(IR::ADD(2)));
    assert_eq!(code.get(1), None);
}

#[test]
fn widest_is_the_longest_run_of_moves_right() {
    assert_eq!(ir::Code::from(b"+++++<<<<".to_vec()).unwrap().widest(), 0);
    assert_eq!(ir::Code::from(b">>+>>>>-<<<<<<>".to_vec()).unwrap().widest(), 4);
}
