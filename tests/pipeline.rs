use nbf::inst::{compile as assemble, Inst, ParseError};
use nbf::interp::{add_wrapping, Halt, Interpreter, TAPE_LEN};
use nbf::lower::{lower, Lowered};
use nbf::stmt::{compile as build, Stmt};
use nbf::symex::{optimize, optimize_loop, symbolic_execution, Ineligible, LoopKind, OptError, SymExVal};

fn tree(src: &str) -> Vec<Stmt> {
    build(assemble(src.as_bytes()).unwrap())
}

fn run_tree(src: &str, input: &[u8]) -> (Result<(), Halt>, Interpreter) {
    let prog = optimize(tree(src)).unwrap();
    let mut m = Interpreter::new(input.to_vec());
    let r = m.interpret(&prog, u64::MAX);
    (r, m)
}

fn run_flat(src: &str, input: &[u8]) -> (Result<(), Halt>, Interpreter) {
    let prog = assemble(src.as_bytes()).unwrap();
    let mut m = Interpreter::new(input.to_vec());
    let r = m.execute(&prog, u64::MAX);
    (r, m)
}

#[test]
fn moves_value_between_cells() {
    let (r, m) = run_tree("++>+++<[->+<]", &[]);
    assert_eq!(r, Ok(()));
    assert_eq!(m.memory[0], 0);
    assert_eq!(m.memory[1], 5);
    assert_eq!(m.output, Vec::<u8>::new());
}

#[test]
fn echoes_one_byte() {
    let (r, m) = run_tree(",.", &[65]);
    assert_eq!(r, Ok(()));
    assert_eq!(m.output, b"A".to_vec());
}

#[test]
fn lone_open_is_unmatched() {
    assert!(matches!(assemble(b"["), Err(ParseError::UnmatchedOpen)));
}

#[test]
fn lone_close_is_unmatched() {
    assert!(matches!(assemble(b"]"), Err(ParseError::UnmatchedClose)));
}

#[test]
fn close_before_open_is_unmatched_close() {
    assert!(matches!(assemble(b"][["), Err(ParseError::UnmatchedClose)));
    assert!(matches!(assemble(b"[]]"), Err(ParseError::UnmatchedClose)));
    assert!(matches!(assemble(b"[[]"), Err(ParseError::UnmatchedOpen)));
}

#[test]
fn empty_loop_diverges() {
    assert!(matches!(optimize(tree("+[]")), Err(OptError::DivergentLoop)));
}

#[test]
fn loop_without_gate_change_diverges() {
    assert!(matches!(optimize(tree("+[>+<]")), Err(OptError::DivergentLoop)));
}

#[test]
fn folds_cursor_moves() {
    assert_eq!(assemble(b">>><").unwrap(), vec![Inst::PtrInc(2)]);
    assert_eq!(assemble(b"<<<").unwrap(), vec![Inst::PtrInc(-3)]);
    assert_eq!(assemble(b"><").unwrap(), vec![Inst::PtrInc(0)]);
}

#[test]
fn folds_cell_adjustments() {
    assert_eq!(assemble(b"+-++").unwrap(), vec![Inst::ValInc(2)]);
    assert_eq!(assemble(b"--").unwrap(), vec![Inst::ValInc(-2)]);
}

#[test]
fn folds_long_run() {
    let src = vec![b'>'; 1000];
    assert_eq!(assemble(&src).unwrap(), vec![Inst::PtrInc(1000)]);
}

#[test]
fn alternating_runs_flush() {
    assert_eq!(
        assemble(b"++>>-x<.,").unwrap(),
        vec![
            Inst::ValInc(2),
            Inst::PtrInc(2),
            Inst::ValInc(-1),
            Inst::PtrInc(-1),
            Inst::Output,
            Inst::Input,
        ]
    );
}

#[test]
fn empty_source_assembles_to_nothing() {
    assert_eq!(assemble(b"").unwrap(), Vec::<Inst>::new());
    assert_eq!(assemble(b"comment only").unwrap(), Vec::<Inst>::new());
}

#[test]
fn loop_targets_point_past_partner() {
    assert_eq!(
        assemble(b"[>]").unwrap(),
        vec![Inst::LoopStart(3), Inst::PtrInc(1), Inst::LoopEnd(1)]
    );
    assert_eq!(
        assemble(b"+[[-]>]").unwrap(),
        vec![
            Inst::ValInc(1),
            Inst::LoopStart(7),
            Inst::LoopStart(5),
            Inst::ValInc(-1),
            Inst::LoopEnd(3),
            Inst::PtrInc(1),
            Inst::LoopEnd(2),
        ]
    );
}

#[test]
fn builds_nested_loops() {
    let t = tree("+[[-]>]");
    assert_eq!(t.len(), 2);
    assert!(matches!(t[0], Stmt::ValInc(1)));
    match &t[1] {
        Stmt::Loop(body) => {
            assert_eq!(body.len(), 2);
            match &body[0] {
                Stmt::Loop(inner) => {
                    assert_eq!(inner.len(), 1);
                    assert!(matches!(inner[0], Stmt::ValInc(-1)));
                }
                _ => panic!("expected an inner loop"),
            }
            assert!(matches!(body[1], Stmt::PtrInc(1)));
        }
        _ => panic!("expected a loop"),
    }
}

#[test]
fn purity_looks_inside_loops() {
    assert!(Stmt::PtrInc(1).pure());
    assert!(Stmt::Loop(vec![Stmt::ValInc(1), Stmt::Loop(vec![])]).pure());
    assert!(!Stmt::Loop(vec![Stmt::ValInc(1), Stmt::Loop(vec![Stmt::Output])]).pure());
    assert!(!Stmt::Input.pure());
}

#[test]
fn simplify_folds_constants() {
    let v = SymExVal::Add(
        Box::new(SymExVal::Add(Box::new(SymExVal::Cell(1)), Box::new(SymExVal::Const(2)))),
        Box::new(SymExVal::Const(3)),
    );
    match v.simplify() {
        SymExVal::Add(l, r) => {
            assert!(matches!(*l, SymExVal::Cell(1)));
            assert!(matches!(*r, SymExVal::Const(5)));
        }
        _ => panic!("expected a sum"),
    }
    let w = SymExVal::Const(i32::MAX).plus(SymExVal::Const(1));
    assert_eq!(w.const_val(), Some(i32::MIN));
    assert!(w.is_const());
    assert!(!SymExVal::Cell(0).is_const());
    assert_eq!(SymExVal::Cell(0).const_val(), None);
}

#[test]
fn symbolic_execution_of_transfer_body() {
    let body = vec![Stmt::ValInc(-1), Stmt::PtrInc(1), Stmt::ValInc(1), Stmt::PtrInc(-1), Stmt::ValInc(-2)];
    let info = symbolic_execution(&body).unwrap();
    assert_eq!(info.ptr_delta, 0);
    assert_eq!(info.memory_delta.len(), 2);
    assert_eq!(info.memory_delta.get(&0).unwrap().const_val(), Some(-3));
    assert_eq!(info.memory_delta.get(&1).unwrap().const_val(), Some(1));
}

#[test]
fn symbolic_execution_rejects_loops_and_io() {
    assert!(matches!(
        symbolic_execution(&vec![Stmt::ValInc(1), Stmt::Loop(vec![])]),
        Err(Ineligible::NestedLoop)
    ));
    assert!(matches!(
        symbolic_execution(&vec![Stmt::Output, Stmt::Loop(vec![])]),
        Err(Ineligible::Impure)
    ));
}

#[test]
fn classifies_loops() {
    assert_eq!(optimize_loop(&vec![Stmt::ValInc(1)]), Ok(LoopKind::Counted));
    assert_eq!(optimize_loop(&vec![Stmt::ValInc(-1)]), Ok(LoopKind::Irregular));
    assert_eq!(optimize_loop(&vec![Stmt::PtrInc(1)]), Ok(LoopKind::Displacing));
    assert_eq!(optimize_loop(&vec![Stmt::Output]), Ok(LoopKind::Ineligible));
    assert_eq!(optimize_loop(&vec![Stmt::Loop(vec![])]), Ok(LoopKind::Ineligible));
    assert_eq!(optimize_loop(&vec![]), Err(OptError::DivergentLoop));
    assert_eq!(
        optimize_loop(&vec![Stmt::ValInc(1), Stmt::ValInc(-1)]),
        Err(OptError::DivergentLoop)
    );
}

#[test]
fn optimize_keeps_program() {
    let t = optimize(tree("+[->+<][.>]")).unwrap();
    assert_eq!(t.len(), 3);
    assert!(matches!(&t[1], Stmt::Loop(b) if b.len() == 4));
    assert!(matches!(&t[2], Stmt::Loop(b) if b.len() == 2));
}

#[test]
fn tree_and_flat_agree() {
    let src = "++++++++[>++++[>++>+++>+++>+<<<<-]>+>+>->>+[<]<-]>>.>---.+++++++..+++.>>.<-.<.+++.------.--------.>>+.>++.,[.,]";
    let (r1, m1) = run_tree(src, b"xyz");
    let (r2, m2) = run_flat(src, b"xyz");
    assert_eq!(r1, Ok(()));
    assert_eq!(r2, Ok(()));
    assert_eq!(m1.output, b"Hello World!\nxyz".to_vec());
    assert_eq!(m1.output, m2.output);
    assert_eq!(m1.memory, m2.memory);
    assert_eq!(m1.ptr, m2.ptr);
}

#[test]
fn cell_arithmetic_wraps() {
    assert_eq!(add_wrapping(250, 10), 4);
    assert_eq!(add_wrapping(0, -1), 255);
    assert_eq!(add_wrapping(7, 256 * 3 + 1), 8);
    let (r, m) = run_tree("-", &[]);
    assert_eq!(r, Ok(()));
    assert_eq!(m.memory[0], 255);
}

#[test]
fn input_exhausted_reads_zero() {
    let (r, m) = run_tree("+,.", &[]);
    assert_eq!(r, Ok(()));
    assert_eq!(m.output, vec![0]);
}

#[test]
fn fresh_machine_is_zeroed() {
    let m = Interpreter::new(vec![1, 2]);
    assert_eq!(m.memory.len(), TAPE_LEN);
    assert!(m.memory.iter().all(|c| *c == 0));
    assert_eq!(m.ptr, 0);
    assert_eq!(m.in_pos, 0);
}

#[test]
fn cursor_off_tape_halts() {
    let (r, _) = run_tree("<+", &[]);
    assert_eq!(r, Err(Halt::OffTape));
    let (r, _) = run_flat("<+", &[]);
    assert_eq!(r, Err(Halt::OffTape));
    let (r, m) = run_tree("<>+", &[]);
    assert_eq!(r, Ok(()));
    assert_eq!(m.memory[0], 1);
}

#[test]
fn fuel_bounds_loops() {
    let prog = tree("+[]");
    let mut m = Interpreter::new(vec![]);
    assert_eq!(m.interpret(&prog, 10), Err(Halt::OutOfFuel));
    let flat = assemble(b"+[]").unwrap();
    let mut m = Interpreter::new(vec![]);
    assert_eq!(m.execute(&flat, 10), Err(Halt::OutOfFuel));
    let mut m = Interpreter::new(vec![]);
    assert_eq!(m.interpret(&tree("+++[-]"), 3), Ok(()));
    let mut m = Interpreter::new(vec![]);
    assert_eq!(m.interpret(&tree("+++[-]"), 2), Err(Halt::OutOfFuel));
}

#[test]
fn nested_divergent_loop_is_found() {
    assert!(matches!(optimize(tree("+[[]-]")), Err(OptError::DivergentLoop)));
    assert!(matches!(optimize(tree("+[>[>+<]<-]")), Err(OptError::DivergentLoop)));
    assert!(optimize(tree("+[>[-]<-]")).is_ok());
}

#[test]
fn cursor_sum_overflow_is_displacing() {
    let body = vec![Stmt::PtrInc(i32::MIN), Stmt::PtrInc(i32::MIN)];
    assert_eq!(optimize_loop(&body), Ok(LoopKind::Displacing));
    assert!(matches!(symbolic_execution(&body), Err(Ineligible::ShiftOverflow)));
    let body = vec![Stmt::PtrInc(i32::MAX), Stmt::PtrInc(1), Stmt::Output];
    assert!(matches!(symbolic_execution(&body), Err(Ineligible::ShiftOverflow)));
}

#[test]
fn simplify_keeps_sum_with_cell_on_right() {
    let v = SymExVal::Add(Box::new(SymExVal::Const(2)), Box::new(SymExVal::Cell(0)));
    match v.simplify() {
        SymExVal::Add(l, r) => {
            assert!(matches!(*l, SymExVal::Const(2)));
            assert!(matches!(*r, SymExVal::Cell(0)));
        }
        _ => panic!("expected a sum"),
    }
}

#[test]
fn lowers_straight_line_code() {
    let ops = lower(&tree("+>-.,<")).unwrap();
    assert_eq!(
        ops,
        vec![
            Lowered::Adjust(1),
            Lowered::Shift(1),
            Lowered::Adjust(-1),
            Lowered::Output,
            Lowered::Input,
            Lowered::Shift(-1),
        ]
    );
}

#[test]
fn lowers_nested_loops_with_fresh_blocks() {
    let ops = lower(&tree("+[>[-]<-]")).unwrap();
    assert_eq!(
        ops,
        vec![
            Lowered::Adjust(1),
            Lowered::LoopHead { head: 1, body: 2, exit: 3 },
            Lowered::Shift(1),
            Lowered::LoopHead { head: 4, body: 5, exit: 6 },
            Lowered::Adjust(-1),
            Lowered::LoopBack { head: 4 },
            Lowered::LoopExit { exit: 6 },
            Lowered::Shift(-1),
            Lowered::Adjust(-1),
            Lowered::LoopBack { head: 1 },
            Lowered::LoopExit { exit: 3 },
        ]
    );
    assert_eq!(lower(&Vec::new()).unwrap(), Vec::<Lowered>::new());
}

#[test]
fn clone_copies_nested_loops() {
    let t = tree("+[>[-]<.]");
    let c = t.clone();
    assert_eq!(c.len(), 2);
    match (&t[1], &c[1]) {
        (Stmt::Loop(a), Stmt::Loop(b)) => {
            assert_eq!(a.len(), b.len());
            assert!(matches!(&b[1], Stmt::Loop(inner) if inner.len() == 1));
            assert!(matches!(b[3], Stmt::Output));
        }
        _ => panic!("expected loops"),
    }
}

#[test]
fn folds_run_between_other_text() {
    assert_eq!(
        assemble(b"+[,x>>>x>-]<").unwrap(),
        vec![
            Inst::ValInc(1),
            Inst::LoopStart(6),
            Inst::Input,
            Inst::PtrInc(4),
            Inst::ValInc(-1),
            Inst::LoopEnd(2),
            Inst::PtrInc(-1),
        ]
    );
}
