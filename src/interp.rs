use vstd::prelude::*;
use vstd::wrapping::usize_specs;

use crate::inst::Inst;
use crate::stmt::{Stmt, Tree, tree_of, trees_of, lemma_trees_of};

verus! {

/// The number of cells on the tape.
pub const TAPE_LEN: usize = 30000;

/// Why a run stopped before the end of the program.
#[derive(Debug, Clone, Copy, PartialEq, Eq, Structural)]
pub enum Halt {
    /// A loop needed more iterations than the fuel allowed.
    OutOfFuel,
    /// The cursor was off the tape where a cell had to be read or written.
    OffTape,
}

/// The state of a run: the tape, the cursor, the input with how much of it has been
/// read, and the output so far.
pub struct Machine {
    pub tape: Seq<u8>,
    pub ptr: usize,
    pub input: Seq<u8>,
    pub in_pos: int,
    pub output: Seq<u8>,
}

/// A fresh machine: a zeroed tape of `TAPE_LEN` cells and the cursor on the first one.
pub open spec fn initial(input: Seq<u8>) -> Machine {
    Machine {
        tape: Seq::new(TAPE_LEN as nat, |i: int| 0u8),
        ptr: 0,
        input,
        in_pos: 0,
        output: Seq::empty(),
    }
}

/// `c` plus `n`, modulo 256.
pub open spec fn add8(c: u8, n: i32) -> u8 {
    ((c + n) % 256) as u8
}

/// The cursor moved by `n`, wrapping at the width of `usize`.
pub open spec fn shifted(ptr: usize, n: i32) -> usize {
    usize_specs::wrapping_add_signed(ptr, n as isize)
}

/// The byte that the next read yields: the next input byte, or 0 once input is exhausted.
pub open spec fn next_input(s: Machine) -> u8 {
    if 0 <= s.in_pos < s.input.len() {
        s.input[s.in_pos]
    } else {
        0
    }
}

/// One statement run on `s`. A loop runs while its gate cell is non-zero; each of its
/// iterations uses one unit of `fuel`, and its body runs with one unit less.
pub open spec fn run_stmt(t: Tree, s: Machine, fuel: nat) -> Result<Machine, Halt>
    decreases fuel, t, 0int,
{
    match t {
        Tree::PtrInc(n) => Ok(Machine { ptr: shifted(s.ptr, n), ..s }),
        Tree::ValInc(n) => if s.ptr < s.tape.len() {
            Ok(Machine { tape: s.tape.update(s.ptr as int, add8(s.tape[s.ptr as int], n)), ..s })
        } else {
            Err(Halt::OffTape)
        },
        Tree::Loop(body) => if s.ptr >= s.tape.len() {
            Err(Halt::OffTape)
        } else if s.tape[s.ptr as int] == 0 {
            Ok(s)
        } else if fuel == 0 {
            Err(Halt::OutOfFuel)
        } else {
            match run_seq(body, 0, s, (fuel - 1) as nat) {
                Ok(s2) => run_stmt(Tree::Loop(body), s2, (fuel - 1) as nat),
                Err(h) => Err(h),
            }
        },
        Tree::Output => if s.ptr < s.tape.len() {
            Ok(Machine { output: s.output.push(s.tape[s.ptr as int]), ..s })
        } else {
            Err(Halt::OffTape)
        },
        Tree::Input => if s.ptr < s.tape.len() {
            Ok(
                Machine {
                    tape: s.tape.update(s.ptr as int, next_input(s)),
                    in_pos: if s.in_pos < s.input.len() {
                        s.in_pos + 1
                    } else {
                        s.in_pos
                    },
                    ..s
                },
            )
        } else {
            Err(Halt::OffTape)
        },
    }
}

/// The statements of `p` from index `k` on, run in order on `s`.
pub open spec fn run_seq(p: Seq<Tree>, k: int, s: Machine, fuel: nat) -> Result<Machine, Halt>
    decreases fuel, p, p.len() - k,
{
    if k < 0 || k >= p.len() {
        Ok(s)
    } else {
        match run_stmt(p[k], s, fuel) {
            Ok(s2) => run_seq(p, k + 1, s2, fuel),
            Err(h) => Err(h),
        }
    }
}

/// A program run from a fresh machine with the given input.
pub open spec fn run(p: Seq<Tree>, input: Seq<u8>, fuel: nat) -> Result<Machine, Halt> {
    run_seq(p, 0, initial(input), fuel)
}

/// The statement that a non-jump instruction stands for.
pub open spec fn inst_tree(i: Inst) -> Tree {
    match i {
        Inst::PtrInc(n) => Tree::PtrInc(n),
        Inst::ValInc(n) => Tree::ValInc(n),
        Inst::Output => Tree::Output,
        _ => Tree::Input,
    }
}

/// One instruction of a flat program executed at `pc`: the next `pc` and state. A
/// `LoopStart` jumps to its target when the current cell is zero, a `LoopEnd` when it
/// is not; every other instruction acts as its statement does.
pub open spec fn flat_step(p: Seq<Inst>, pc: int, s: Machine) -> Result<(int, Machine), Halt> {
    match p[pc] {
        Inst::LoopStart(t) => if s.ptr >= s.tape.len() {
            Err(Halt::OffTape)
        } else if s.tape[s.ptr as int] == 0 {
            Ok((t as int, s))
        } else {
            Ok((pc + 1, s))
        },
        Inst::LoopEnd(t) => if s.ptr >= s.tape.len() {
            Err(Halt::OffTape)
        } else if s.tape[s.ptr as int] != 0 {
            Ok((t as int, s))
        } else {
            Ok((pc + 1, s))
        },
        other => match run_stmt(inst_tree(other), s, 0) {
            Ok(s2) => Ok((pc + 1, s2)),
            Err(h) => Err(h),
        },
    }
}

/// A flat program run from `pc` until `pc` leaves the program, each instruction using
/// one unit of `fuel`.
pub open spec fn run_flat(p: Seq<Inst>, pc: int, s: Machine, fuel: nat) -> Result<Machine, Halt>
    decreases fuel,
{
    if pc < 0 || pc >= p.len() {
        Ok(s)
    } else if fuel == 0 {
        Err(Halt::OutOfFuel)
    } else {
        match flat_step(p, pc, s) {
            Ok((pc2, s2)) => run_flat(p, pc2, s2, (fuel - 1) as nat),
            Err(h) => Err(h),
        }
    }
}

/// Executes a statement tree against a tape.
#[derive(Debug)]
pub struct Interpreter {
    pub memory: Vec<u8>,
    pub ptr: usize,
    pub input: Vec<u8>,
    pub in_pos: usize,
    pub output: Vec<u8>,
}

impl Interpreter {
    pub open spec fn state(&self) -> Machine {
        Machine {
            tape: self.memory@,
            ptr: self.ptr,
            input: self.input@,
            in_pos: self.in_pos as int,
            output: self.output@,
        }
    }

    pub open spec fn inv(&self) -> bool {
        self.in_pos <= self.input@.len()
    }

    /// A machine with a zeroed tape that reads from `input`.
    pub fn new(input: Vec<u8>) -> (r: Self)
        ensures
            r.inv(),
            r.state() == initial(input@),
    {
        let r = Interpreter {
            memory: vec![0u8; TAPE_LEN],
            ptr: 0,
            input,
            in_pos: 0,
            output: Vec::new(),
        };
        assert(r.memory@ =~= Seq::new(TAPE_LEN as nat, |i: int| 0u8));
        r
    }

    /// Runs `prog` on the current state; loops may iterate at most `fuel` times each.
    pub fn interpret(&mut self, prog: &Vec<Stmt>, fuel: u64) -> (r: Result<(), Halt>)
        requires
            old(self).inv(),
        ensures
            final(self).inv(),
            match run_seq(trees_of(prog@), 0, old(self).state(), fuel as nat) {
                Ok(s) => r is Ok && final(self).state() == s,
                Err(h) => r == Err::<(), Halt>(h),
            },
    {
        self.interpret_rec(prog, fuel)
    }

    /// Runs a flat program by following its jumps; at most `fuel` instructions are
    /// executed.
    pub fn execute(&mut self, prog: &Vec<Inst>, fuel: u64) -> (r: Result<(), Halt>)
        requires
            old(self).inv(),
        ensures
            final(self).inv(),
            match run_flat(prog@, 0, old(self).state(), fuel as nat) {
                Ok(s) => r is Ok && final(self).state() == s,
                Err(h) => r == Err::<(), Halt>(h),
            },
    {
        let ghost goal = run_flat(prog@, 0, self.state(), fuel as nat);
        let mut pc: usize = 0;
        let mut f: u64 = fuel;
        while pc < prog.len()
            invariant
                self.inv(),
                goal == run_flat(prog@, 0, old(self).state(), fuel as nat),
                goal == run_flat(prog@, pc as int, self.state(), f as nat),
            decreases f,
        {
            let ghost before = self.state();
            if f == 0 {
                return Err(Halt::OutOfFuel);
            }
            assert(goal == match flat_step(prog@, pc as int, before) {
                Ok((pc2, s2)) => run_flat(prog@, pc2, s2, (f - 1) as nat),
                Err(h) => Err(h),
            });
            match prog[pc] {
                Inst::LoopStart(t) => {
                    if self.ptr >= self.memory.len() {
                        return Err(Halt::OffTape);
                    }
                    if self.memory[self.ptr] == 0 {
                        pc = t;
                    } else {
                        pc = pc + 1;
                    }
                },
                Inst::LoopEnd(t) => {
                    if self.ptr >= self.memory.len() {
                        return Err(Halt::OffTape);
                    }
                    if self.memory[self.ptr] != 0 {
                        pc = t;
                    } else {
                        pc = pc + 1;
                    }
                },
                Inst::PtrInc(n) => {
                    self.ptr = self.ptr.wrapping_add_signed(n as isize);
                    pc = pc + 1;
                },
                Inst::ValInc(n) => {
                    if self.ptr >= self.memory.len() {
                        return Err(Halt::OffTape);
                    }
                    let c = self.memory[self.ptr];
                    let v = add_wrapping(c, n);
                    self.memory.set(self.ptr, v);
                    pc = pc + 1;
                },
                Inst::Output => {
                    if self.ptr >= self.memory.len() {
                        return Err(Halt::OffTape);
                    }
                    let c = self.memory[self.ptr];
                    self.output.push(c);
                    pc = pc + 1;
                },
                Inst::Input => {
                    if self.ptr >= self.memory.len() {
                        return Err(Halt::OffTape);
                    }
                    let v: u8 = if self.in_pos < self.input.len() {
                        let b = self.input[self.in_pos];
                        self.in_pos = self.in_pos + 1;
                        b
                    } else {
                        0
                    };
                    self.memory.set(self.ptr, v);
                    assert(self.state().tape =~= before.tape.update(
                        before.ptr as int,
                        next_input(before),
                    ));
                    pc = pc + 1;
                },
            }
            f = f - 1;
        }
        Ok(())
    }

    fn interpret_rec(&mut self, prog: &Vec<Stmt>, fuel: u64) -> (r: Result<(), Halt>)
        requires
            old(self).inv(),
        ensures
            final(self).inv(),
            match run_seq(trees_of(prog@), 0, old(self).state(), fuel as nat) {
                Ok(s) => r is Ok && final(self).state() == s,
                Err(h) => r == Err::<(), Halt>(h),
            },
        decreases fuel,
    {
        let ghost p = trees_of(prog@);
        let ghost goal = run_seq(p, 0, self.state(), fuel as nat);
        proof {
            lemma_trees_of(prog@);
        }
        let mut i: usize = 0;
        while i < prog.len()
            invariant
                p == trees_of(prog@),
                p.len() == prog@.len(),
                forall|k: int| 0 <= k < prog@.len() ==> #[trigger] p[k] == tree_of(prog@[k]),
                i <= prog@.len(),
                self.inv(),
                goal == run_seq(p, 0, old(self).state(), fuel as nat),
                goal == run_seq(p, i as int, self.state(), fuel as nat),
            decreases prog@.len() - i,
        {
            let ghost before = self.state();
            assert(goal == match run_stmt(p[i as int], before, fuel as nat) {
                Ok(s2) => run_seq(p, i + 1, s2, fuel as nat),
                Err(h) => Err(h),
            });
            match &prog[i] {
                Stmt::PtrInc(n) => {
                    assert(p[i as int] == Tree::PtrInc(*n));
                    self.ptr = self.ptr.wrapping_add_signed(*n as isize);
                    assert(run_stmt(p[i as int], before, fuel as nat) == Ok::<Machine, Halt>(self.state()));
                },
                Stmt::ValInc(n) => {
                    assert(p[i as int] == Tree::ValInc(*n));
                    if self.ptr >= self.memory.len() {
                        assert(run_stmt(p[i as int], before, fuel as nat) == Err::<Machine, Halt>(Halt::OffTape));
                        return Err(Halt::OffTape);
                    }
                    let c = self.memory[self.ptr];
                    let v = add_wrapping(c, *n);
                    self.memory.set(self.ptr, v);
                    assert(run_stmt(p[i as int], before, fuel as nat) == Ok::<Machine, Halt>(self.state()));
                },
                Stmt::Loop(body) => {
                    let ghost lp = Tree::Loop(trees_of(body@));
                    assert(p[i as int] == lp);
                    let mut f: u64 = fuel;
                    loop
                        invariant
                            f <= fuel,
                            self.inv(),
                            lp == Tree::Loop(trees_of(body@)),
                            p == trees_of(prog@),
                            goal == run_seq(p, 0, old(self).state(), fuel as nat),
                            goal == match run_stmt(lp, before, fuel as nat) {
                                Ok(s2) => run_seq(p, i + 1, s2, fuel as nat),
                                Err(h) => Err(h),
                            },
                            run_stmt(lp, before, fuel as nat) == run_stmt(
                                lp,
                                self.state(),
                                f as nat,
                            ),
                        ensures
                            self.inv(),
                            run_stmt(lp, before, fuel as nat) == Ok::<Machine, Halt>(
                                self.state(),
                            ),
                        decreases f,
                    {
                        let ghost cur = self.state();
                        if self.ptr >= self.memory.len() {
                            assert(run_stmt(lp, cur, f as nat) == Err::<Machine, Halt>(Halt::OffTape));
                            return Err(Halt::OffTape);
                        }
                        if self.memory[self.ptr] == 0 {
                            assert(run_stmt(lp, cur, f as nat) == Ok::<Machine, Halt>(cur));
                            break ;
                        }
                        if f == 0 {
                            assert(run_stmt(lp, cur, f as nat) == Err::<Machine, Halt>(Halt::OutOfFuel));
                            return Err(Halt::OutOfFuel);
                        }
                        assert(run_stmt(lp, cur, f as nat) == match run_seq(trees_of(body@), 0, cur, (f - 1) as nat) {
                            Ok(s2) => run_stmt(lp, s2, (f - 1) as nat),
                            Err(h) => Err(h),
                        });
                        match self.interpret_rec(body, f - 1) {
                            Err(h) => {
                                return Err(h);
                            },
                            Ok(()) => {},
                        }
                        f = f - 1;
                    }
                },
                Stmt::Output => {
                    assert(p[i as int] == Tree::Output);
                    if self.ptr >= self.memory.len() {
                        assert(run_stmt(p[i as int], before, fuel as nat) == Err::<Machine, Halt>(Halt::OffTape));
                        return Err(Halt::OffTape);
                    }
                    let c = self.memory[self.ptr];
                    self.output.push(c);
                    assert(run_stmt(p[i as int], before, fuel as nat) == Ok::<Machine, Halt>(self.state()));
                },
                Stmt::Input => {
                    assert(p[i as int] == Tree::Input);
                    if self.ptr >= self.memory.len() {
                        assert(run_stmt(p[i as int], before, fuel as nat) == Err::<Machine, Halt>(Halt::OffTape));
                        return Err(Halt::OffTape);
                    }
                    let v: u8 = if self.in_pos < self.input.len() {
                        let b = self.input[self.in_pos];
                        self.in_pos = self.in_pos + 1;
                        b
                    } else {
                        0
                    };
                    self.memory.set(self.ptr, v);
                    assert(self.state().tape =~= before.tape.update(before.ptr as int, next_input(before)));
                    assert(run_stmt(p[i as int], before, fuel as nat) == Ok::<Machine, Halt>(self.state()));
                },
            }
            i = i + 1;
        }
        Ok(())
    }
}

/// `c` plus `n`, modulo 256.
pub fn add_wrapping(c: u8, n: i32) -> (r: u8)
    ensures
        r == add8(c, n),
{
    let x: i64 = c as i64 + n as i64 + 0x1_0000_0000i64;
    proof {
        vstd::arithmetic::div_mod::lemma_mod_multiples_vanish(0x100_0000, c + n, 256);
    }
    (x % 256) as u8
}

} // verus!
