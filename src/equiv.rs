use vstd::prelude::*;

use crate::inst::{
    CLOSE, Inst, OPEN, assemble, count, end_paired, jumps_paired, lemma_nested_source_pairs_jumps,
    loops_nest, partner, prefix_balanced, start_paired,
};
use crate::interp::{Machine, Halt, flat_step, initial, inst_tree, run, run_flat, run_seq, run_stmt};
use crate::stmt::{Tree, build, build_from, lemma_build_from_advances};

verus! {

/// At most `n` steps of a flat program from `pc`, stopping early once `pc` leaves the
/// program: the `pc` and state reached.
pub open spec fn flat_exec(p: Seq<Inst>, pc: int, s: Machine, n: nat) -> Result<(int, Machine), Halt>
    decreases n,
{
    if n == 0 || pc < 0 || pc >= p.len() {
        Ok((pc, s))
    } else {
        match flat_step(p, pc, s) {
            Ok((pc2, s2)) => flat_exec(p, pc2, s2, (n - 1) as nat),
            Err(h) => Err(h),
        }
    }
}

/// The builder closes the loop opened at `k` with a `LoopEnd` that jumps back just past
/// `k`, and the `LoopStart` at `k` jumps just past that `LoopEnd`.
pub open spec fn loop_matched(p: Seq<Inst>, k: int) -> bool {
    let b = build_from(p, k + 1);
    &&& b.2
    &&& p[k]->LoopStart_0 as int == b.1
    &&& p[b.1 - 1] == Inst::LoopEnd((k + 1) as usize)
}

/// The jump targets of `p` agree with the loops the builder finds, and no `LoopEnd`
/// stands at the top level.
pub open spec fn structured(p: Seq<Inst>) -> bool {
    &&& forall|k: int| 0 <= k < p.len() && (#[trigger] p[k]) is LoopStart ==> loop_matched(p, k)
    &&& !build_from(p, 0).2
}

/// Where the flat program is when the statements built from index `i` are done: at the
/// `LoopEnd` that closed them, or at the end of the program.
pub open spec fn seg_end(p: Seq<Inst>, i: int) -> int {
    if build_from(p, i).2 {
        build_from(p, i).1 - 1
    } else {
        p.len() as int
    }
}

proof fn lemma_flat_exec_compose(p: Seq<Inst>, pc: int, s: Machine, a: nat, b: nat)
    requires
        flat_exec(p, pc, s, a) is Ok,
    ensures
        flat_exec(p, pc, s, a + b) == flat_exec(
            p,
            flat_exec(p, pc, s, a)->Ok_0.0,
            flat_exec(p, pc, s, a)->Ok_0.1,
            b,
        ),
    decreases a,
{
    if a > 0 && 0 <= pc < p.len() {
        match flat_step(p, pc, s) {
            Ok((pc2, s2)) => {
                lemma_flat_exec_compose(p, pc2, s2, (a - 1) as nat, b);
                assert((a + b - 1) as nat == (a - 1) as nat + b);
            },
            Err(_) => {},
        }
    }
}

proof fn lemma_flat_exec_finishes(p: Seq<Inst>, pc: int, s: Machine, n: nat, m: Machine)
    requires
        flat_exec(p, pc, s, n) == Ok::<(int, Machine), Halt>((p.len() as int, m)),
    ensures
        run_flat(p, pc, s, n) == Ok::<Machine, Halt>(m),
    decreases n,
{
    if n > 0 && 0 <= pc < p.len() {
        match flat_step(p, pc, s) {
            Ok((pc2, s2)) => {
                lemma_flat_exec_finishes(p, pc2, s2, (n - 1) as nat, m);
            },
            Err(_) => {},
        }
    }
}

proof fn lemma_run_seq_cons(x: Tree, rest: Seq<Tree>, k: int, s: Machine, fuel: nat)
    requires
        0 <= k,
    ensures
        run_seq(seq![x] + rest, k + 1, s, fuel) == run_seq(rest, k, s, fuel),
    decreases rest.len() - k,
{
    if k < rest.len() {
        assert((seq![x] + rest)[k + 1] == rest[k]);
        match run_stmt(rest[k], s, fuel) {
            Ok(s2) => {
                lemma_run_seq_cons(x, rest, k + 1, s2, fuel);
            },
            Err(_) => {},
        }
    }
}

proof fn lemma_seg(p: Seq<Inst>, i: int, s: Machine, fuel: nat) -> (n: nat)
    requires
        structured(p),
        0 <= i <= p.len(),
        run_seq(build_from(p, i).0, 0, s, fuel) is Ok,
    ensures
        flat_exec(p, i, s, n) == Ok::<(int, Machine), Halt>(
            (seg_end(p, i), run_seq(build_from(p, i).0, 0, s, fuel)->Ok_0),
        ),
    decreases fuel, p.len() - i, 1int,
{
    if i == p.len() {
        0
    } else {
        match p[i] {
            Inst::LoopEnd(_) => 0,
            Inst::LoopStart(_) => {
                let (body, j, _) = build_from(p, i + 1);
                assert(loop_matched(p, i));
                lemma_build_from_advances(p, i + 1);
                assert(i + 1 < j <= p.len());
                let (rest, k, c) = build_from(p, j);
                let ts = build_from(p, i).0;
                assert(ts == seq![Tree::Loop(body)] + rest);
                let s2 = run_stmt(Tree::Loop(body), s, fuel)->Ok_0;
                lemma_run_seq_cons(Tree::Loop(body), rest, 0, s2, fuel);
                let n1 = lemma_loop(p, i, i, s, fuel);
                let n2 = lemma_seg(p, j, s2, fuel);
                lemma_flat_exec_compose(p, i, s, n1, n2);
                n1 + n2
            },
            other => {
                let t = inst_tree(other);
                let (rest, k, c) = build_from(p, i + 1);
                let ts = build_from(p, i).0;
                assert(ts == seq![t] + rest);
                let s2 = run_stmt(t, s, fuel)->Ok_0;
                assert(run_stmt(t, s, 0) == run_stmt(t, s, fuel));
                lemma_run_seq_cons(t, rest, 0, s2, fuel);
                let n2 = lemma_seg(p, i + 1, s2, fuel);
                assert(flat_exec(p, i + 1, s2, 0) == Ok::<(int, Machine), Halt>((i + 1, s2)));
                lemma_flat_exec_compose(p, i, s, 1, n2);
                1 + n2
            },
        }
    }
}

proof fn lemma_loop(p: Seq<Inst>, k: int, pc: int, s: Machine, fuel: nat) -> (n: nat)
    requires
        structured(p),
        0 <= k < p.len(),
        p[k] is LoopStart,
        pc == k || pc == build_from(p, k + 1).1 - 1,
        run_stmt(Tree::Loop(build_from(p, k + 1).0), s, fuel) is Ok,
    ensures
        flat_exec(p, pc, s, n) == Ok::<(int, Machine), Halt>(
            (
                build_from(p, k + 1).1,
                run_stmt(Tree::Loop(build_from(p, k + 1).0), s, fuel)->Ok_0,
            ),
        ),
    decreases fuel, p.len() - k, 0int,
{
    let (body, j, _) = build_from(p, k + 1);
    assert(loop_matched(p, k));
    lemma_build_from_advances(p, k + 1);
    assert(k + 1 < j <= p.len());
    let lp = Tree::Loop(body);
    if s.tape[s.ptr as int] == 0 {
        assert(flat_exec(p, j, s, 0) == Ok::<(int, Machine), Halt>((j, s)));
        1
    } else {
        let s1 = run_seq(body, 0, s, (fuel - 1) as nat)->Ok_0;
        assert(flat_exec(p, pc, s, 1) == flat_exec(p, k + 1, s, 0));
        let n1 = lemma_seg(p, k + 1, s, (fuel - 1) as nat);
        let n2 = lemma_loop(p, k, j - 1, s1, (fuel - 1) as nat);
        lemma_flat_exec_compose(p, pc, s, 1, n1);
        lemma_flat_exec_compose(p, pc, s, 1 + n1, n2);
        1 + n1 + n2
    }
}

proof fn lemma_seg_back(p: Seq<Inst>, i: int, s: Machine, n: nat, fuel: nat) -> (r: (Machine, nat))
    requires
        structured(p),
        0 <= i <= p.len(),
        run_flat(p, i, s, n) is Ok,
        fuel >= n,
    ensures
        r.1 <= n,
        run_seq(build_from(p, i).0, 0, s, fuel) == Ok::<Machine, Halt>(r.0),
        run_flat(p, seg_end(p, i), r.0, r.1) == run_flat(p, i, s, n),
    decreases n, 1int,
{
    if i == p.len() {
        (s, n)
    } else {
        match p[i] {
            Inst::LoopEnd(_) => (s, n),
            Inst::LoopStart(_) => {
                let (body, j, _) = build_from(p, i + 1);
                assert(loop_matched(p, i));
                lemma_build_from_advances(p, i + 1);
                let (rest, k, c) = build_from(p, j);
                assert(build_from(p, i).0 == seq![Tree::Loop(body)] + rest);
                let (s1, n1) = lemma_loop_back(p, i, i, s, n, fuel);
                let (s2, n2) = lemma_seg_back(p, j, s1, n1, fuel);
                lemma_run_seq_cons(Tree::Loop(body), rest, 0, s1, fuel);
                (s2, n2)
            },
            other => {
                let t = inst_tree(other);
                let (rest, k, c) = build_from(p, i + 1);
                assert(build_from(p, i).0 == seq![t] + rest);
                let s1 = run_stmt(t, s, 0)->Ok_0;
                assert(run_stmt(t, s, 0) == run_stmt(t, s, fuel));
                let (s2, n2) = lemma_seg_back(p, i + 1, s1, (n - 1) as nat, fuel);
                lemma_run_seq_cons(t, rest, 0, s1, fuel);
                (s2, n2)
            },
        }
    }
}

proof fn lemma_loop_back(p: Seq<Inst>, k: int, pc: int, s: Machine, n: nat, fuel: nat) -> (r: (
    Machine,
    nat,
))
    requires
        structured(p),
        0 <= k < p.len(),
        p[k] is LoopStart,
        pc == k || pc == build_from(p, k + 1).1 - 1,
        run_flat(p, pc, s, n) is Ok,
        fuel >= n,
    ensures
        r.1 < n,
        run_stmt(Tree::Loop(build_from(p, k + 1).0), s, fuel) == Ok::<Machine, Halt>(r.0),
        run_flat(p, build_from(p, k + 1).1, r.0, r.1) == run_flat(p, pc, s, n),
    decreases n, 0int,
{
    let (body, j, _) = build_from(p, k + 1);
    assert(loop_matched(p, k));
    lemma_build_from_advances(p, k + 1);
    if s.tape[s.ptr as int] == 0 {
        (s, (n - 1) as nat)
    } else {
        let (s1, n1) = lemma_seg_back(p, k + 1, s, (n - 1) as nat, (fuel - 1) as nat);
        let (s2, n2) = lemma_loop_back(p, k, j - 1, s1, n1, (fuel - 1) as nat);
        (s2, n2)
    }
}

/// When the jump targets of a flat program agree with the loops the builder finds, any
/// run of the flat program that finishes is matched by a run of the built tree, with
/// as much fuel as the flat run had, that finishes with the same output, tape and
/// cursor.
pub proof fn lemma_flat_run_is_tree_run(p: Seq<Inst>, input: Seq<u8>, n: nat)
    requires
        structured(p),
        run_flat(p, 0, initial(input), n) is Ok,
    ensures
        run(build(p), input, n) == run_flat(p, 0, initial(input), n),
{
    let (m, n1) = lemma_seg_back(p, 0, initial(input), n, n);
}

/// Every loop instruction in `p[i..e)` has its partner in `p[i..e)`.
pub open spec fn contained(p: Seq<Inst>, i: int, e: int) -> bool {
    forall|x: int|
        i <= x < e && ((#[trigger] p[x]) is LoopStart || p[x] is LoopEnd) ==> i <= partner(p, x) < e
}

proof fn lemma_inner_contained(p: Seq<Inst>, a: int)
    requires
        jumps_paired(p),
        loops_nest(p),
        0 <= a < p.len(),
        p[a] is LoopStart,
    ensures
        contained(p, a + 1, partner(p, a)),
{
    let q = partner(p, a);
    assert(start_paired(p, a));
    assert forall|x: int|
        a + 1 <= x < q && ((#[trigger] p[x]) is LoopStart || p[x] is LoopEnd) implies a + 1 <= partner(p, x) < q by {
        if p[x] is LoopStart {
            assert(start_paired(p, x));
        } else {
            assert(end_paired(p, x));
            let y = partner(p, x);
            assert(p[y] is LoopStart);
            assert(start_paired(p, y));
            assert(partner(p, y) == x);
            if y < a {
                assert(partner(p, a) < partner(p, y));
            }
        }
    }
}

proof fn lemma_rest_contained(p: Seq<Inst>, i: int, e: int)
    requires
        jumps_paired(p),
        loops_nest(p),
        0 <= i < e <= p.len(),
        p.len() < usize::MAX,
        p[i] is LoopStart,
        contained(p, i, e),
    ensures
        contained(p, partner(p, i) + 1, e),
{
    let q = partner(p, i);
    assert(start_paired(p, i));
    assert forall|x: int|
        q + 1 <= x < e && ((#[trigger] p[x]) is LoopStart || p[x] is LoopEnd) implies q + 1 <= partner(p, x) < e by {
        assert(i <= partner(p, x) < e);
        if p[x] is LoopStart {
            assert(start_paired(p, x));
        } else {
            assert(end_paired(p, x));
            let y = partner(p, x);
            assert(p[y] is LoopStart);
            assert(start_paired(p, y));
            assert(partner(p, y) == x);
            if i < y && y < q {
                assert(partner(p, y) < partner(p, i));
            }
        }
    }
}

proof fn lemma_build_contained(p: Seq<Inst>, i: int, e: int)
    requires
        jumps_paired(p),
        loops_nest(p),
        0 <= i <= e <= p.len(),
        p.len() < usize::MAX,
        contained(p, i, e),
        e == p.len() || p[e] is LoopEnd,
    ensures
        build_from(p, i).1 == (if e < p.len() {
            e + 1
        } else {
            p.len() as int
        }),
        build_from(p, i).2 == (e < p.len()),
    decreases e - i,
{
    if i < e {
        match p[i] {
            Inst::LoopEnd(_) => {
                assert(end_paired(p, i));
            },
            Inst::LoopStart(_) => {
                let q = partner(p, i);
                assert(start_paired(p, i));
                lemma_inner_contained(p, i);
                lemma_build_from_contained_inner(p, i);
                lemma_rest_contained(p, i, e);
                lemma_build_contained(p, q + 1, e);
            },
            _ => {
                assert forall|x: int|
                    i + 1 <= x < e && ((#[trigger] p[x]) is LoopStart || p[x] is LoopEnd) implies i + 1
                    <= partner(p, x) < e by {
                    assert(i <= partner(p, x));
                    if p[x] is LoopStart {
                        assert(start_paired(p, x));
                    } else {
                        assert(end_paired(p, x));
                    }
                }
                lemma_build_contained(p, i + 1, e);
            },
        }
    }
}

proof fn lemma_build_from_contained_inner(p: Seq<Inst>, k: int)
    requires
        jumps_paired(p),
        loops_nest(p),
        0 <= k < p.len(),
        p.len() < usize::MAX,
        p[k] is LoopStart,
    ensures
        build_from(p, k + 1).1 == partner(p, k) + 1,
        build_from(p, k + 1).2,
    decreases partner(p, k) - k, 0int,
{
    assert(start_paired(p, k));
    lemma_inner_contained(p, k);
    lemma_build_contained(p, k + 1, partner(p, k));
}

/// The output of the assembler on a properly nested source is structured.
proof fn lemma_assembled_is_structured(src: Seq<u8>)
    requires
        src.len() < usize::MAX,
        prefix_balanced(src),
        count(src, OPEN) == count(src, CLOSE),
    ensures
        assemble(src) is Ok,
        structured(assemble(src)->Ok_0),
{
    lemma_nested_source_pairs_jumps(src);
    let p = assemble(src)->Ok_0;
    assert forall|k: int| 0 <= k < p.len() && (#[trigger] p[k]) is LoopStart implies loop_matched(p, k) by {
        lemma_build_from_contained_inner(p, k);
        assert(start_paired(p, k));
    }
    assert forall|x: int|
        0 <= x < p.len() && ((#[trigger] p[x]) is LoopStart || p[x] is LoopEnd) implies 0 <= partner(p, x) < p.len() by {
        if p[x] is LoopStart {
            assert(start_paired(p, x));
        } else {
            assert(end_paired(p, x));
        }
    }
    lemma_build_contained(p, 0, p.len() as int);
}

/// Round trip, one way: for a properly nested source, every run of the tree built from
/// the assembled program that finishes is matched by a run of the assembled flat
/// program, following its jumps, that finishes with the same output, tape and cursor.
pub proof fn lemma_round_trip(src: Seq<u8>, input: Seq<u8>, fuel: nat) -> (n: nat)
    requires
        src.len() < usize::MAX,
        prefix_balanced(src),
        count(src, OPEN) == count(src, CLOSE),
        run(build(assemble(src)->Ok_0), input, fuel) is Ok,
    ensures
        assemble(src) is Ok,
        run_flat(assemble(src)->Ok_0, 0, initial(input), n) == run(
            build(assemble(src)->Ok_0),
            input,
            fuel,
        ),
{
    lemma_assembled_is_structured(src);
    lemma_tree_run_is_flat_run(assemble(src)->Ok_0, input, fuel)
}

/// Round trip, the other way: for a properly nested source, every run of the assembled
/// flat program that finishes is matched by a run of the tree built from it, with the
/// same fuel, that finishes with the same output, tape and cursor.
pub proof fn lemma_round_trip_back(src: Seq<u8>, input: Seq<u8>, n: nat)
    requires
        src.len() < usize::MAX,
        prefix_balanced(src),
        count(src, OPEN) == count(src, CLOSE),
        run_flat(assemble(src)->Ok_0, 0, initial(input), n) is Ok,
    ensures
        assemble(src) is Ok,
        run(build(assemble(src)->Ok_0), input, n) == run_flat(
            assemble(src)->Ok_0,
            0,
            initial(input),
            n,
        ),
{
    lemma_assembled_is_structured(src);
    lemma_flat_run_is_tree_run(assemble(src)->Ok_0, input, n);
}

/// When the jump targets of a flat program agree with the loops the builder finds, any
/// run of the built tree that finishes is matched by a run of the flat program, with
/// enough steps, that finishes with the same output, tape and cursor.
pub proof fn lemma_tree_run_is_flat_run(p: Seq<Inst>, input: Seq<u8>, fuel: nat) -> (n: nat)
    requires
        structured(p),
        run(build(p), input, fuel) is Ok,
    ensures
        run_flat(p, 0, initial(input), n) == run(build(p), input, fuel),
{
    let n = lemma_seg(p, 0, initial(input), fuel);
    lemma_flat_exec_finishes(p, 0, initial(input), n, run(build(p), input, fuel)->Ok_0);
    n
}

} // verus!
