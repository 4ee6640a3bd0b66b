use std::collections::BTreeMap;
use vstd::prelude::*;
use vstd::wrapping::i32_specs;

use crate::interp::run;
use crate::stmt::{Stmt, Tree, tree_of, trees_of, lemma_trees_of};

verus! {

/// 32-bit wrapping addition.
pub open spec fn wadd(a: i32, b: i32) -> i32 {
    i32_specs::wrapping_add(a, b)
}

pub proof fn lemma_wadd_assoc(a: i32, b: i32, c: i32)
    ensures
        wadd(wadd(a, b), c) == wadd(a, wadd(b, c)),
{
}

/// A symbolic value computed while executing a loop body abstractly.
#[derive(Debug)]
pub enum SymExVal {
    /// A literal.
    Const(i32),
    /// The value of the cell at a relative offset, not reducible to a constant.
    Cell(i32),
    /// The 32-bit wrapping sum of two values.
    Add(Box<SymExVal>, Box<SymExVal>),
}

/// The value of `v` when each cell offset `o` holds `env(o)`.
pub open spec fn eval(v: SymExVal, env: spec_fn(i32) -> i32) -> i32
    decreases v,
{
    match v {
        SymExVal::Const(c) => c,
        SymExVal::Cell(o) => env(o),
        SymExVal::Add(l, r) => wadd(eval(*l, env), eval(*r, env)),
    }
}

/// `v` mentions no cell.
pub open spec fn closed(v: SymExVal) -> bool
    decreases v,
{
    match v {
        SymExVal::Const(_) => true,
        SymExVal::Cell(_) => false,
        SymExVal::Add(l, r) => closed(*l) && closed(*r),
    }
}

/// What simplifying `v` yields: both operands of a sum are simplified first; two
/// constants fold into one; a sum whose left operand already ends in a constant takes a
/// right-hand constant into that constant; anything else stays a sum.
pub open spec fn simp(v: SymExVal) -> SymExVal
    decreases v,
{
    match v {
        SymExVal::Add(l, r) => {
            let a = simp(*l);
            let b = simp(*r);
            match a {
                SymExVal::Const(lv) => match b {
                    SymExVal::Const(rv) => SymExVal::Const(wadd(lv, rv)),
                    _ => SymExVal::Add(Box::new(a), Box::new(b)),
                },
                SymExVal::Add(ll, lr) => match b {
                    SymExVal::Const(rv) => match *lr {
                        SymExVal::Const(lv) => SymExVal::Add(ll, Box::new(SymExVal::Const(wadd(lv, rv)))),
                        _ => SymExVal::Add(Box::new(a), Box::new(b)),
                    },
                    _ => SymExVal::Add(Box::new(a), Box::new(b)),
                },
                _ => SymExVal::Add(Box::new(a), Box::new(b)),
            }
        },
        _ => v,
    }
}

/// `v` is in the form that simplification produces: no sum of two constants, and no sum
/// of a constant onto a sum that ends in a constant.
pub open spec fn normal(v: SymExVal) -> bool
    decreases v,
{
    match v {
        SymExVal::Add(l, r) => {
            &&& normal(*l)
            &&& normal(*r)
            &&& !(*l is Const && *r is Const)
            &&& !(*r is Const && match *l {
                SymExVal::Add(_, lr) => *lr is Const,
                _ => false,
            })
        },
        _ => true,
    }
}

/// Simplification yields a normal form.
pub proof fn lemma_simp_normal(v: SymExVal)
    ensures
        normal(simp(v)),
    decreases v,
{
    match v {
        SymExVal::Add(l, r) => {
            lemma_simp_normal(*l);
            lemma_simp_normal(*r);
            reveal_with_fuel(normal, 3);
        },
        _ => {},
    }
}

/// A normal form is left as it is.
pub proof fn lemma_normal_fixed(v: SymExVal)
    requires
        normal(v),
    ensures
        simp(v) == v,
    decreases v,
{
    match v {
        SymExVal::Add(l, r) => {
            lemma_normal_fixed(*l);
            lemma_normal_fixed(*r);
            reveal_with_fuel(normal, 3);
        },
        _ => {},
    }
}

/// Simplifying twice gives what simplifying once gives.
pub proof fn lemma_simp_idempotent(v: SymExVal)
    ensures
        simp(simp(v)) == simp(v),
{
    lemma_simp_normal(v);
    lemma_normal_fixed(simp(v));
}

impl SymExVal {
    pub fn is_const(&self) -> (r: bool)
        ensures
            r == (*self is Const),
    {
        match self {
            SymExVal::Const(_) => true,
            _ => false,
        }
    }

    pub fn const_val(&self) -> (r: Option<i32>)
        ensures
            r == (match *self {
                SymExVal::Const(v) => Some(v),
                _ => None,
            }),
    {
        match self {
            SymExVal::Const(v) => Some(*v),
            _ => None,
        }
    }

    /// Folds constant sums: the result is `simp(self)`, it has the same value in every
    /// environment, and a value without cells becomes a single constant.
    pub fn simplify(self) -> (r: Self)
        ensures
            r == simp(self),
            forall|env: spec_fn(i32) -> i32| #[trigger] eval(r, env) == eval(self, env),
            closed(self) ==> r is Const,
        decreases self,
    {
        let ghost orig = self;
        match self {
            SymExVal::Add(lhs, rhs) => {
                let l = (*lhs).simplify();
                let r = (*rhs).simplify();
                let ghost gl = l;
                let ghost gr = r;
                proof {
                    assert forall|env: spec_fn(i32) -> i32|
                        #[trigger] eval(orig, env) == wadd(eval(gl, env), eval(gr, env)) by {}
                }
                match l {
                    SymExVal::Const(lv) => match r {
                        SymExVal::Const(rv) => SymExVal::Const(lv.wrapping_add(rv)),
                        r => SymExVal::Add(Box::new(SymExVal::Const(lv)), Box::new(r)),
                    },
                    SymExVal::Add(ll, lr) => match r {
                        // the sum's right operand is folded into the left one's constant
                        SymExVal::Const(rv) => match *lr {
                            SymExVal::Const(lv) => {
                                let ghost res = SymExVal::Add(
                                    ll,
                                    Box::new(SymExVal::Const(wadd(lv, rv))),
                                );
                                proof {
                                    assert forall|env: spec_fn(i32) -> i32|
                                        #[trigger] eval(res, env) == eval(orig, env) by {
                                        assert(eval(SymExVal::Const(wadd(lv, rv)), env) == wadd(
                                            lv,
                                            rv,
                                        ));
                                        assert(eval(SymExVal::Const(lv), env) == lv);
                                        assert(eval(SymExVal::Const(rv), env) == rv);
                                        assert(eval(gl, env) == wadd(eval(*ll, env), lv));
                                        lemma_wadd_assoc(eval(*ll, env), lv, rv);
                                    }
                                }
                                SymExVal::Add(ll, Box::new(SymExVal::Const(lv.wrapping_add(rv))))
                            },
                            other => SymExVal::Add(
                                Box::new(SymExVal::Add(ll, Box::new(other))),
                                Box::new(SymExVal::Const(rv)),
                            ),
                        },
                        r => SymExVal::Add(Box::new(SymExVal::Add(ll, lr)), Box::new(r)),
                    },
                    l => SymExVal::Add(Box::new(l), Box::new(r)),
                }
            },
            v => v,
        }
    }

    /// The simplified sum of two values.
    pub fn plus(self, rhs: Self) -> (r: Self)
        ensures
            forall|env: spec_fn(i32) -> i32|
                #[trigger] eval(r, env) == wadd(eval(self, env), eval(rhs, env)),
            closed(self) && closed(rhs) ==> r is Const,
            r == simp(SymExVal::Add(Box::new(self), Box::new(rhs))),
    {
        let sum = SymExVal::Add(Box::new(self), Box::new(rhs));
        assert forall|env: spec_fn(i32) -> i32|
            #[trigger] eval(sum, env) == wadd(eval(self, env), eval(rhs, env)) by {}
        sum.simplify()
    }
}

/// A statement that symbolic execution can follow: a cursor move or a cell adjustment.
pub open spec fn is_simple(t: Tree) -> bool {
    t is PtrInc || t is ValInc
}

/// Every one of the first `n` statements of `b` is simple.
pub open spec fn all_simple(b: Seq<Tree>, n: int) -> bool {
    forall|k: int| 0 <= k < n ==> #[trigger] is_simple(b[k])
}

/// The sum of the cursor moves among the first `n` statements of `b`: the cursor's
/// offset from loop entry after them.
pub open spec fn shift_sum(b: Seq<Tree>, n: int) -> int
    decreases n,
{
    if n <= 0 || n > b.len() {
        0
    } else {
        match b[n - 1] {
            Tree::PtrInc(d) => shift_sum(b, n - 1) + d,
            _ => shift_sum(b, n - 1),
        }
    }
}

/// The cursor's offset stays within `i32` over the first `n` statements of `b`.
pub open spec fn shift_fits(b: Seq<Tree>, n: int) -> bool {
    forall|j: int| 0 <= j <= n ==> i32::MIN <= #[trigger] shift_sum(b, j) <= i32::MAX
}

/// The first obstacle to executing `b` symbolically is a cursor offset leaving `i32`.
pub open spec fn overflow_first(b: Seq<Tree>) -> bool {
    exists|k: int|
        0 <= k < b.len() && all_simple(b, k) && shift_fits(b, k) && (#[trigger] b[k]) is PtrInc
            && !shift_fits(b, k + 1)
}

/// For each offset from loop entry that the first `n` statements of `b` adjust, the
/// wrapping sum of those adjustments.
pub open spec fn steps(b: Seq<Tree>, n: int) -> Map<i32, i32>
    decreases n,
{
    if n <= 0 || n > b.len() {
        Map::empty()
    } else {
        let m = steps(b, n - 1);
        match b[n - 1] {
            Tree::ValInc(d) => {
                let o = shift_sum(b, n - 1) as i32;
                m.insert(
                    o,
                    if m.contains_key(o) {
                        wadd(m[o], d)
                    } else {
                        d
                    },
                )
            },
            _ => m,
        }
    }
}

/// Why a loop body cannot be executed symbolically.
#[derive(Debug, Clone, Copy, PartialEq, Eq, Structural)]
pub enum Ineligible {
    /// The body holds a loop.
    NestedLoop,
    /// The body reads or writes.
    Impure,
    /// The cursor's offset from loop entry leaves the range of `i32`.
    ShiftOverflow,
}

/// The net effect of one iteration of a loop body.
#[derive(Debug)]
pub struct SymExInfo {
    pub ptr_delta: i32,
    pub memory_delta: BTreeMap<i32, SymExVal>,
}

/// Executes a loop body once, symbolically: the cursor's net displacement and, for each
/// offset adjusted, the net adjustment.
pub fn symbolic_execution(prog: &Vec<Stmt>) -> (r: Result<SymExInfo, Ineligible>)
    ensures
        ({
            let b = trees_of(prog@);
            match r {
                Ok(info) => {
                    &&& all_simple(b, b.len() as int)
                    &&& shift_fits(b, b.len() as int)
                    &&& info.ptr_delta == shift_sum(b, b.len() as int)
                    &&& info.memory_delta@.dom() == steps(b, b.len() as int).dom()
                    &&& forall|o: i32| #[trigger]
                        info.memory_delta@.contains_key(o) ==> info.memory_delta@[o]
                            == SymExVal::Const(steps(b, b.len() as int)[o])
                },
                Err(e) => exists|k: int|
                    0 <= k < b.len() && all_simple(b, k) && shift_fits(b, k) && ((!is_simple(
                        #[trigger] b[k],
                    ) && e != Ineligible::ShiftOverflow && (e == Ineligible::NestedLoop <==> b[k] is Loop))
                        || (b[k] is PtrInc && !shift_fits(b, k + 1) && e
                        == Ineligible::ShiftOverflow)),
            }
        }),
{
    broadcast use vstd::std_specs::btree::group_btree_axioms, vstd::laws_cmp::group_laws_cmp;

    let ghost b = trees_of(prog@);
    proof {
        lemma_trees_of(prog@);
    }
    let mut ptr_delta: i32 = 0;
    let mut memory_delta: BTreeMap<i32, SymExVal> = BTreeMap::new();
    let mut i: usize = 0;
    while i < prog.len()
        invariant
            b == trees_of(prog@),
            b.len() == prog@.len(),
            forall|k: int| 0 <= k < prog@.len() ==> #[trigger] b[k] == tree_of(prog@[k]),
            i <= prog@.len(),
            all_simple(b, i as int),
            shift_fits(b, i as int),
            ptr_delta == shift_sum(b, i as int),
            memory_delta@.dom() == steps(b, i as int).dom(),
            forall|o: i32| #[trigger]
                memory_delta@.contains_key(o) ==> memory_delta@[o] == SymExVal::Const(
                    steps(b, i as int)[o],
                ),
        decreases prog@.len() - i,
    {
        match &prog[i] {
            Stmt::PtrInc(n) => {
                match ptr_delta.checked_add(*n) {
                    Some(v) => {
                        ptr_delta = v;
                    },
                    None => {
                        assert(!(i32::MIN <= shift_sum(b, i + 1) <= i32::MAX));
                        return Err(Ineligible::ShiftOverflow);
                    },
                }
            },
            Stmt::ValInc(n) => {
                let ghost m = steps(b, i as int);
                match memory_delta.remove(&ptr_delta) {
                    Some(d) => {
                        let v = d.plus(SymExVal::Const(*n));
                        let ghost env = |o: i32| 0i32;
                        assert(eval(v, env) == wadd(m[ptr_delta], *n));
                        memory_delta.insert(ptr_delta, v);
                    },
                    None => {
                        memory_delta.insert(ptr_delta, SymExVal::Const(*n));
                    },
                }
                assert(memory_delta@.dom() =~= steps(b, i + 1).dom());
            },
            Stmt::Loop(_) => {
                return Err(Ineligible::NestedLoop);
            },
            _ => {
                return Err(Ineligible::Impure);
            },
        }
        i = i + 1;
    }
    Ok(SymExInfo { ptr_delta, memory_delta })
}

/// What the optimizer found a loop to be.
#[derive(Debug, Clone, Copy, PartialEq, Eq, Structural)]
pub enum LoopKind {
    /// The body holds a loop or does input or output.
    Ineligible,
    /// One iteration moves the cursor by a non-zero amount.
    Displacing,
    /// The loop's own cell changes by some other constant per iteration.
    Irregular,
    /// No net displacement, and the loop's own cell goes up by one per iteration, so the
    /// number of iterations is known on entry.
    Counted,
}

/// Why optimization stopped.
#[derive(Debug, Clone, Copy, PartialEq, Eq, Structural)]
pub enum OptError {
    /// A loop with no net displacement never changes its gate cell, so once entered it
    /// never ends.
    DivergentLoop,
}

/// How the optimizer classifies the loop with body `b`.
pub open spec fn loop_kind(b: Seq<Tree>) -> Result<LoopKind, OptError> {
    let n = b.len() as int;
    if overflow_first(b) {
        Ok(LoopKind::Displacing)
    } else if !all_simple(b, n) {
        Ok(LoopKind::Ineligible)
    } else if !shift_fits(b, n) || shift_sum(b, n) != 0 {
        Ok(LoopKind::Displacing)
    } else {
        let step = if steps(b, n).contains_key(0) {
            steps(b, n)[0]
        } else {
            0
        };
        if step == 0 {
            Err(OptError::DivergentLoop)
        } else if step == 1 {
            Ok(LoopKind::Counted)
        } else {
            Ok(LoopKind::Irregular)
        }
    }
}

/// Classifies one loop by executing its body symbolically.
pub fn optimize_loop(body: &Vec<Stmt>) -> (r: Result<LoopKind, OptError>)
    ensures
        r == loop_kind(trees_of(body@)),
{
    broadcast use vstd::std_specs::btree::group_btree_axioms, vstd::laws_cmp::group_laws_cmp;

    match symbolic_execution(body) {
        Ok(info) => {
            proof {
                let b = trees_of(body@);
                if overflow_first(b) {
                    let k = choose|k: int|
                        0 <= k < b.len() && all_simple(b, k) && shift_fits(b, k) && (
                        #[trigger] b[k]) is PtrInc && !shift_fits(b, k + 1);
                    assert forall|j: int| 0 <= j <= k + 1 implies i32::MIN <= #[trigger] shift_sum(b, j)
                        <= i32::MAX by {}
                }
            }
            if info.ptr_delta != 0 {
                return Ok(LoopKind::Displacing);
            }
            let step: i32 = match info.memory_delta.get(&0) {
                Some(v) => match v.const_val() {
                    Some(c) => c,
                    None => {
                        return Ok(LoopKind::Irregular);
                    },
                },
                None => 0,
            };
            if step == 0 {
                Err(OptError::DivergentLoop)
            } else if step == 1 {
                Ok(LoopKind::Counted)
            } else {
                Ok(LoopKind::Irregular)
            }
        },
        Err(Ineligible::ShiftOverflow) => Ok(LoopKind::Displacing),
        Err(_) => {
            proof {
                let b = trees_of(body@);
                if overflow_first(b) {
                    let k = choose|k: int|
                        0 <= k < b.len() && all_simple(b, k) && shift_fits(b, k) && (
                        #[trigger] b[k]) is PtrInc && !shift_fits(b, k + 1);
                    let k2 = choose|k2: int|
                        0 <= k2 < b.len() && all_simple(b, k2) && shift_fits(b, k2) && !is_simple(
                            #[trigger] b[k2],
                        );
                    if k < k2 {
                        assert(is_simple(b[k]));
                        assert forall|j: int| 0 <= j <= k + 1 implies i32::MIN <= #[trigger] shift_sum(b, j)
                            <= i32::MAX by {}
                    } else {
                        assert(is_simple(b[k2]) || k == k2);
                    }
                }
            }
            Ok(LoopKind::Ineligible)
        },
    }
}

/// `t` is a divergent loop or holds one at any depth.
pub open spec fn tree_divergent(t: Tree) -> bool
    decreases t,
{
    match t {
        Tree::Loop(b) => loop_kind(b) is Err || prefix_divergent(b, b.len() as int),
        _ => false,
    }
}

/// One of the first `n` trees of `s` is or holds a divergent loop.
pub open spec fn prefix_divergent(s: Seq<Tree>, n: int) -> bool
    decreases s, n,
{
    if n <= 0 || n > s.len() {
        false
    } else {
        prefix_divergent(s, n - 1) || tree_divergent(s[n - 1])
    }
}

/// Some loop of `p`, at any depth, is divergent.
pub open spec fn has_divergent_loop(p: Seq<Tree>) -> bool {
    prefix_divergent(p, p.len() as int)
}

proof fn lemma_prefix_divergent_mono(s: Seq<Tree>, m: int, n: int)
    requires
        0 < m <= n <= s.len(),
        prefix_divergent(s, m),
    ensures
        prefix_divergent(s, n),
    decreases n - m,
{
    if m < n {
        lemma_prefix_divergent_mono(s, m, n - 1);
    }
}

/// Classifies every loop of `prog`, at any depth; an error at the first divergent one.
fn check_loops(prog: &Vec<Stmt>) -> (r: Result<(), OptError>)
    ensures
        r is Err <==> has_divergent_loop(trees_of(prog@)),
        r is Err ==> r == Err::<(), OptError>(OptError::DivergentLoop),
    decreases prog,
{
    let ghost p = trees_of(prog@);
    proof {
        lemma_trees_of(prog@);
        assert(decreases_to!(*prog => prog@));
    }
    let mut i: usize = 0;
    while i < prog.len()
        invariant
            p == trees_of(prog@),
            p.len() == prog@.len(),
            forall|k: int| 0 <= k < prog@.len() ==> #[trigger] p[k] == tree_of(prog@[k]),
            decreases_to!(*prog => prog@),
            i <= prog@.len(),
            !prefix_divergent(p, i as int),
        decreases prog@.len() - i,
    {
        match &prog[i] {
            Stmt::Loop(body) => {
                proof {
                    assert(decreases_to!(prog@ => prog@[i as int]));
                }
                assert(p[i as int] == Tree::Loop(trees_of(body@)));
                let found = match optimize_loop(body) {
                    Err(_) => true,
                    Ok(_) => check_loops(body).is_err(),
                };
                if found {
                    proof {
                        assert(tree_divergent(p[i as int]));
                        lemma_prefix_divergent_mono(p, i + 1, p.len() as int);
                    }
                    return Err(OptError::DivergentLoop);
                }
                assert(!tree_divergent(p[i as int]));
            },
            _ => {
                assert(!(p[i as int] is Loop));
                assert(!tree_divergent(p[i as int]));
            },
        }
        assert(!prefix_divergent(p, i + 1));
        i = i + 1;
    }
    Ok(())
}

/// What optimizing the program `p` yields: an error if a loop at any depth is
/// divergent, and otherwise the program as it was.
pub open spec fn optimized(p: Seq<Tree>) -> Result<Seq<Tree>, OptError> {
    if has_divergent_loop(p) {
        Err(OptError::DivergentLoop)
    } else {
        Ok(p)
    }
}

/// Whatever program the optimizer emits behaves as its input did: for every input and
/// every fuel, running it gives the same outcome, output and final tape.
pub proof fn lemma_optimized_runs_alike(p: Seq<Tree>, input: Seq<u8>, fuel: nat)
    requires
        optimized(p) is Ok,
    ensures
        run(optimized(p)->Ok_0, input, fuel) == run(p, input, fuel),
{
}

/// A pure loop body without nested loops that leaves the cursor where it was and does
/// not change the loop's own cell in total is reported as divergent.
pub proof fn lemma_stuck_gate_is_divergent(b: Seq<Tree>)
    requires
        all_simple(b, b.len() as int),
        shift_fits(b, b.len() as int),
        shift_sum(b, b.len() as int) == 0,
        steps(b, b.len() as int).contains_key(0) ==> steps(b, b.len() as int)[0] == 0,
    ensures
        loop_kind(b) == Err::<LoopKind, OptError>(OptError::DivergentLoop),
{
    if overflow_first(b) {
        let k = choose|k: int|
            0 <= k < b.len() && all_simple(b, k) && shift_fits(b, k) && (#[trigger] b[k]) is PtrInc
                && !shift_fits(b, k + 1);
        assert forall|j: int| 0 <= j <= k + 1 implies i32::MIN <= #[trigger] shift_sum(b, j)
            <= i32::MAX by {}
    }
}

/// Classifies every loop, at any depth; a loop that cannot end once entered is an
/// error, and otherwise the program is kept as it is.
pub fn optimize(prog: Vec<Stmt>) -> (r: Result<Vec<Stmt>, OptError>)
    ensures
        r is Err <==> has_divergent_loop(trees_of(prog@)),
        match r {
            Ok(v) => optimized(trees_of(prog@)) == Ok::<Seq<Tree>, OptError>(trees_of(v@)),
            Err(e) => optimized(trees_of(prog@)) == Err::<Seq<Tree>, OptError>(e),
        },
        r is Ok ==> r->Ok_0 == prog,
{
    match check_loops(&prog) {
        Err(e) => Err(e),
        Ok(()) => Ok(prog),
    }
}

} // verus!
