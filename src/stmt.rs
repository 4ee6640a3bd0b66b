use vstd::prelude::*;

use crate::inst::Inst;

verus! {

broadcast use {vstd::seq::group_seq_axioms, vstd::std_specs::vec::group_vec_axioms};

/// A statement of the structured program: loops hold their bodies.
#[derive(Debug)]
pub enum Stmt {
    PtrInc(i32),
    ValInc(i32),
    Loop(Vec<Stmt>),
    Output,
    Input,
}

/// The mathematical model of a statement.
pub enum Tree {
    PtrInc(i32),
    ValInc(i32),
    Loop(Seq<Tree>),
    Output,
    Input,
}

/// The model of one statement.
pub open spec fn tree_of(s: Stmt) -> Tree
    decreases s,
{
    match s {
        Stmt::PtrInc(n) => Tree::PtrInc(n),
        Stmt::ValInc(n) => Tree::ValInc(n),
        Stmt::Loop(body) => Tree::Loop(trees_of(body@)),
        Stmt::Output => Tree::Output,
        Stmt::Input => Tree::Input,
    }
}

/// The model of a sequence of statements, element by element.
pub open spec fn trees_of(v: Seq<Stmt>) -> Seq<Tree>
    decreases v,
{
    if v.len() == 0 {
        Seq::empty()
    } else {
        trees_of(v.subrange(0, v.len() - 1)).push(tree_of(v[v.len() - 1]))
    }
}

impl Clone for Stmt {
    /// A deep copy: the copy has the same tree.
    fn clone(&self) -> (r: Self)
        ensures
            tree_of(r) == tree_of(*self),
        decreases self,
    {
        match self {
            Stmt::PtrInc(n) => Stmt::PtrInc(*n),
            Stmt::ValInc(n) => Stmt::ValInc(*n),
            Stmt::Output => Stmt::Output,
            Stmt::Input => Stmt::Input,
            Stmt::Loop(stmts) => {
                proof {
                    lemma_trees_of(stmts@);
                    assert(decreases_to!(*self => *stmts));
                    assert(decreases_to!(*stmts => stmts@));
                }
                let mut copy: Vec<Stmt> = Vec::new();
                let mut i: usize = 0;
                while i < stmts.len()
                    invariant
                        i <= stmts@.len(),
                        tree_of(*self) == Tree::Loop(trees_of(stmts@)),
                        decreases_to!(*self => stmts@),
                        trees_of(stmts@).len() == stmts@.len(),
                        forall|k: int| 0 <= k < stmts@.len() ==> #[trigger] trees_of(stmts@)[k] == tree_of(stmts@[k]),
                        trees_of(copy@) == trees_of(stmts@).subrange(0, i as int),
                    decreases stmts@.len() - i,
                {
                    proof {
                        assert(decreases_to!(stmts@ => stmts@[i as int]));
                    }
                    let c = stmts[i].clone();
                    proof {
                        lemma_trees_of_push(copy@, c);
                        assert(trees_of(stmts@).subrange(0, i + 1) =~= trees_of(stmts@).subrange(0, i as int).push(tree_of(c)));
                    }
                    copy.push(c);
                    i = i + 1;
                }
                assert(trees_of(stmts@).subrange(0, stmts@.len() as int) == trees_of(stmts@));
                Stmt::Loop(copy)
            },
        }
    }
}

/// `trees_of` keeps the length and maps each element.
pub proof fn lemma_trees_of(v: Seq<Stmt>)
    ensures
        trees_of(v).len() == v.len(),
        forall|k: int| 0 <= k < v.len() ==> #[trigger] trees_of(v)[k] == tree_of(v[k]),
    decreases v.len(),
{
    if v.len() > 0 {
        lemma_trees_of(v.subrange(0, v.len() - 1));
    }
}

pub proof fn lemma_trees_of_push(v: Seq<Stmt>, x: Stmt)
    ensures
        trees_of(v.push(x)) == trees_of(v).push(tree_of(x)),
{
    assert(v.push(x).subrange(0, v.len() as int) == v);
}

/// No input or output anywhere in the tree.
pub open spec fn tree_pure(t: Tree) -> bool
    decreases t,
{
    match t {
        Tree::Loop(body) => prefix_pure(body, body.len() as int),
        Tree::Output => false,
        Tree::Input => false,
        _ => true,
    }
}

/// No input or output in the first `n` trees of `s`.
pub open spec fn prefix_pure(s: Seq<Tree>, n: int) -> bool
    decreases s, n,
{
    if n <= 0 || n > s.len() {
        true
    } else {
        prefix_pure(s, n - 1) && tree_pure(s[n - 1])
    }
}

impl Stmt {
    /// Whether the statement performs no input or output, at any depth.
    pub fn pure(&self) -> (r: bool)
        ensures
            r == tree_pure(tree_of(*self)),
        decreases self,
    {
        match self {
            Stmt::PtrInc(_) => true,
            Stmt::ValInc(_) => true,
            Stmt::Loop(stmts) => {
                proof {
                    lemma_trees_of(stmts@);
                    assert(decreases_to!(*self => *stmts));
                    assert(decreases_to!(*stmts => stmts@));
                }
                let mut i: usize = 0;
                while i < stmts.len()
                    invariant
                        i <= stmts@.len(),
                        tree_of(*self) == Tree::Loop(trees_of(stmts@)),
                        decreases_to!(*self => stmts@),
                        trees_of(stmts@).len() == stmts@.len(),
                        forall|k: int| 0 <= k < stmts@.len() ==> #[trigger] trees_of(stmts@)[k] == tree_of(stmts@[k]),
                        prefix_pure(trees_of(stmts@), i as int),
                    decreases stmts@.len() - i,
                {
                    proof {
                        assert(decreases_to!(stmts@ => stmts@[i as int]));
                    }
                    if !stmts[i].pure() {
                        assert(tree_of(*self) == Tree::Loop(trees_of(stmts@)));
                        proof {
                            if prefix_pure(trees_of(stmts@), stmts@.len() as int) {
                                lemma_prefix_pure_mono(trees_of(stmts@), i + 1, stmts@.len() as int);
                            }
                        }
                        return false;
                    }
                    i = i + 1;
                }
                assert(tree_of(*self) == Tree::Loop(trees_of(stmts@)));
                true
            },
            Stmt::Output => false,
            Stmt::Input => false,
        }
    }
}

pub proof fn lemma_prefix_pure_mono(s: Seq<Tree>, m: int, n: int)
    requires
        0 < m <= n <= s.len(),
        prefix_pure(s, n),
    ensures
        prefix_pure(s, m),
    decreases n - m,
{
    if m < n {
        lemma_prefix_pure_mono(s, m, n - 1);
    }
}

/// The statements read from `p` starting at `i`, up to the `LoopEnd` that closes the
/// current level or the end of `p`; the index just past what was read; and whether a
/// `LoopEnd` closed the level.
pub open spec fn build_from(p: Seq<Inst>, i: int) -> (Seq<Tree>, int, bool)
    decreases p.len() - i,
{
    if i < 0 || i >= p.len() {
        (Seq::empty(), p.len() as int, false)
    } else {
        match p[i] {
            Inst::LoopEnd(_) => (Seq::empty(), i + 1, true),
            Inst::LoopStart(_) => {
                let (body, j, _) = build_from(p, i + 1);
                if j <= i || j > p.len() {
                    (seq![Tree::Loop(body)], p.len() as int, false)
                } else {
                    let (rest, k, c) = build_from(p, j);
                    (seq![Tree::Loop(body)] + rest, k, c)
                }
            },
            other => {
                let t = match other {
                    Inst::PtrInc(n) => Tree::PtrInc(n),
                    Inst::ValInc(n) => Tree::ValInc(n),
                    Inst::Output => Tree::Output,
                    _ => Tree::Input,
                };
                let (rest, k, c) = build_from(p, i + 1);
                (seq![t] + rest, k, c)
            },
        }
    }
}

/// The statement tree of a whole flat program.
pub open spec fn build(p: Seq<Inst>) -> Seq<Tree> {
    build_from(p, 0).0
}

pub proof fn lemma_build_from_advances(p: Seq<Inst>, i: int)
    requires
        0 <= i <= p.len(),
    ensures
        i < p.len() ==> i < build_from(p, i).1,
        build_from(p, i).1 <= p.len(),
    decreases p.len() - i,
{
    if i < p.len() {
        lemma_build_from_advances(p, i + 1);
        match p[i] {
            Inst::LoopStart(_) => {
                let j = build_from(p, i + 1).1;
                if i < j <= p.len() {
                    lemma_build_from_advances(p, j);
                }
            },
            _ => {},
        }
    }
}

fn compile_rec(p: &Vec<Inst>, start: usize) -> (r: (Vec<Stmt>, usize))
    requires
        start <= p@.len(),
    ensures
        trees_of(r.0@) == build_from(p@, start as int).0,
        r.1 == build_from(p@, start as int).1,
    decreases p@.len() - start,
{
    let mut prog: Vec<Stmt> = Vec::new();
    let mut i: usize = start;
    while i < p.len()
        invariant
            start <= i <= p@.len(),
            build_from(p@, start as int).0 == trees_of(prog@) + build_from(p@, i as int).0,
            build_from(p@, start as int).1 == build_from(p@, i as int).1,
        decreases p@.len() - i,
    {
        let stmt = match p[i] {
            Inst::LoopEnd(_) => {
                assert(trees_of(prog@) + Seq::<Tree>::empty() == trees_of(prog@));
                return (prog, i + 1);
            },
            Inst::LoopStart(_) => {
                let (body, j) = compile_rec(p, i + 1);
                proof {
                    lemma_build_from_advances(p@, i + 1);
                }
                i = j;
                Stmt::Loop(body)
            },
            Inst::PtrInc(n) => {
                i = i + 1;
                Stmt::PtrInc(n)
            },
            Inst::ValInc(n) => {
                i = i + 1;
                Stmt::ValInc(n)
            },
            Inst::Output => {
                i = i + 1;
                Stmt::Output
            },
            Inst::Input => {
                i = i + 1;
                Stmt::Input
            },
        };
        proof {
            lemma_trees_of_push(prog@, stmt);
            assert(trees_of(prog@.push(stmt)) + build_from(p@, i as int).0 =~= trees_of(prog@)
                + (seq![tree_of(stmt)] + build_from(p@, i as int).0));
        }
        prog.push(stmt);
    }
    assert(trees_of(prog@) + Seq::<Tree>::empty() == trees_of(prog@));
    (prog, p.len())
}

/// Builds the statement tree of a flat program: each `LoopStart` opens a loop whose
/// body runs up to the `LoopEnd` that closes it; jump targets are not consulted.
pub fn compile(prog: Vec<Inst>) -> (r: Vec<Stmt>)
    ensures
        trees_of(r@) == build(prog@),
{
    compile_rec(&prog, 0).0
}

} // verus!
