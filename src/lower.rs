use vstd::prelude::*;

use crate::stmt::{Stmt, Tree, tree_of, trees_of, lemma_trees_of};

verus! {

broadcast use {vstd::seq::group_seq_axioms, vstd::std_specs::vec::group_vec_axioms};

/// One step of the lowered entry routine. Blocks are numbered; block 0 is the entry
/// block, which starts with the cursor at 0 and a zeroed tape of `TAPE_LEN` cells.
#[derive(Debug, Clone, Copy, PartialEq, Eq, Structural)]
pub enum Lowered {
    /// The cursor value becomes `cursor + d`; the tape is not touched.
    Shift(i32),
    /// The cell at `base + cursor` is loaded, `d` is added modulo 256, and it is stored.
    Adjust(i32),
    /// Ends the current block with a branch to block `head`. There the cursor is a merge
    /// of its value before the loop and its value at the end of the body; the cell under
    /// it is tested and control goes on in block `body` if it is non-zero, in block
    /// `exit` otherwise. Lowering continues in `body`.
    LoopHead { head: usize, body: usize, exit: usize },
    /// Ends the loop body: its cursor value becomes the second origin of the merge at
    /// `head`, and control branches back to `head`.
    LoopBack { head: usize },
    /// Lowering continues in block `exit`, with the merged cursor of the loop's head.
    LoopExit { exit: usize },
    /// The cell under the cursor, widened to a word, is passed to the output routine.
    Output,
    /// The result of the input routine, truncated to a byte, is stored under the cursor.
    Input,
}

/// The steps for one statement, using block numbers from `next` on, and the first
/// block number left unused.
pub open spec fn lower_tree(t: Tree, next: nat) -> (Seq<Lowered>, nat)
    decreases t,
{
    match t {
        Tree::PtrInc(n) => (seq![Lowered::Shift(n)], next),
        Tree::ValInc(n) => (seq![Lowered::Adjust(n)], next),
        Tree::Output => (seq![Lowered::Output], next),
        Tree::Input => (seq![Lowered::Input], next),
        Tree::Loop(b) => {
            let (inner, m) = lower_seq(b, next + 3);
            (
                seq![
                    Lowered::LoopHead {
                        head: next as usize,
                        body: (next + 1) as usize,
                        exit: (next + 2) as usize,
                    },
                ] + inner + seq![
                    Lowered::LoopBack { head: next as usize },
                    Lowered::LoopExit { exit: (next + 2) as usize },
                ],
                m,
            )
        },
    }
}

/// The steps for a sequence of statements, in order, numbering blocks from `next` on,
/// and the first block number left unused.
pub open spec fn lower_seq(ts: Seq<Tree>, next: nat) -> (Seq<Lowered>, nat)
    decreases ts,
{
    if ts.len() == 0 {
        (Seq::empty(), next)
    } else {
        let (a, m) = lower_seq(ts.subrange(0, ts.len() - 1), next);
        let (b, k) = lower_tree(ts[ts.len() - 1], m);
        (a + b, k)
    }
}

pub proof fn lemma_lower_grows(t: Tree, next: nat)
    ensures
        lower_tree(t, next).1 >= next,
    decreases t,
{
    match t {
        Tree::Loop(b) => lemma_lower_seq_grows(b, next + 3),
        _ => {},
    }
}

pub proof fn lemma_lower_seq_grows(ts: Seq<Tree>, next: nat)
    ensures
        lower_seq(ts, next).1 >= next,
    decreases ts,
{
    if ts.len() > 0 {
        let sub = ts.subrange(0, ts.len() - 1);
        lemma_lower_seq_grows(sub, next);
        lemma_lower_grows(ts[ts.len() - 1], lower_seq(sub, next).1);
    }
}

/// Lowering a longer prefix uses at least as many block numbers.
pub proof fn lemma_lower_seq_prefix(ts: Seq<Tree>, next: nat, k: int)
    requires
        0 <= k <= ts.len(),
    ensures
        lower_seq(ts, next).1 >= lower_seq(ts.subrange(0, k), next).1,
    decreases ts.len() - k,
{
    if k < ts.len() {
        lemma_lower_seq_prefix(ts, next, k + 1);
        let t1 = ts.subrange(0, k + 1);
        assert(t1.subrange(0, k) == ts.subrange(0, k));
        lemma_lower_grows(t1[k], lower_seq(ts.subrange(0, k), next).1);
    } else {
        assert(ts.subrange(0, k) == ts);
    }
}

/// Every block number in `ops` lies in `lo..hi`, and each loop's blocks are its head
/// followed by its body and its exit.
pub open spec fn blocks_within(ops: Seq<Lowered>, lo: int, hi: int) -> bool {
    forall|i: int|
        0 <= i < ops.len() ==> match #[trigger] ops[i] {
            Lowered::LoopHead { head, body, exit } => lo <= head && head + 3 <= hi && body == head
                + 1 && exit == head + 2,
            Lowered::LoopBack { head } => lo <= head < hi,
            Lowered::LoopExit { exit } => lo <= exit < hi,
            _ => true,
        }
}

/// Loop heads come in increasing order, so no two loops share a block.
pub open spec fn heads_increase(ops: Seq<Lowered>) -> bool {
    forall|i: int, j: int|
        0 <= i < j < ops.len() && (#[trigger] ops[i]) is LoopHead && (#[trigger] ops[j]) is LoopHead
            ==> ops[i]->LoopHead_head + 3 <= ops[j]->LoopHead_head
}

/// Every loop head in `ops` is at least `lo`.
pub open spec fn heads_from(ops: Seq<Lowered>, lo: int) -> bool {
    forall|i: int| 0 <= i < ops.len() && (#[trigger] ops[i]) is LoopHead ==> lo <= ops[i]->LoopHead_head
}

proof fn lemma_widen_blocks(ops: Seq<Lowered>, lo: int, lo2: int, hi: int)
    requires
        blocks_within(ops, lo2, hi),
        lo <= lo2,
    ensures
        blocks_within(ops, lo, hi),
        heads_from(ops, lo2),
{
    assert forall|i: int| 0 <= i < ops.len() implies match #[trigger] ops[i] {
        Lowered::LoopHead { head, body, exit } => lo <= head && head + 3 <= hi && body == head + 1
            && exit == head + 2,
        Lowered::LoopBack { head } => lo <= head < hi,
        Lowered::LoopExit { exit } => lo <= exit < hi,
        _ => true,
    } by {}
    assert forall|i: int| 0 <= i < ops.len() && (#[trigger] ops[i]) is LoopHead implies lo2 <= ops[i]->LoopHead_head by {}
}

proof fn lemma_concat_blocks(a: Seq<Lowered>, b: Seq<Lowered>, lo: int, mid: int, hi: int)
    requires
        blocks_within(a, lo, mid),
        blocks_within(b, lo, hi),
        heads_from(b, mid),
        heads_increase(a),
        heads_increase(b),
        lo <= mid <= hi,
    ensures
        blocks_within(a + b, lo, hi),
        heads_increase(a + b),
{
    let c = a + b;
    assert forall|i: int| 0 <= i < c.len() implies match #[trigger] c[i] {
        Lowered::LoopHead { head, body, exit } => lo <= head && head + 3 <= hi && body == head + 1
            && exit == head + 2,
        Lowered::LoopBack { head } => lo <= head < hi,
        Lowered::LoopExit { exit } => lo <= exit < hi,
        _ => true,
    } by {
        if i < a.len() {
            assert(c[i] == a[i]);
        } else {
            assert(c[i] == b[i - a.len()]);
        }
    }
    assert forall|i: int, j: int|
        0 <= i < j < c.len() && (#[trigger] c[i]) is LoopHead && (#[trigger] c[j]) is LoopHead implies c[i]->LoopHead_head
        + 3 <= c[j]->LoopHead_head by {
        if j < a.len() {
            assert(c[i] == a[i] && c[j] == a[j]);
        } else if i >= a.len() {
            assert(c[i] == b[i - a.len()] && c[j] == b[j - a.len()]);
        } else {
            assert(c[i] == a[i] && c[j] == b[j - a.len()]);
        }
    }
}

/// The steps for one statement number their blocks from `next` up to the first number
/// they leave unused, giving each loop a fresh head, body and exit.
pub proof fn lemma_lower_blocks(t: Tree, next: nat)
    requires
        lower_tree(t, next).1 <= usize::MAX,
    ensures
        blocks_within(lower_tree(t, next).0, next as int, lower_tree(t, next).1 as int),
        heads_increase(lower_tree(t, next).0),
    decreases t,
{
    lemma_lower_grows(t, next);
    match t {
        Tree::Loop(b) => {
            let (inner, m) = lower_seq(b, next + 3);
            lemma_lower_seq_grows(b, next + 3);
            lemma_lower_seq_blocks(b, next + 3);
            let h = seq![
                Lowered::LoopHead {
                    head: next as usize,
                    body: (next + 1) as usize,
                    exit: (next + 2) as usize,
                },
            ];
            let tail = seq![
                Lowered::LoopBack { head: next as usize },
                Lowered::LoopExit { exit: (next + 2) as usize },
            ];
            assert(blocks_within(h, next as int, (next + 3) as int));
            assert(heads_increase(h));
            assert(blocks_within(tail, next as int, m as int));
            assert(heads_increase(tail));
            lemma_widen_blocks(inner, next as int, (next + 3) as int, m as int);
            lemma_concat_blocks(h, inner, next as int, (next + 3) as int, m as int);
            assert(heads_from(tail, m as int));
            lemma_concat_blocks(h + inner, tail, next as int, m as int, m as int);
        },
        _ => {},
    }
}

/// The steps for a sequence of statements number their blocks from `next` up to the
/// first number they leave unused, giving each loop a fresh head, body and exit.
pub proof fn lemma_lower_seq_blocks(ts: Seq<Tree>, next: nat)
    requires
        lower_seq(ts, next).1 <= usize::MAX,
    ensures
        blocks_within(lower_seq(ts, next).0, next as int, lower_seq(ts, next).1 as int),
        heads_increase(lower_seq(ts, next).0),
    decreases ts,
{
    if ts.len() > 0 {
        let sub = ts.subrange(0, ts.len() - 1);
        let (a, m) = lower_seq(sub, next);
        lemma_lower_seq_grows(sub, next);
        lemma_lower_grows(ts[ts.len() - 1], m);
        lemma_lower_seq_blocks(sub, next);
        lemma_lower_blocks(ts[ts.len() - 1], m);
        let (b, k) = lower_tree(ts[ts.len() - 1], m);
        lemma_widen_blocks(b, next as int, m as int, k as int);
        lemma_concat_blocks(a, b, next as int, m as int, k as int);
    }
}

/// The loops still open (innermost last) and the head of a loop just closed whose exit
/// must come next; `None` when a step breaks the block structure.
pub open spec fn walk_step(op: Lowered, st: (Seq<usize>, Option<usize>)) -> Option<
    (Seq<usize>, Option<usize>),
> {
    let (open, closed) = st;
    match op {
        Lowered::LoopBack { head } => if closed is None && open.len() > 0 && open.last() == head {
            Some((open.drop_last(), Some(head)))
        } else {
            None
        },
        Lowered::LoopExit { exit } => match closed {
            Some(h) => if exit == h + 2 {
                Some((open, None))
            } else {
                None
            },
            None => None,
        },
        Lowered::LoopHead { head, body, exit } => if closed is None {
            Some((open.push(head), None))
        } else {
            None
        },
        _ => if closed is None {
            Some(st)
        } else {
            None
        },
    }
}

/// The state after walking through `ops` from `st`.
pub open spec fn walk(ops: Seq<Lowered>, st: (Seq<usize>, Option<usize>)) -> Option<
    (Seq<usize>, Option<usize>),
>
    decreases ops.len(),
{
    if ops.len() == 0 {
        Some(st)
    } else {
        match walk_step(ops[0], st) {
            Some(st2) => walk(ops.subrange(1, ops.len() as int), st2),
            None => None,
        }
    }
}

proof fn lemma_walk_concat(a: Seq<Lowered>, b: Seq<Lowered>, st: (Seq<usize>, Option<usize>))
    ensures
        walk(a + b, st) == match walk(a, st) {
            Some(s2) => walk(b, s2),
            None => None,
        },
    decreases a.len(),
{
    if a.len() > 0 {
        assert((a + b)[0] == a[0]);
        assert((a + b).subrange(1, (a + b).len() as int) == a.subrange(1, a.len() as int) + b);
        match walk_step(a[0], st) {
            Some(st2) => lemma_walk_concat(a.subrange(1, a.len() as int), b, st2),
            None => {},
        }
    } else {
        assert(a + b == b);
    }
}

/// Walking the steps for one statement leaves the open loops as they were: every
/// `LoopBack` closes the innermost open head and is followed at once by that loop's
/// `LoopExit`.
pub proof fn lemma_lower_balanced(t: Tree, next: nat, open: Seq<usize>)
    requires
        lower_tree(t, next).1 <= usize::MAX,
    ensures
        walk(lower_tree(t, next).0, (open, None)) == Some::<(Seq<usize>, Option<usize>)>((open, None)),
    decreases t,
{
    lemma_lower_grows(t, next);
    match t {
        Tree::Loop(b) => {
            let (inner, m) = lower_seq(b, next + 3);
            lemma_lower_seq_grows(b, next + 3);
            let h = seq![
                Lowered::LoopHead {
                    head: next as usize,
                    body: (next + 1) as usize,
                    exit: (next + 2) as usize,
                },
            ];
            let tail = seq![
                Lowered::LoopBack { head: next as usize },
                Lowered::LoopExit { exit: (next + 2) as usize },
            ];
            let inside = open.push(next as usize);
            lemma_lower_seq_balanced(b, next + 3, inside);
            assert(walk(h.subrange(1, 1), (inside, None)) == Some::<(Seq<usize>, Option<usize>)>((inside, None)));
            assert(walk(h, (open, None)) == Some::<(Seq<usize>, Option<usize>)>((inside, None)));
            lemma_walk_concat(h, inner, (open, None));
            assert(inside.drop_last() == open);
            let t1 = tail.subrange(1, 2);
            assert(walk(t1.subrange(1, 1), (open, None)) == Some::<(Seq<usize>, Option<usize>)>((open, None)));
            assert(walk(t1, (open, Some(next as usize))) == Some::<(Seq<usize>, Option<usize>)>((open, None)));
            assert(walk(tail, (inside, None)) == Some::<(Seq<usize>, Option<usize>)>((open, None)));
            lemma_walk_concat(h + inner, tail, (open, None));
            assert(walk(inner, (inside, None)) == Some::<(Seq<usize>, Option<usize>)>((inside, None)));
            assert(walk(h + inner, (open, None)) == Some::<(Seq<usize>, Option<usize>)>((inside, None)));
            assert(walk(h + inner + tail, (open, None)) == Some::<(Seq<usize>, Option<usize>)>((open, None)));
            assert(lower_tree(t, next).0 == h + inner + tail);
            assert(walk(lower_tree(t, next).0, (open, None)) == Some::<(Seq<usize>, Option<usize>)>((open, None)));
        },
        _ => {
            let ops = lower_tree(t, next).0;
            assert(ops.len() == 1);
            assert(walk_step(ops[0], (open, None)) == Some::<(Seq<usize>, Option<usize>)>((open, None)));
            assert(ops.subrange(1, 1) == Seq::<Lowered>::empty());
            assert(walk(ops.subrange(1, 1), (open, None)) == Some::<(Seq<usize>, Option<usize>)>((open, None)));
        },
    }
}

/// Walking the steps for a sequence of statements leaves the open loops as they were.
pub proof fn lemma_lower_seq_balanced(ts: Seq<Tree>, next: nat, open: Seq<usize>)
    requires
        lower_seq(ts, next).1 <= usize::MAX,
    ensures
        walk(lower_seq(ts, next).0, (open, None)) == Some::<(Seq<usize>, Option<usize>)>((open, None)),
    decreases ts,
{
    if ts.len() > 0 {
        let sub = ts.subrange(0, ts.len() - 1);
        let (a, m) = lower_seq(sub, next);
        lemma_lower_grows(ts[ts.len() - 1], m);
        lemma_lower_seq_balanced(sub, next, open);
        lemma_lower_balanced(ts[ts.len() - 1], m, open);
        let (b, k) = lower_tree(ts[ts.len() - 1], m);
        lemma_walk_concat(a, b, (open, None));
    }
}

fn lower_into(prog: &Vec<Stmt>, next: usize, out: &mut Vec<Lowered>) -> (r: Option<usize>)
    ensures
        match r {
            Some(m) => {
                &&& final(out)@ == old(out)@ + lower_seq(trees_of(prog@), next as nat).0
                &&& m == lower_seq(trees_of(prog@), next as nat).1
            },
            None => lower_seq(trees_of(prog@), next as nat).1 > usize::MAX,
        },
    decreases prog,
{
    let ghost ts = trees_of(prog@);
    let ghost start = out@;
    proof {
        lemma_trees_of(prog@);
        assert(decreases_to!(*prog => prog@));
    }
    let mut cur: usize = next;
    let mut i: usize = 0;
    while i < prog.len()
        invariant
            ts == trees_of(prog@),
            ts.len() == prog@.len(),
            forall|k: int| 0 <= k < prog@.len() ==> #[trigger] ts[k] == tree_of(prog@[k]),
            decreases_to!(*prog => prog@),
            i <= prog@.len(),
            out@ == start + lower_seq(ts.subrange(0, i as int), next as nat).0,
            cur == lower_seq(ts.subrange(0, i as int), next as nat).1,
            start == old(out)@,
        decreases prog@.len() - i,
    {
        let ghost before = out@;
        let ghost t1 = ts.subrange(0, i + 1);
        assert(t1.subrange(0, i as int) == ts.subrange(0, i as int));
        assert(t1[i as int] == tree_of(prog@[i as int]));
        match &prog[i] {
            Stmt::PtrInc(n) => out.push(Lowered::Shift(*n)),
            Stmt::ValInc(n) => out.push(Lowered::Adjust(*n)),
            Stmt::Output => out.push(Lowered::Output),
            Stmt::Input => out.push(Lowered::Input),
            Stmt::Loop(body) => {
                proof {
                    assert(decreases_to!(prog@ => prog@[i as int]));
                    assert(tree_of(prog@[i as int]) == Tree::Loop(trees_of(body@)));
                    lemma_lower_seq_prefix(ts, next as nat, i + 1);
                    lemma_lower_seq_grows(trees_of(body@), (cur + 3) as nat);
                    assert(lower_seq(t1, next as nat).1 == lower_tree(t1[i as int], cur as nat).1);
                    assert(lower_tree(t1[i as int], cur as nat).1 == lower_seq(
                        trees_of(body@),
                        (cur + 3) as nat,
                    ).1);
                }
                if cur > usize::MAX - 3 {
                    return None;
                }
                let head = cur;
                out.push(Lowered::LoopHead { head, body: cur + 1, exit: cur + 2 });
                let ghost mid = out@;
                match lower_into(body, cur + 3, out) {
                    None => {
                        return None;
                    },
                    Some(m) => {
                        out.push(Lowered::LoopBack { head });
                        out.push(Lowered::LoopExit { exit: head + 2 });
                        cur = m;
                    },
                }
            },
        }
        proof {
            assert(out@ =~= before + lower_tree(t1[i as int], lower_seq(ts.subrange(0, i as int), next as nat).1).0);
        }
        i = i + 1;
    }
    assert(ts.subrange(0, prog@.len() as int) == ts);
    Some(cur)
}

/// Lowers a statement tree to the steps of the entry routine, numbering blocks from 1
/// on; `None` when the block numbers would not fit in a `usize`.
pub fn lower(prog: &Vec<Stmt>) -> (r: Option<Vec<Lowered>>)
    ensures
        match r {
            Some(v) => {
                &&& v@ == lower_seq(trees_of(prog@), 1).0
                &&& blocks_within(v@, 1, lower_seq(trees_of(prog@), 1).1 as int)
                &&& heads_increase(v@)
                &&& walk(v@, (Seq::empty(), None)) == Some::<(Seq<usize>, Option<usize>)>(
                    (Seq::empty(), None),
                )
            },
            None => lower_seq(trees_of(prog@), 1).1 > usize::MAX,
        },
{
    let mut out: Vec<Lowered> = Vec::new();
    match lower_into(prog, 1, &mut out) {
        Some(_) => {
            assert(out@ =~= lower_seq(trees_of(prog@), 1).0);
            proof {
                lemma_lower_seq_blocks(trees_of(prog@), 1);
                lemma_lower_seq_balanced(trees_of(prog@), 1, Seq::empty());
            }
            Some(out)
        },
        None => None,
    }
}

} // verus!
