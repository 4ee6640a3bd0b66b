use vstd::prelude::*;
use vstd::wrapping::i32_specs;

verus! {

/// Source symbol that moves the cursor right.
pub const RIGHT: u8 = 62;
/// Source symbol that moves the cursor left.
pub const LEFT: u8 = 60;
/// Source symbol that increments the current cell.
pub const PLUS: u8 = 43;
/// Source symbol that decrements the current cell.
pub const MINUS: u8 = 45;
/// Source symbol that opens a loop.
pub const OPEN: u8 = 91;
/// Source symbol that closes a loop.
pub const CLOSE: u8 = 93;
/// Source symbol that writes the current cell.
pub const DOT: u8 = 46;
/// Source symbol that reads into the current cell.
pub const COMMA: u8 = 44;

/// A flat instruction of the assembled program.
///
/// `LoopStart(t)` jumps to `t` (the index just past the matching `LoopEnd`) when the
/// current cell is zero; `LoopEnd(t)` jumps to `t` (the index just past the matching
/// `LoopStart`) when the current cell is non-zero.
#[derive(Debug, Clone, Copy, PartialEq, Eq, Structural)]
pub enum Inst {
    PtrInc(i32),
    ValInc(i32),
    LoopStart(usize),
    LoopEnd(usize),
    Output,
    Input,
}

/// Why a source text could not be assembled.
#[derive(Debug, Clone, Copy, PartialEq, Eq, Structural)]
pub enum ParseError {
    /// A `]` with no open `[` before it.
    UnmatchedClose,
    /// The source ended while some `[` was still open.
    UnmatchedOpen,
}

/// The run of cursor moves or cell adjustments that the assembler is folding.
#[derive(Debug, Clone, Copy, PartialEq, Eq, Structural)]
pub enum Pending {
    Nothing,
    Shift(i32),
    Adjust(i32),
}

/// The assembler's state after a prefix of the source.
pub struct AsmState {
    pub prog: Seq<Inst>,
    pub pending: Pending,
    pub stack: Seq<usize>,
    pub failed: bool,
}

pub open spec fn is_shift_symbol(c: u8) -> bool {
    c == RIGHT || c == LEFT
}

pub open spec fn is_adjust_symbol(c: u8) -> bool {
    c == PLUS || c == MINUS
}

/// The signed contribution of one folded symbol: `>` and `+` count 1, `<` and `-` count -1.
pub open spec fn symbol_delta(c: u8) -> i32 {
    if c == RIGHT || c == PLUS {
        1i32
    } else {
        -1i32
    }
}

/// The program with the pending run, if any, emitted.
pub open spec fn flush(prog: Seq<Inst>, pending: Pending) -> Seq<Inst> {
    match pending {
        Pending::Nothing => prog,
        Pending::Shift(n) => prog.push(Inst::PtrInc(n)),
        Pending::Adjust(n) => prog.push(Inst::ValInc(n)),
    }
}

pub open spec fn initial_state() -> AsmState {
    AsmState { prog: Seq::empty(), pending: Pending::Nothing, stack: Seq::empty(), failed: false }
}

/// One symbol of source applied to a state that has not failed.
pub open spec fn step(st: AsmState, c: u8) -> AsmState {
    if is_shift_symbol(c) {
        match st.pending {
            Pending::Shift(n) => AsmState {
                pending: Pending::Shift(i32_specs::wrapping_add(n, symbol_delta(c))),
                ..st
            },
            _ => AsmState {
                prog: flush(st.prog, st.pending),
                pending: Pending::Shift(symbol_delta(c)),
                ..st
            },
        }
    } else if is_adjust_symbol(c) {
        match st.pending {
            Pending::Adjust(n) => AsmState {
                pending: Pending::Adjust(i32_specs::wrapping_add(n, symbol_delta(c))),
                ..st
            },
            _ => AsmState {
                prog: flush(st.prog, st.pending),
                pending: Pending::Adjust(symbol_delta(c)),
                ..st
            },
        }
    } else if c == OPEN {
        let p = flush(st.prog, st.pending);
        AsmState {
            prog: p.push(Inst::LoopStart(0)),
            pending: Pending::Nothing,
            stack: st.stack.push(p.len() as usize),
            failed: false,
        }
    } else if c == CLOSE {
        let p = flush(st.prog, st.pending);
        if st.stack.len() == 0 {
            AsmState { prog: p, pending: Pending::Nothing, stack: st.stack, failed: true }
        } else {
            let start = st.stack.last();
            let p2 = p.push(Inst::LoopEnd((start + 1) as usize));
            AsmState {
                prog: p2.update(start as int, Inst::LoopStart(p2.len() as usize)),
                pending: Pending::Nothing,
                stack: st.stack.drop_last(),
                failed: false,
            }
        }
    } else if c == DOT {
        AsmState {
            prog: flush(st.prog, st.pending).push(Inst::Output),
            pending: Pending::Nothing,
            ..st
        }
    } else if c == COMMA {
        AsmState {
            prog: flush(st.prog, st.pending).push(Inst::Input),
            pending: Pending::Nothing,
            ..st
        }
    } else {
        st
    }
}

/// The state after scanning the whole of `s`; a failed state stays failed.
pub open spec fn scan(s: Seq<u8>) -> AsmState
    decreases s.len(),
{
    if s.len() == 0 {
        initial_state()
    } else {
        let st = scan(s.drop_last());
        if st.failed {
            st
        } else {
            step(st, s.last())
        }
    }
}

/// What assembling the source `s` yields.
pub open spec fn assemble(s: Seq<u8>) -> Result<Seq<Inst>, ParseError> {
    let st = scan(s);
    if st.failed {
        Err(ParseError::UnmatchedClose)
    } else if st.stack.len() > 0 {
        Err(ParseError::UnmatchedOpen)
    } else {
        Ok(flush(st.prog, st.pending))
    }
}

/// The signed sum of the symbols of `s`, each counted by `symbol_delta`.
pub open spec fn run_sum(s: Seq<u8>) -> int
    decreases s.len(),
{
    if s.len() == 0 {
        0
    } else {
        run_sum(s.drop_last()) + symbol_delta(s.last())
    }
}

/// The run a scan of `s` leaves pending when `s` is all cursor moves (`shift`) or all
/// cell adjustments (`!shift`).
pub open spec fn pending_run(shift: bool, n: i32) -> Pending {
    if shift {
        Pending::Shift(n)
    } else {
        Pending::Adjust(n)
    }
}

pub open spec fn is_run_symbol(shift: bool, c: u8) -> bool {
    if shift {
        is_shift_symbol(c)
    } else {
        is_adjust_symbol(c)
    }
}

proof fn lemma_scan_run(s: Seq<u8>, shift: bool)
    requires
        0 < s.len() <= i32::MAX,
        forall|k: int| 0 <= k < s.len() ==> is_run_symbol(shift, #[trigger] s[k]),
    ensures
        -s.len() <= run_sum(s) <= s.len(),
        scan(s) == (AsmState {
            prog: Seq::empty(),
            pending: pending_run(shift, run_sum(s) as i32),
            stack: Seq::empty(),
            failed: false,
        }),
    decreases s.len(),
{
    let t = s.drop_last();
    assert(is_run_symbol(shift, s[s.len() - 1]));
    if t.len() > 0 {
        assert forall|k: int| 0 <= k < t.len() implies is_run_symbol(shift, #[trigger] t[k]) by {
            assert(t[k] == s[k]);
        }
        lemma_scan_run(t, shift);
    }
}

/// One of the eight symbols the language gives meaning to.
pub open spec fn is_command(c: u8) -> bool {
    is_shift_symbol(c) || is_adjust_symbol(c) || c == OPEN || c == CLOSE || c == DOT || c == COMMA
}

proof fn lemma_scan_run_after(a: Seq<u8>, r: Seq<u8>, shift: bool)
    requires
        0 < r.len() <= i32::MAX,
        forall|k: int| 0 <= k < r.len() ==> is_run_symbol(shift, #[trigger] r[k]),
        !scan(a).failed,
        scan(a).pending !is Shift || !shift,
        scan(a).pending !is Adjust || shift,
    ensures
        -r.len() <= run_sum(r) <= r.len(),
        scan(a + r) == (AsmState {
            prog: flush(scan(a).prog, scan(a).pending),
            pending: pending_run(shift, run_sum(r) as i32),
            stack: scan(a).stack,
            failed: false,
        }),
    decreases r.len(),
{
    let t = r.drop_last();
    assert((a + r).drop_last() == a + t);
    assert((a + r).last() == r.last());
    assert(is_run_symbol(shift, r[r.len() - 1]));
    if t.len() > 0 {
        assert forall|k: int| 0 <= k < t.len() implies is_run_symbol(shift, #[trigger] t[k]) by {
            assert(t[k] == r[k]);
        }
        lemma_scan_run_after(a, t, shift);
    } else {
        assert(a + t == a);
    }
}

proof fn lemma_scan_skips(s: Seq<u8>, b: Seq<u8>)
    requires
        forall|k: int| 0 <= k < b.len() ==> !is_command(#[trigger] b[k]),
    ensures
        scan(s + b) == scan(s),
    decreases b.len(),
{
    if b.len() > 0 {
        let t = b.drop_last();
        assert((s + b).drop_last() == s + t);
        assert((s + b).last() == b.last());
        assert(!is_command(b[b.len() - 1]));
        assert forall|k: int| 0 <= k < t.len() implies !is_command(#[trigger] t[k]) by {
            assert(t[k] == b[k]);
        }
        lemma_scan_skips(s, t);
    } else {
        assert(s + b == s);
    }
}

/// The instructions of a scanned prefix that are not `LoopStart` stay as they are while
/// the scan goes on.
proof fn lemma_scan_keeps(s: Seq<u8>, n0: int, n: int, i: int)
    requires
        0 <= n0 <= n <= s.len(),
        s.len() < usize::MAX,
        !scan(s.take(n)).failed,
        0 <= i < scan(s.take(n0)).prog.len(),
        !(scan(s.take(n0)).prog[i] is LoopStart),
    ensures
        i < scan(s.take(n)).prog.len(),
        scan(s.take(n)).prog[i] == scan(s.take(n0)).prog[i],
    decreases n - n0,
{
    if n0 < n {
        let u = s.take(n);
        assert(u.drop_last() == s.take(n - 1));
        lemma_scan_keeps(s, n0, n - 1, i);
        let st = scan(s.take(n - 1));
        lemma_scan_paired(s.take(n - 1));
        let p = flush(st.prog, st.pending);
        assert(p[i] == st.prog[i]);
        if st.stack.len() > 0 {
            assert(st.prog[st.stack.last() as int] is LoopStart);
        }
    }
}

/// `x` is the instruction a run of the given kind folds into.
pub open spec fn of_kind(x: Inst, shift: bool) -> bool {
    if shift {
        x is PtrInc
    } else {
        x is ValInc
    }
}

pub open spec fn pending_of_kind(p: Pending, shift: bool) -> bool {
    if shift {
        p is Shift
    } else {
        p is Adjust
    }
}

/// A run pending at index `l` lands there as an instruction of its kind.
proof fn lemma_pending_lands(s: Seq<u8>, n0: int, n: int, l: int, shift: bool)
    requires
        0 <= n0 <= n <= s.len(),
        s.len() < usize::MAX,
        !scan(s.take(n)).failed,
        scan(s.take(n0)).prog.len() == l,
        pending_of_kind(scan(s.take(n0)).pending, shift),
    ensures
        (scan(s.take(n)).prog.len() == l && pending_of_kind(scan(s.take(n)).pending, shift)) || (l
            < scan(s.take(n)).prog.len() && of_kind(scan(s.take(n)).prog[l], shift)),
    decreases n - n0,
{
    if n0 < n {
        let u = s.take(n);
        assert(u.drop_last() == s.take(n - 1));
        lemma_pending_lands(s, n0, n - 1, l, shift);
        let st = scan(s.take(n - 1));
        lemma_scan_paired(s.take(n - 1));
        if st.prog.len() == l && pending_of_kind(st.pending, shift) {
            let p = flush(st.prog, st.pending);
            assert(p.len() == l + 1 && of_kind(p[l], shift));
            if st.stack.len() > 0 {
                assert(st.stack[st.stack.len() - 1] < st.prog.len());
            }
        } else {
            lemma_scan_keeps(s, n - 1, n, l);
        }
    }
}

/// A `LoopStart` of a scanned prefix stays a `LoopStart` while the scan goes on.
proof fn lemma_scan_keeps_start(s: Seq<u8>, n0: int, n: int, i: int)
    requires
        0 <= n0 <= n <= s.len(),
        s.len() < usize::MAX,
        !scan(s.take(n)).failed,
        0 <= i < scan(s.take(n0)).prog.len(),
        scan(s.take(n0)).prog[i] is LoopStart,
    ensures
        i < scan(s.take(n)).prog.len(),
        scan(s.take(n)).prog[i] is LoopStart,
    decreases n - n0,
{
    if n0 < n {
        let u = s.take(n);
        assert(u.drop_last() == s.take(n - 1));
        lemma_scan_keeps_start(s, n0, n - 1, i);
        let st = scan(s.take(n - 1));
        lemma_scan_paired(s.take(n - 1));
        let p = flush(st.prog, st.pending);
        assert(p[i] == st.prog[i]);
        if st.stack.len() > 0 {
            assert(st.stack[st.stack.len() - 1] < st.prog.len());
        }
    }
}

/// With nothing pending, a scan's last instruction, if any, is not one that a run
/// folds into.
proof fn lemma_settled_ends_in_control(s: Seq<u8>)
    requires
        s.len() < usize::MAX,
    ensures
        !scan(s).failed && scan(s).pending is Nothing && scan(s).prog.len() > 0 ==> !(
        scan(s).prog.last() is PtrInc) && !(scan(s).prog.last() is ValInc),
    decreases s.len(),
{
    if s.len() > 0 {
        let t = s.drop_last();
        lemma_settled_ends_in_control(t);
        lemma_scan_paired(t);
        let st = scan(t);
        if !st.failed && st.stack.len() > 0 {
            assert(st.stack[st.stack.len() - 1] < st.prog.len());
        }
    }
}

proof fn lemma_first_command(b: Seq<u8>, j0: int) -> (j: int)
    requires
        0 <= j0 < b.len(),
        is_command(b[j0]),
    ensures
        0 <= j <= j0,
        is_command(b[j]),
        forall|i: int| 0 <= i < j ==> !is_command(#[trigger] b[i]),
    decreases j0,
{
    if exists|i: int| 0 <= i < j0 && is_command(#[trigger] b[i]) {
        let i = choose|i: int| 0 <= i < j0 && is_command(#[trigger] b[i]);
        lemma_first_command(b, i)
    } else {
        j0
    }
}

/// A run of cursor moves (`shift`) or of cell adjustments (`!shift`) between other text
/// folds into one instruction carrying its signed sum: when the text before it leaves
/// no run of the same kind pending and the next symbol after it that the language reads
/// is of another kind, the instruction stands at the index where the text before it
/// ends, once its own pending run is emitted.
pub proof fn lemma_fold_run_in_context(a: Seq<u8>, r: Seq<u8>, b: Seq<u8>, shift: bool)
    requires
        0 < r.len() <= i32::MAX,
        (a + r + b).len() < usize::MAX,
        forall|k: int| 0 <= k < r.len() ==> is_run_symbol(shift, #[trigger] r[k]),
        scan(a).pending !is Shift || !shift,
        scan(a).pending !is Adjust || shift,
        forall|k: int|
            0 <= k < b.len() && is_command(#[trigger] b[k]) ==> !is_run_symbol(shift, b[k]),
        assemble(a + r + b) is Ok,
    ensures
        i32::MIN <= run_sum(r) <= i32::MAX,
        ({
            let k = flush(scan(a).prog, scan(a).pending).len();
            let p = assemble(a + r + b)->Ok_0;
            &&& k < p.len()
            &&& p[k as int] == if shift {
                Inst::PtrInc(run_sum(r) as i32)
            } else {
                Inst::ValInc(run_sum(r) as i32)
            }
            &&& k > 0 ==> !of_kind(p[k - 1], shift)
            &&& k + 1 < p.len() ==> !of_kind(p[k + 1 as int], shift)
        }),
{
    let src = a + r + b;
    let na = a.len() as int;
    let nr = na + r.len();
    assert(src.take(na) =~= a);
    assert(src.take(nr) =~= a + r);
    if scan(a).failed {
        lemma_failure_persists(src, na);
    }
    lemma_scan_run_after(a, r, shift);
    let k = flush(scan(a).prog, scan(a).pending).len() as int;
    lemma_settled_ends_in_control(a);
    if k > 0 {
        let y = scan(a + r).prog[k - 1];
        assert(!of_kind(y, shift));
        assert(src.take(src.len() as int) =~= src);
        if y is LoopStart {
            lemma_scan_keeps_start(src, nr, src.len() as int, k - 1);
        } else {
            lemma_scan_keeps(src, nr, src.len() as int, k - 1);
        }
    }
    let x = if shift { Inst::PtrInc(run_sum(r) as i32) } else { Inst::ValInc(run_sum(r) as i32) };
    if exists|j: int| 0 <= j < b.len() && is_command(#[trigger] b[j]) {
        let j0 = choose|j: int| 0 <= j < b.len() && is_command(#[trigger] b[j]);
        let j = lemma_first_command(b, j0);
        let b0 = b.take(j);
        let c = b[j];
        let n1 = nr + j + 1;
        assert forall|i: int| 0 <= i < b0.len() implies !is_command(#[trigger] b0[i]) by {
            assert(b0[i] == b[i]);
        }
        lemma_scan_skips(a + r, b0);
        assert(src.take(n1).drop_last() =~= (a + r) + b0);
        assert(src.take(n1).last() == c);
        if scan(src.take(n1)).failed {
            lemma_failure_persists(src, n1);
        }
        assert(src.take(nr) == a + r);
        lemma_scan_paired(src.take(nr));
        let st = scan(a + r);
        let q = flush(st.prog, st.pending);
        assert(q.len() == k + 1 && q[k] == x);
        if c == CLOSE && st.stack.len() > 0 {
            assert(st.stack[st.stack.len() - 1] < st.prog.len());
        }
        assert(scan(src.take(n1)).prog[k] == x);
        assert(src.take(src.len() as int) == src);
        lemma_scan_keeps(src, n1, src.len() as int, k);
        let sn = scan(src.take(n1));
        if is_shift_symbol(c) || is_adjust_symbol(c) {
            assert(sn.prog.len() == k + 1 && pending_of_kind(sn.pending, !shift));
            lemma_pending_lands(src, n1, src.len() as int, k + 1, !shift);
        } else if c == OPEN {
            assert(sn.prog[k + 1] is LoopStart);
            lemma_scan_keeps_start(src, n1, src.len() as int, k + 1);
        } else {
            assert(!(sn.prog[k + 1] is LoopStart) && !of_kind(sn.prog[k + 1], shift));
            lemma_scan_keeps(src, n1, src.len() as int, k + 1);
        }
    } else {
        assert forall|i: int| 0 <= i < b.len() implies !is_command(#[trigger] b[i]) by {}
        assert(src.take(src.len() as int) =~= src);
        lemma_scan_skips(a + r, b);
        assert(src =~= (a + r) + b);
    }
}

/// A non-empty run of cursor moves alone assembles to one `PtrInc` whose delta is the
/// signed sum of the moves.
pub proof fn lemma_fold_shift_run(s: Seq<u8>)
    requires
        0 < s.len() <= i32::MAX,
        forall|k: int| 0 <= k < s.len() ==> is_shift_symbol(#[trigger] s[k]),
    ensures
        i32::MIN <= run_sum(s) <= i32::MAX,
        assemble(s) == Ok::<Seq<Inst>, ParseError>(seq![Inst::PtrInc(run_sum(s) as i32)]),
{
    assert forall|k: int| 0 <= k < s.len() implies is_run_symbol(true, #[trigger] s[k]) by {}
    lemma_scan_run(s, true);
    assert(Seq::<Inst>::empty().push(Inst::PtrInc(run_sum(s) as i32)) =~= seq![
        Inst::PtrInc(run_sum(s) as i32),
    ]);
}

/// A non-empty run of cell adjustments alone assembles to one `ValInc` whose delta is
/// the signed sum of the adjustments.
pub proof fn lemma_fold_adjust_run(s: Seq<u8>)
    requires
        0 < s.len() <= i32::MAX,
        forall|k: int| 0 <= k < s.len() ==> is_adjust_symbol(#[trigger] s[k]),
    ensures
        i32::MIN <= run_sum(s) <= i32::MAX,
        assemble(s) == Ok::<Seq<Inst>, ParseError>(seq![Inst::ValInc(run_sum(s) as i32)]),
{
    assert forall|k: int| 0 <= k < s.len() implies is_run_symbol(false, #[trigger] s[k]) by {}
    lemma_scan_run(s, false);
    assert(Seq::<Inst>::empty().push(Inst::ValInc(run_sum(s) as i32)) =~= seq![
        Inst::ValInc(run_sum(s) as i32),
    ]);
}

/// Once a prefix has failed, every longer prefix has failed too.
proof fn lemma_failure_persists(s: Seq<u8>, k: int)
    requires
        0 <= k <= s.len(),
        scan(s.take(k)).failed,
    ensures
        scan(s).failed,
    decreases s.len() - k,
{
    if k < s.len() {
        assert(s.take(k + 1).drop_last() == s.take(k));
        lemma_failure_persists(s, k + 1);
    } else {
        assert(s.take(k) == s);
    }
}

/// How many times `c` occurs in `s`.
pub open spec fn count(s: Seq<u8>, c: u8) -> int
    decreases s.len(),
{
    if s.len() == 0 {
        0
    } else {
        count(s.drop_last(), c) + if s.last() == c {
            1int
        } else {
            0
        }
    }
}

/// No prefix of `s` closes more loops than it opens.
pub open spec fn prefix_balanced(s: Seq<u8>) -> bool {
    forall|k: int| 0 <= k <= s.len() ==> #[trigger] count(s.take(k), CLOSE) <= count(s.take(k), OPEN)
}

proof fn lemma_stack_depth(s: Seq<u8>)
    ensures
        !scan(s).failed ==> scan(s).stack.len() == count(s, OPEN) - count(s, CLOSE),
    decreases s.len(),
{
    if s.len() > 0 {
        lemma_stack_depth(s.drop_last());
    }
}

proof fn lemma_balanced_never_fails(s: Seq<u8>)
    requires
        prefix_balanced(s),
    ensures
        !scan(s).failed,
    decreases s.len(),
{
    if s.len() > 0 {
        let t = s.drop_last();
        assert forall|k: int| 0 <= k <= t.len() implies #[trigger] count(t.take(k), CLOSE) <= count(
            t.take(k),
            OPEN,
        ) by {
            assert(t.take(k) == s.take(k));
        }
        lemma_balanced_never_fails(t);
        lemma_stack_depth(t);
        assert(s.take(s.len() as int) == s);
        assert(count(s.take(s.len() as int), CLOSE) <= count(s.take(s.len() as int), OPEN));
    }
}

/// A source with more loop closes than loop opens fails with `UnmatchedClose`.
pub proof fn lemma_excess_close_fails(s: Seq<u8>)
    requires
        count(s, CLOSE) > count(s, OPEN),
    ensures
        assemble(s) == Err::<Seq<Inst>, ParseError>(ParseError::UnmatchedClose),
{
    lemma_stack_depth(s);
}

/// A source with more loop opens than loop closes, none of whose prefixes closes more
/// than it opens, fails with `UnmatchedOpen`.
pub proof fn lemma_excess_open_fails(s: Seq<u8>)
    requires
        prefix_balanced(s),
        count(s, OPEN) > count(s, CLOSE),
    ensures
        assemble(s) == Err::<Seq<Inst>, ParseError>(ParseError::UnmatchedOpen),
{
    lemma_balanced_never_fails(s);
    lemma_stack_depth(s);
}

/// The `LoopStart` at `i` jumps just past a `LoopEnd` that jumps back just past `i`.
pub open spec fn start_paired(p: Seq<Inst>, i: int) -> bool {
    let t = p[i]->LoopStart_0 as int;
    &&& i + 2 <= t <= p.len()
    &&& p[t - 1] == Inst::LoopEnd((i + 1) as usize)
}

/// The `LoopEnd` at `j` jumps just past a `LoopStart` that jumps back just past `j`.
pub open spec fn end_paired(p: Seq<Inst>, j: int) -> bool {
    let t = p[j]->LoopEnd_0 as int;
    &&& 1 <= t <= j
    &&& p[t - 1] == Inst::LoopStart((j + 1) as usize)
}

/// Every loop instruction of `p` has a partner, and each jumps just past the other.
pub open spec fn jumps_paired(p: Seq<Inst>) -> bool {
    &&& forall|i: int| 0 <= i < p.len() && (#[trigger] p[i]) is LoopStart ==> start_paired(p, i)
    &&& forall|j: int| 0 <= j < p.len() && (#[trigger] p[j]) is LoopEnd ==> end_paired(p, j)
}

/// The loops still open are on the stack in increasing order; every other loop
/// instruction is paired, and no closed loop's start is on the stack.
pub open spec fn paired_state(st: AsmState) -> bool {
    let p = st.prog;
    let k = st.stack;
    &&& forall|a: int| 0 <= a < k.len() ==> (#[trigger] k[a]) < p.len() && p[k[a] as int] is LoopStart
    &&& forall|a: int, b: int| 0 <= a < b < k.len() ==> (#[trigger] k[a]) < (#[trigger] k[b])
    &&& forall|i: int|
        0 <= i < p.len() && (#[trigger] p[i]) is LoopStart && !k.contains(i as usize) ==> start_paired(p, i)
    &&& forall|j: int|
        0 <= j < p.len() && (#[trigger] p[j]) is LoopEnd ==> end_paired(p, j) && !k.contains(
            (p[j]->LoopEnd_0 - 1) as usize,
        )
}

/// The instructions that a state holds or has pending.
pub open spec fn state_size(st: AsmState) -> int {
    st.prog.len() + if st.pending is Nothing {
        0int
    } else {
        1
    }
}

proof fn lemma_flush_paired(st: AsmState)
    requires
        paired_state(st),
    ensures
        paired_state(AsmState { prog: flush(st.prog, st.pending), ..st }),
{
    let p = flush(st.prog, st.pending);
    assert forall|i: int| 0 <= i < st.prog.len() implies #[trigger] p[i] == st.prog[i] by {}
}

proof fn lemma_step_paired(st: AsmState, c: u8, bound: int)
    requires
        !st.failed,
        paired_state(st),
        state_size(st) < bound <= usize::MAX,
        !step(st, c).failed,
    ensures
        paired_state(step(st, c)),
        state_size(step(st, c)) <= state_size(st) + 1,
{
    lemma_flush_paired(st);
    let p = flush(st.prog, st.pending);
    let k = st.stack;
    if c == OPEN {
        let p2 = p.push(Inst::LoopStart(0));
        let k2 = k.push(p.len() as usize);
        assert forall|i: int| 0 <= i < p.len() implies #[trigger] p2[i] == p[i] by {}
        assert forall|i: int|
            0 <= i < p2.len() && (#[trigger] p2[i]) is LoopStart && !k2.contains(i as usize) implies start_paired(p2, i) by {
            assert(i < p.len()) by {
                if i == p.len() {
                    assert(k2[k.len() as int] == i as usize);
                }
            }
            if k.contains(i as usize) {
                let a = choose|a: int| 0 <= a < k.len() && k[a] == i as usize;
                assert(k2[a] == i as usize);
            }
        }
        assert forall|j: int| 0 <= j < p2.len() && (#[trigger] p2[j]) is LoopEnd implies end_paired(p2, j) && !k2.contains(
            (p2[j]->LoopEnd_0 - 1) as usize,
        ) by {
            assert(j < p.len());
            let t = p[j]->LoopEnd_0 as int;
            assert(end_paired(p, j));
            if k2.contains((t - 1) as usize) {
                let a = choose|a: int| 0 <= a < k2.len() && k2[a] == (t - 1) as usize;
                if a < k.len() {
                    assert(k[a] == (t - 1) as usize);
                } else {
                    assert(k2[a] == p.len() as usize);
                }
            }
        }
        assert forall|a: int| 0 <= a < k2.len() implies (#[trigger] k2[a]) < p2.len() && p2[k2[a] as int] is LoopStart by {
            if a < k.len() {
                assert(k2[a] == k[a]);
            }
        }
        assert forall|a: int, b: int| 0 <= a < b < k2.len() implies (#[trigger] k2[a]) < (#[trigger] k2[b]) by {
            assert(k2[a] == k[a]);
            if b < k.len() {
                assert(k2[b] == k[b]);
            }
        }
    } else if c == CLOSE {
        let start = k.last();
        let e = p.len() as int;
        let p2 = p.push(Inst::LoopEnd((start + 1) as usize));
        let p3 = p2.update(start as int, Inst::LoopStart(p2.len() as usize));
        let k2 = k.drop_last();
        assert(start < e);
        assert forall|i: int| 0 <= i < e && i != start implies #[trigger] p3[i] == p[i] by {}
        assert(p3[e as int] == Inst::LoopEnd((start + 1) as usize));
        assert(p3[start as int] == Inst::LoopStart((e + 1) as usize));
        assert forall|a: int| 0 <= a < k2.len() implies k2[a] != start by {
            assert(k[a] < k[k.len() - 1]);
        }
        assert forall|i: int|
            0 <= i < p3.len() && (#[trigger] p3[i]) is LoopStart && !k2.contains(i as usize) implies start_paired(p3, i) by {
            if i != start as int {
                assert(i < e);
                assert(p3[i] == p[i]);
                if k.contains(i as usize) {
                    let a = choose|a: int| 0 <= a < k.len() && k[a] == i as usize;
                    if a < k.len() - 1 {
                        assert(k2[a] == i as usize);
                    }
                }
                let t = p[i]->LoopStart_0 as int;
                assert(start_paired(p, i));
                assert(p[t - 1] is LoopEnd);
                assert(t - 1 != start as int);
                assert(p3[t - 1] == p[t - 1]);
            }
        }
        assert forall|j: int| 0 <= j < p3.len() && (#[trigger] p3[j]) is LoopEnd implies end_paired(p3, j) && !k2.contains(
            (p3[j]->LoopEnd_0 - 1) as usize,
        ) by {
            if j < e {
                assert(j != start as int);
                assert(p3[j] == p[j]);
                let t = p[j]->LoopEnd_0 as int;
                assert(end_paired(p, j));
                assert(!k.contains((t - 1) as usize));
                assert(k.contains(start)) by {
                    assert(k[k.len() - 1] == start);
                }
                assert(t - 1 != start as int);
                assert(p3[t - 1] == p[t - 1]);
                if k2.contains((t - 1) as usize) {
                    let a = choose|a: int| 0 <= a < k2.len() && k2[a] == (t - 1) as usize;
                    assert(k[a] == (t - 1) as usize);
                }
            } else {
                assert(j == e);
                if k2.contains(start) {
                    let a = choose|a: int| 0 <= a < k2.len() && k2[a] == start;
                }
            }
        }
        assert forall|a: int| 0 <= a < k2.len() implies (#[trigger] k2[a]) < p3.len() && p3[k2[a] as int] is LoopStart by {
            assert(k2[a] == k[a]);
            assert(k[a] != start);
        }
        assert forall|a: int, b: int| 0 <= a < b < k2.len() implies (#[trigger] k2[a]) < (#[trigger] k2[b]) by {
            assert(k2[a] == k[a]);
            assert(k2[b] == k[b]);
        }
    } else if c == DOT || c == COMMA {
        let x = if c == DOT { Inst::Output } else { Inst::Input };
        let p2 = p.push(x);
        assert forall|i: int| 0 <= i < p.len() implies #[trigger] p2[i] == p[i] by {}
    } else if is_shift_symbol(c) || is_adjust_symbol(c) {
    }
}

/// The index of the partner of the loop instruction at `x`: one before its target.
pub open spec fn partner(p: Seq<Inst>, x: int) -> int {
    match p[x] {
        Inst::LoopStart(t) => t - 1,
        Inst::LoopEnd(t) => t - 1,
        _ => x,
    }
}

/// Closed loops are nested or disjoint, and no closed loop surrounds a loop still open.
pub open spec fn nested_state(st: AsmState) -> bool {
    let p = st.prog;
    let k = st.stack;
    &&& forall|a: int, c: int|
        0 <= a < c < p.len() && (#[trigger] p[a]) is LoopStart && (#[trigger] p[c]) is LoopStart
            && !k.contains(a as usize) && !k.contains(c as usize) && c < partner(p, a) ==> partner(
            p,
            c,
        ) < partner(p, a)
    &&& forall|a: int, o: usize|
        0 <= a < p.len() && (#[trigger] p[a]) is LoopStart && !k.contains(a as usize) && #[trigger] k.contains(o) && a < o ==> partner(p, a) < o
}

proof fn lemma_open_nested(p: Seq<Inst>, k: Seq<usize>)
    requires
        paired_state(AsmState { prog: p, pending: Pending::Nothing, stack: k, failed: false }),
        nested_state(AsmState { prog: p, pending: Pending::Nothing, stack: k, failed: false }),
        p.len() < usize::MAX,
    ensures
        nested_state(AsmState { prog: p.push(Inst::LoopStart(0)), pending: Pending::Nothing, stack: k.push(p.len() as usize), failed: false }),
{
    let p2 = p.push(Inst::LoopStart(0));
    let k2 = k.push(p.len() as usize);
    assert forall|i: int| 0 <= i < p.len() implies #[trigger] p2[i] == p[i] by {}
    assert forall|a: int, c2: int|
        0 <= a < c2 < p2.len() && (#[trigger] p2[a]) is LoopStart && (#[trigger] p2[c2]) is LoopStart
            && !k2.contains(a as usize) && !k2.contains(c2 as usize) && c2 < partner(p2, a) implies partner(
            p2,
            c2,
        ) < partner(p2, a) by {
        assert(k2[k.len() as int] == p.len() as usize);
        assert(c2 < p.len());
        if k.contains(a as usize) {
            let i = choose|i: int| 0 <= i < k.len() && k[i] == a as usize;
            assert(k2[i] == a as usize);
        }
        if k.contains(c2 as usize) {
            let i = choose|i: int| 0 <= i < k.len() && k[i] == c2 as usize;
            assert(k2[i] == c2 as usize);
        }
    }
    assert forall|a: int, o: usize|
        0 <= a < p2.len() && (#[trigger] p2[a]) is LoopStart && !k2.contains(a as usize) && #[trigger] k2.contains(o) && a < o implies partner(p2, a) < o by {
        assert(k2[k.len() as int] == p.len() as usize);
        assert(a < p.len());
        if k.contains(a as usize) {
            let i = choose|i: int| 0 <= i < k.len() && k[i] == a as usize;
            assert(k2[i] == a as usize);
        }
        assert(start_paired(p, a));
        let i = choose|i: int| 0 <= i < k2.len() && k2[i] == o;
        if i < k.len() {
            assert(k[i] == o);
        } else {
            assert(o as int == p.len());
        }
    }
}

proof fn lemma_close_nested(p: Seq<Inst>, k: Seq<usize>)
    requires
        paired_state(AsmState { prog: p, pending: Pending::Nothing, stack: k, failed: false }),
        nested_state(AsmState { prog: p, pending: Pending::Nothing, stack: k, failed: false }),
        p.len() < usize::MAX,
        k.len() > 0,
    ensures
        nested_state(AsmState {
            prog: p.push(Inst::LoopEnd((k.last() + 1) as usize)).update(
                k.last() as int,
                Inst::LoopStart((p.len() + 1) as usize),
            ),
            pending: Pending::Nothing,
            stack: k.drop_last(),
            failed: false,
        }),
{
    let start = k.last();
    let e = p.len() as int;
    let p2 = p.push(Inst::LoopEnd((start + 1) as usize));
    let p3 = p2.update(start as int, Inst::LoopStart(p2.len() as usize));
    let k2 = k.drop_last();
    assert(k.contains(start)) by {
        assert(k[k.len() - 1] == start);
    }
    assert forall|i: int| 0 <= i < e && i != start implies #[trigger] p3[i] == p[i] by {}
    assert forall|a: int| 0 <= a < k2.len() implies k2[a] < start by {
        assert(k[a] < k[k.len() - 1]);
    }
    assert forall|x: usize| #[trigger] k2.contains(x) implies k.contains(x) by {
        let i = choose|i: int| 0 <= i < k2.len() && k2[i] == x;
        assert(k[i] == x);
    }
    assert forall|a: int, c2: int|
        0 <= a < c2 < p3.len() && (#[trigger] p3[a]) is LoopStart && (#[trigger] p3[c2]) is LoopStart
            && !k2.contains(a as usize) && !k2.contains(c2 as usize) && c2 < partner(p3, a) implies partner(
            p3,
            c2,
        ) < partner(p3, a) by {
        assert(c2 < e);
        if a == start as int {
            assert(p3[c2] == p[c2]);
            if k.contains(c2 as usize) {
                let i = choose|i: int| 0 <= i < k.len() && k[i] == c2 as usize;
                if i < k.len() - 1 {
                    assert(k2[i] == c2 as usize);
                }
            }
            assert(start_paired(p, c2));
        } else if c2 == start as int {
            assert(p3[a] == p[a]);
            if k.contains(a as usize) {
                let i = choose|i: int| 0 <= i < k.len() && k[i] == a as usize;
                if i < k.len() - 1 {
                    assert(k2[i] == a as usize);
                }
            }
            assert(partner(p, a) < start as int);
        } else {
            assert(p3[a] == p[a]);
            assert(p3[c2] == p[c2]);
            if k.contains(a as usize) {
                let i = choose|i: int| 0 <= i < k.len() && k[i] == a as usize;
                if i < k.len() - 1 {
                    assert(k2[i] == a as usize);
                }
            }
            if k.contains(c2 as usize) {
                let i = choose|i: int| 0 <= i < k.len() && k[i] == c2 as usize;
                if i < k.len() - 1 {
                    assert(k2[i] == c2 as usize);
                }
            }
        }
    }
    assert forall|a: int, o: usize|
        0 <= a < p3.len() && (#[trigger] p3[a]) is LoopStart && !k2.contains(a as usize) && #[trigger] k2.contains(o) && a < o implies partner(p3, a) < o by {
        let i = choose|i: int| 0 <= i < k2.len() && k2[i] == o;
        assert(k2[i] < start);
        assert(a < e);
        assert(a != start as int);
        assert(p3[a] == p[a]);
        if k.contains(a as usize) {
            let i2 = choose|i2: int| 0 <= i2 < k.len() && k[i2] == a as usize;
            if i2 < k.len() - 1 {
                assert(k2[i2] == a as usize);
            }
        }
        assert(k.contains(o));
    }
}

proof fn lemma_step_nested(st: AsmState, c: u8, bound: int)
    requires
        !st.failed,
        paired_state(st),
        nested_state(st),
        state_size(st) < bound <= usize::MAX,
        !step(st, c).failed,
    ensures
        nested_state(step(st, c)),
{
    lemma_flush_paired(st);
    let p = flush(st.prog, st.pending);
    let k = st.stack;
    assert forall|i: int| 0 <= i < st.prog.len() implies #[trigger] p[i] == st.prog[i] by {}
    let st1 = AsmState { prog: p, pending: Pending::Nothing, stack: k, failed: false };
    assert(nested_state(st1)) by {
        assert forall|a: int, o: usize|
            0 <= a < p.len() && (#[trigger] p[a]) is LoopStart && !k.contains(a as usize) && #[trigger] k.contains(o) && a < o implies partner(p, a) < o by {
            assert(a < st.prog.len());
        }
    }
    if c == OPEN {
        lemma_open_nested(p, k);
    } else if c == CLOSE {
        lemma_close_nested(p, k);
    } else if c == DOT || c == COMMA {
        let x = if c == DOT { Inst::Output } else { Inst::Input };
        let p2 = p.push(x);
        assert forall|i: int| 0 <= i < p.len() implies #[trigger] p2[i] == p[i] by {}
    }
}

proof fn lemma_scan_paired(s: Seq<u8>)
    requires
        s.len() < usize::MAX,
    ensures
        !scan(s).failed ==> paired_state(scan(s)) && nested_state(scan(s)) && state_size(scan(s))
            <= s.len(),
    decreases s.len(),
{
    if s.len() > 0 {
        let t = s.drop_last();
        lemma_scan_paired(t);
        if !scan(s).failed {
            lemma_step_paired(scan(t), s.last(), s.len() as int);
            lemma_step_nested(scan(t), s.last(), s.len() as int);
        }
    }
}

/// How many `LoopStart` instructions `p` holds.
pub open spec fn count_starts(p: Seq<Inst>) -> int
    decreases p.len(),
{
    if p.len() == 0 {
        0
    } else {
        count_starts(p.drop_last()) + if p.last() is LoopStart {
            1int
        } else {
            0
        }
    }
}

proof fn lemma_update_starts(p: Seq<Inst>, i: int, x: Inst)
    requires
        0 <= i < p.len(),
        p[i] is LoopStart,
        x is LoopStart,
    ensures
        count_starts(p.update(i, x)) == count_starts(p),
    decreases p.len(),
{
    let q = p.update(i, x);
    if i == p.len() - 1 {
        assert(q.drop_last() == p.drop_last());
    } else {
        assert(q.drop_last() == p.drop_last().update(i, x));
        lemma_update_starts(p.drop_last(), i, x);
    }
}

proof fn lemma_scan_starts(s: Seq<u8>)
    requires
        s.len() < usize::MAX,
    ensures
        !scan(s).failed ==> count_starts(scan(s).prog) == count(s, OPEN),
    decreases s.len(),
{
    if s.len() > 0 {
        let t = s.drop_last();
        lemma_scan_starts(t);
        let st = scan(t);
        if !scan(s).failed {
            let c = s.last();
            let p = flush(st.prog, st.pending);
            assert(count_starts(p) == count_starts(st.prog)) by {
                match st.pending {
                    Pending::Nothing => {},
                    Pending::Shift(n) => assert(p.drop_last() == st.prog),
                    Pending::Adjust(n) => assert(p.drop_last() == st.prog),
                }
            }
            if c == OPEN {
                assert(p.push(Inst::LoopStart(0)).drop_last() == p);
            } else if c == CLOSE {
                let start = st.stack.last();
                let p2 = p.push(Inst::LoopEnd((start + 1) as usize));
                assert(p2.drop_last() == p);
                lemma_scan_paired(t);
                lemma_update_starts(p2, start as int, Inst::LoopStart(p2.len() as usize));
            } else if c == DOT {
                assert(p.push(Inst::Output).drop_last() == p);
            } else if c == COMMA {
                assert(p.push(Inst::Input).drop_last() == p);
            } else if is_shift_symbol(c) || is_adjust_symbol(c) {
                match st.pending {
                    Pending::Shift(n) => {},
                    Pending::Adjust(n) => {},
                    Pending::Nothing => {},
                }
            }
        }
    }
}

/// Any two loops of `p` are nested or disjoint.
pub open spec fn loops_nest(p: Seq<Inst>) -> bool {
    forall|a: int, c: int|
        0 <= a < c < p.len() && (#[trigger] p[a]) is LoopStart && (#[trigger] p[c]) is LoopStart
            && c < partner(p, a) ==> partner(p, c) < partner(p, a)
}

/// A source whose loop opens and closes nest properly assembles; in the result each
/// `LoopStart` jumps just past its matching `LoopEnd`, each `LoopEnd` just past its
/// matching `LoopStart`, and the loops nest.
pub proof fn lemma_nested_source_pairs_jumps(s: Seq<u8>)
    requires
        s.len() < usize::MAX,
        prefix_balanced(s),
        count(s, OPEN) == count(s, CLOSE),
    ensures
        assemble(s) is Ok,
        assemble(s)->Ok_0.len() <= s.len(),
        jumps_paired(assemble(s)->Ok_0),
        loops_nest(assemble(s)->Ok_0),
        count_starts(assemble(s)->Ok_0) == count(s, OPEN),
{
    lemma_scan_starts(s);
    lemma_balanced_never_fails(s);
    lemma_stack_depth(s);
    lemma_scan_paired(s);
    let st = scan(s);
    lemma_flush_paired(st);
    let p = flush(st.prog, st.pending);
    assert(count_starts(p) == count_starts(st.prog)) by {
        match st.pending {
            Pending::Nothing => {},
            Pending::Shift(n) => assert(p.drop_last() == st.prog),
            Pending::Adjust(n) => assert(p.drop_last() == st.prog),
        }
    }
    assert forall|i: int| 0 <= i < st.prog.len() implies #[trigger] p[i] == st.prog[i] by {}
    assert forall|i: int| 0 <= i < p.len() && (#[trigger] p[i]) is LoopStart implies start_paired(p, i) by {
        assert(!st.stack.contains(i as usize));
    }
    assert forall|a: int, c: int|
        0 <= a < c < p.len() && (#[trigger] p[a]) is LoopStart && (#[trigger] p[c]) is LoopStart
            && c < partner(p, a) implies partner(p, c) < partner(p, a) by {
        assert(c < st.prog.len());
        assert(!st.stack.contains(a as usize));
        assert(!st.stack.contains(c as usize));
        assert(st.prog[a] is LoopStart && st.prog[c] is LoopStart);
    }
}

fn flush_pending(prog: &mut Vec<Inst>, pending: Pending)
    ensures
        final(prog)@ == flush(old(prog)@, pending),
{
    match pending {
        Pending::Nothing => {},
        Pending::Shift(n) => prog.push(Inst::PtrInc(n)),
        Pending::Adjust(n) => prog.push(Inst::ValInc(n)),
    }
}

/// Assembles source text into flat instructions: runs of `>`/`<` and of `+`/`-` are
/// folded into one instruction each, and every bracket pair gets its jump targets.
pub fn compile(src: &[u8]) -> (r: Result<Vec<Inst>, ParseError>)
    ensures
        match (r, assemble(src@)) {
            (Ok(p), Ok(q)) => p@ == q,
            (Err(e), Err(f)) => e == f,
            _ => false,
        },
{
    let mut prog: Vec<Inst> = Vec::new();
    let mut state = Pending::Nothing;
    let mut stack: Vec<usize> = Vec::new();
    let mut i: usize = 0;
    while i < src.len()
        invariant
            i <= src@.len(),
            scan(src@.take(i as int)) == (AsmState {
                prog: prog@,
                pending: state,
                stack: stack@,
                failed: false,
            }),
            forall|k: int| 0 <= k < stack@.len() ==> #[trigger] stack@[k] < prog@.len(),
        decreases src@.len() - i,
    {
        let c = src[i];
        proof {
            assert(src@.take(i + 1).drop_last() == src@.take(i as int));
            assert(src@.take(i + 1).last() == c);
        }
        if c == RIGHT || c == LEFT {
            let d: i32 = if c == RIGHT { 1 } else { -1 };
            match state {
                Pending::Shift(n) => state = Pending::Shift(n.wrapping_add(d)),
                _ => {
                    flush_pending(&mut prog, state);
                    state = Pending::Shift(d);
                },
            }
        } else if c == PLUS || c == MINUS {
            let d: i32 = if c == PLUS { 1 } else { -1 };
            match state {
                Pending::Adjust(n) => state = Pending::Adjust(n.wrapping_add(d)),
                _ => {
                    flush_pending(&mut prog, state);
                    state = Pending::Adjust(d);
                },
            }
        } else if c == OPEN || c == CLOSE || c == DOT || c == COMMA {
            flush_pending(&mut prog, state);
            state = Pending::Nothing;
            if c == OPEN {
                stack.push(prog.len());
                prog.push(Inst::LoopStart(0));
            } else if c == CLOSE {
                let ghost before = stack@;
                match stack.pop() {
                    None => {
                        proof {
                            lemma_failure_persists(src@, i + 1);
                        }
                        return Err(ParseError::UnmatchedClose);
                    },
                    Some(start) => {
                        let len_now = prog.len();
                        assert(before[before.len() - 1] < len_now);
                        prog.push(Inst::LoopEnd(start + 1));
                        let end = prog.len();
                        prog.set(start, Inst::LoopStart(end));
                    },
                }
            } else if c == DOT {
                prog.push(Inst::Output);
            } else {
                prog.push(Inst::Input);
            }
        }
        i = i + 1;
    }
    proof {
        assert(src@.take(i as int) == src@);
    }
    if stack.len() > 0 {
        return Err(ParseError::UnmatchedOpen);
    }
    flush_pending(&mut prog, state);
    Ok(prog)
}

} // verus!
