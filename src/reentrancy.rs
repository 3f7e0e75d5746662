use vstd::prelude::*;

use crate::classifier::{classify_spec, classify_statement, roles_assigned, CallKind};
use crate::cfg::BasicBlock;
use crate::dataflow::{
    below_all, block_out, blocks_fit, in_state, is_fixpoint, is_least_fixpoint, stable, transfer_range,
    Analysis,
};
use crate::function::Function;
use crate::ir::Statement;

verus! {

/// Taint status of the reentrancy analysis, from bottom to top.
#[derive(Clone, Copy, PartialEq, Eq, Debug, Structural)]
pub enum ReentrancyState {
    /// Not reached yet
    Unvisited,
    /// No external call on any path reaching here
    Clean,
    /// An external or library call on some path reaching here
    CallMade,
    /// A storage write after an external call on some path
    WriteAfterCall,
}

pub open spec fn rank(s: ReentrancyState) -> nat {
    match s {
        ReentrancyState::Unvisited => 0,
        ReentrancyState::Clean => 1,
        ReentrancyState::CallMade => 2,
        ReentrancyState::WriteAfterCall => 3,
    }
}

/// The larger of two states.
pub open spec fn join_state(a: ReentrancyState, b: ReentrancyState) -> ReentrancyState {
    if rank(a) >= rank(b) {
        a
    } else {
        b
    }
}

/// Effect of one statement, given its call bucket.
pub open spec fn step(s: ReentrancyState, kind: Option<CallKind>) -> ReentrancyState {
    match kind {
        Some(CallKind::External) | Some(CallKind::Library) => join_state(
            s,
            ReentrancyState::CallMade,
        ),
        Some(CallKind::StorageWrite) => if rank(s) >= 2 {
            ReentrancyState::WriteAfterCall
        } else {
            s
        },
        _ => s,
    }
}

fn rank_of(s: ReentrancyState) -> (r: u8)
    ensures
        r == rank(s),
{
    match s {
        ReentrancyState::Unvisited => 0,
        ReentrancyState::Clean => 1,
        ReentrancyState::CallMade => 2,
        ReentrancyState::WriteAfterCall => 3,
    }
}

/// The larger of two states.
pub fn join_states(a: ReentrancyState, b: ReentrancyState) -> (r: ReentrancyState)
    ensures
        r == join_state(a, b),
{
    if rank_of(a) >= rank_of(b) {
        a
    } else {
        b
    }
}

/// Effect of one statement, given its call bucket.
pub fn step_state(s: ReentrancyState, kind: Option<CallKind>) -> (r: ReentrancyState)
    ensures
        r == step(s, kind),
{
    match kind {
        Some(CallKind::External) | Some(CallKind::Library) => join_states(
            s,
            ReentrancyState::CallMade,
        ),
        Some(CallKind::StorageWrite) => if rank_of(s) >= 2 {
            ReentrancyState::WriteAfterCall
        } else {
            s
        },
        _ => s,
    }
}

/// Flags a storage write that may follow an external or library call.
pub struct ReentrancyAnalysis;

impl Analysis for ReentrancyAnalysis {
    type State = ReentrancyState;

    open spec fn bottom_spec() -> ReentrancyState {
        ReentrancyState::Unvisited
    }

    open spec fn initial_spec() -> ReentrancyState {
        ReentrancyState::Clean
    }

    open spec fn join_spec(a: ReentrancyState, b: ReentrancyState) -> ReentrancyState {
        join_state(a, b)
    }

    open spec fn transfer_spec(s: ReentrancyState, st: Statement, fs: Seq<Function>) -> ReentrancyState {
        step(s, classify_spec(st, fs))
    }

    open spec fn height(s: ReentrancyState) -> nat {
        rank(s)
    }

    open spec fn max_height() -> nat {
        3
    }

    fn bottom(&self) -> (r: ReentrancyState) {
        ReentrancyState::Unvisited
    }

    fn initial(&self) -> (r: ReentrancyState) {
        ReentrancyState::Clean
    }

    fn join(&self, a: ReentrancyState, b: ReentrancyState) -> (r: ReentrancyState) {
        join_states(a, b)
    }

    fn transfer(&self, s: ReentrancyState, st: &Statement, fs: &[Function]) -> (r: ReentrancyState) {
        step_state(s, classify_statement(st, fs))
    }

    fn same(&self, a: ReentrancyState, b: ReentrancyState) -> (r: bool) {
        a == b
    }

    proof fn lemma_height_bounded(s: ReentrancyState) {
    }

    proof fn lemma_join_grows(a: ReentrancyState, b: ReentrancyState) {
    }

    proof fn lemma_join_commutes(a: ReentrancyState, b: ReentrancyState) {
    }

    proof fn lemma_join_associates(a: ReentrancyState, b: ReentrancyState, c: ReentrancyState) {
    }

    proof fn lemma_join_idempotent(a: ReentrancyState) {
    }

    proof fn lemma_bottom_least(a: ReentrancyState) {
    }

    proof fn lemma_transfer_monotone(
        a: ReentrancyState,
        b: ReentrancyState,
        st: Statement,
        fs: Seq<Function>,
    ) {
    }
}

/// The statement is an external-interface or library-interface call.
pub open spec fn is_outside_call(st: Statement, fs: Seq<Function>) -> bool {
    classify_spec(st, fs) == Some(CallKind::External) || classify_spec(st, fs) == Some(
        CallKind::Library,
    )
}

spec fn tr(s: ReentrancyState, stmts: Seq<Statement>, fs: Seq<Function>, lo: int, hi: int) -> ReentrancyState {
    transfer_range::<ReentrancyAnalysis>(s, stmts, fs, lo, hi)
}

proof fn lemma_tr_extensive(s: ReentrancyState, stmts: Seq<Statement>, fs: Seq<Function>, lo: int, hi: int)
    ensures
        rank(tr(s, stmts, fs, lo, hi)) >= rank(s),
    decreases hi - lo,
{
    if lo < hi {
        lemma_tr_extensive(step(s, classify_spec(stmts[lo], fs)), stmts, fs, lo + 1, hi);
    }
}

proof fn lemma_tr_split(s: ReentrancyState, stmts: Seq<Statement>, fs: Seq<Function>, lo: int, mid: int, hi: int)
    requires
        lo <= mid <= hi,
    ensures
        tr(s, stmts, fs, lo, hi) == tr(tr(s, stmts, fs, lo, mid), stmts, fs, mid, hi),
    decreases mid - lo,
{
    if lo < mid {
        lemma_tr_split(step(s, classify_spec(stmts[lo], fs)), stmts, fs, lo + 1, mid, hi);
    }
}

/// A call in `[lo, hi)` leaves the state at least `CallMade`.
proof fn lemma_tr_call(s: ReentrancyState, stmts: Seq<Statement>, fs: Seq<Function>, lo: int, c: int, hi: int)
    requires
        lo <= c < hi,
        is_outside_call(stmts[c], fs),
    ensures
        rank(tr(s, stmts, fs, lo, hi)) >= 2,
{
    lemma_tr_split(s, stmts, fs, lo, c, hi);
    let sc = tr(s, stmts, fs, lo, c);
    assert(tr(sc, stmts, fs, c, hi) == tr(step(sc, classify_spec(stmts[c], fs)), stmts, fs, c + 1, hi));
    lemma_tr_extensive(step(sc, classify_spec(stmts[c], fs)), stmts, fs, c + 1, hi);
}

/// A storage write in `[lo, hi)`, from a state at least `CallMade`, ends in `WriteAfterCall`.
proof fn lemma_tr_write(s: ReentrancyState, stmts: Seq<Statement>, fs: Seq<Function>, lo: int, w: int, hi: int)
    requires
        lo <= w < hi,
        rank(s) >= 2,
        classify_spec(stmts[w], fs) == Some(CallKind::StorageWrite),
    ensures
        tr(s, stmts, fs, lo, hi) == ReentrancyState::WriteAfterCall,
{
    lemma_tr_split(s, stmts, fs, lo, w, hi);
    let sw = tr(s, stmts, fs, lo, w);
    lemma_tr_extensive(s, stmts, fs, lo, w);
    assert(tr(sw, stmts, fs, w, hi) == tr(ReentrancyState::WriteAfterCall, stmts, fs, w + 1, hi));
    lemma_tr_extensive(ReentrancyState::WriteAfterCall, stmts, fs, w + 1, hi);
}

/// The in-state of a block is at least the out-state of each of its predecessors.
proof fn lemma_in_state_above_pred(
    blocks: Seq<BasicBlock>,
    outs: Seq<ReentrancyState>,
    p: int,
    q: int,
    k: int,
)
    requires
        0 <= p < k,
        blocks[p].successors@.contains(q as usize),
    ensures
        rank(in_state::<ReentrancyAnalysis>(blocks, outs, q, k)) >= rank(outs[p]),
    decreases k,
{
    if k - 1 > p {
        lemma_in_state_above_pred(blocks, outs, p, q, k - 1);
    }
}

spec fn path_ok(blocks: Seq<BasicBlock>, path: Seq<usize>) -> bool {
    &&& path.len() > 0
    &&& forall|i: int| 0 <= i < path.len() ==> (#[trigger] path[i]) < blocks.len()
    &&& forall|i: int|
        0 < i < path.len() ==> blocks[path[i - 1] as int].successors@.contains(#[trigger] path[i])
}

proof fn lemma_tainted_along(
    stmts: Seq<Statement>,
    fs: Seq<Function>,
    blocks: Seq<BasicBlock>,
    outs: Seq<ReentrancyState>,
    path: Seq<usize>,
    c: int,
    i: int,
)
    requires
        is_fixpoint::<ReentrancyAnalysis>(stmts, fs, blocks, outs),
        path_ok(blocks, path),
        blocks[path[0] as int].start <= c < blocks[path[0] as int].end,
        is_outside_call(stmts[c], fs),
        0 <= i < path.len(),
    ensures
        rank(outs[path[i] as int]) >= 2,
    decreases i,
{
    let b = path[i] as int;
    let n = blocks.len() as int;
    let ins = in_state::<ReentrancyAnalysis>(blocks, outs, b, n);
    if i == 0 {
        lemma_tr_call(ins, stmts, fs, blocks[b].start as int, c, blocks[b].end as int);
    } else {
        lemma_tainted_along(stmts, fs, blocks, outs, path, c, i - 1);
        assert(blocks[path[i - 1] as int].successors@.contains(path[i]));
        lemma_in_state_above_pred(blocks, outs, path[i - 1] as int, b, n);
        lemma_tr_extensive(ins, stmts, fs, blocks[b].start as int, blocks[b].end as int);
    }
    assert(stable::<ReentrancyAnalysis>(stmts, fs, blocks, outs, b));
}

/// Soundness: if some path of blocks holds an external or library call and then, later on
/// the path, a storage write, the block holding the write ends in `WriteAfterCall` in any
/// fixpoint of the reentrancy analysis.
pub proof fn lemma_call_then_write_flagged(
    stmts: Seq<Statement>,
    fs: Seq<Function>,
    blocks: Seq<BasicBlock>,
    outs: Seq<ReentrancyState>,
    path: Seq<usize>,
    c: int,
    w: int,
)
    requires
        is_fixpoint::<ReentrancyAnalysis>(stmts, fs, blocks, outs),
        path.len() > 0,
        forall|i: int| 0 <= i < path.len() ==> (#[trigger] path[i]) < blocks.len(),
        forall|i: int|
            0 < i < path.len() ==> blocks[path[i - 1] as int].successors@.contains(#[trigger] path[i]),
        blocks[path[0] as int].start <= c < blocks[path[0] as int].end,
        is_outside_call(stmts[c], fs),
        blocks[path.last() as int].start <= w < blocks[path.last() as int].end,
        classify_spec(stmts[w], fs) == Some(CallKind::StorageWrite),
        path.len() == 1 ==> c < w,
    ensures
        outs[path.last() as int] == ReentrancyState::WriteAfterCall,
{
    let m = path.len() - 1;
    let b = path[m] as int;
    let n = blocks.len() as int;
    let ins = in_state::<ReentrancyAnalysis>(blocks, outs, b, n);
    let lo = blocks[b].start as int;
    let hi = blocks[b].end as int;
    if m == 0 {
        lemma_tr_split(ins, stmts, fs, lo, c + 1, hi);
        lemma_tr_call(ins, stmts, fs, lo, c, c + 1);
        lemma_tr_write(tr(ins, stmts, fs, lo, c + 1), stmts, fs, c + 1, w, hi);
    } else {
        lemma_tainted_along(stmts, fs, blocks, outs, path, c, m - 1);
        assert(blocks[path[m - 1] as int].successors@.contains(path[m]));
        lemma_in_state_above_pred(blocks, outs, path[m - 1] as int, b, n);
        lemma_tr_write(ins, stmts, fs, lo, w, hi);
    }
    assert(stable::<ReentrancyAnalysis>(stmts, fs, blocks, outs, b));
}

proof fn lemma_in_state_clean(blocks: Seq<BasicBlock>, u: Seq<ReentrancyState>, q: int, k: int)
    requires
        k <= u.len(),
        forall|b: int| 0 <= b < u.len() ==> rank(#[trigger] u[b]) <= 1,
    ensures
        rank(in_state::<ReentrancyAnalysis>(blocks, u, q, k)) <= 1,
    decreases k,
{
    if k > 0 {
        lemma_in_state_clean(blocks, u, q, k - 1);
    }
}

proof fn lemma_tr_clean(s: ReentrancyState, stmts: Seq<Statement>, fs: Seq<Function>, lo: int, hi: int)
    requires
        rank(s) <= 1,
        0 <= lo,
        hi <= stmts.len(),
        forall|i: int| 0 <= i < stmts.len() ==> !is_outside_call(#[trigger] stmts[i], fs),
    ensures
        rank(tr(s, stmts, fs, lo, hi)) <= 1,
    decreases hi - lo,
{
    if lo < hi {
        assert(!is_outside_call(stmts[lo], fs));
        lemma_tr_clean(step(s, classify_spec(stmts[lo], fs)), stmts, fs, lo + 1, hi);
    }
}

/// A function with no external or library call has no block above `Clean` in the result
/// of the reentrancy analysis.
pub proof fn lemma_no_calls_stay_clean(
    stmts: Seq<Statement>,
    fs: Seq<Function>,
    blocks: Seq<BasicBlock>,
    outs: Seq<ReentrancyState>,
)
    requires
        is_least_fixpoint::<ReentrancyAnalysis>(stmts, fs, blocks, outs),
        blocks_fit(stmts, blocks),
        forall|i: int| 0 <= i < stmts.len() ==> !is_outside_call(#[trigger] stmts[i], fs),
    ensures
        forall|b: int| 0 <= b < outs.len() ==> rank(#[trigger] outs[b]) <= 1,
{
    let n = blocks.len();
    let u = Seq::new(n, |b: int| ReentrancyState::Clean);
    assert forall|b: int| 0 <= b < n implies #[trigger] stable::<ReentrancyAnalysis>(
        stmts,
        fs,
        blocks,
        u,
        b,
    ) by {
        lemma_in_state_clean(blocks, u, b, n as int);
        lemma_tr_clean(
            in_state::<ReentrancyAnalysis>(blocks, u, b, n as int),
            stmts,
            fs,
            blocks[b].start as int,
            blocks[b].end as int,
        );
        assert(rank(block_out::<ReentrancyAnalysis>(stmts, fs, blocks, u, b)) <= 1);
    }
    assert(is_fixpoint::<ReentrancyAnalysis>(stmts, fs, blocks, u));
    assert(below_all::<ReentrancyAnalysis>(outs, u));
    assert forall|b: int| 0 <= b < outs.len() implies rank(#[trigger] outs[b]) <= 1 by {
        assert(join_state(outs[b], u[b]) == u[b]);
    }
}

} // verus!
