use vstd::prelude::*;

use crate::dataflow::blocks_fit;
use crate::ir::{
    names_index, branches_of, is_terminator, statement_is_terminator, target_offset, targets_in_range,
    BranchTarget, Statement,
};

verus! {

/// A maximal straight-line run of statements `[start, end)`.
#[derive(Clone, Debug)]
pub struct BasicBlock {
    pub id: usize,
    pub start: usize,
    pub end: usize,
    /// Identifiers of the successor blocks, without repetition.
    pub successors: Vec<usize>,
}

/// A control-flow graph whose blocks partition a function's statements.
#[derive(Clone, Debug)]
pub struct CfgRegular {
    blocks: Vec<BasicBlock>,
}

/// Whether one of the first `k` branches of the statement at `i` names index `t` explicitly.
pub open spec fn branch_names(stmts: Seq<Statement>, entry: int, i: int, k: int, t: int) -> bool
    decreases k,
{
    k > 0 && (names_index(branches_of(stmts[i])[k - 1], entry, t) || branch_names(
        stmts,
        entry,
        i,
        k - 1,
        t,
    ))
}

/// Whether a statement in `[0, i)` branches explicitly to index `t`.
pub open spec fn targeted_before(stmts: Seq<Statement>, entry: int, i: int, t: int) -> bool
    decreases i,
{
    i > 0 && (branch_names(stmts, entry, i - 1, branches_of(stmts[i - 1]).len() as int, t)
        || targeted_before(stmts, entry, i - 1, t))
}

/// Whether some statement branches explicitly to index `t`.
pub open spec fn is_branch_target(stmts: Seq<Statement>, entry: int, t: int) -> bool {
    targeted_before(stmts, entry, stmts.len() as int, t)
}

/// Whether a block starts at index `t`: the first statement, a branch target, or the
/// statement after a terminator.
pub open spec fn is_leader(stmts: Seq<Statement>, entry: int, t: int) -> bool {
    0 <= t < stmts.len() && (t == 0 || is_branch_target(stmts, entry, t) || (0 < t
        && is_terminator(stmts[t - 1])))
}

/// The first `k` branch indices of the statement at `at` that lie before the end, each once.
pub open spec fn targets_prefix(stmts: Seq<Statement>, entry: int, at: int, k: int) -> Seq<int>
    decreases k,
{
    if k <= 0 {
        Seq::empty()
    } else {
        let p = targets_prefix(stmts, entry, at, k - 1);
        let t = target_offset(branches_of(stmts[at])[k - 1], at, entry);
        if t >= stmts.len() || p.contains(t) {
            p
        } else {
            p.push(t)
        }
    }
}

/// Where control may go after the statement at `at`, in branch order, each index once.
pub open spec fn block_targets(stmts: Seq<Statement>, entry: int, at: int) -> Seq<int> {
    targets_prefix(stmts, entry, at, branches_of(stmts[at]).len() as int)
}

/// Start offsets of the given block identifiers.
pub open spec fn starts_of(blocks: Seq<BasicBlock>, ids: Seq<usize>) -> Seq<int> {
    ids.map_values(|s: usize| blocks[s as int].start as int)
}

/// The blocks partition the statements in order, start at leaders and only there, and
/// link to the blocks where control goes from their last statement. The first statement
/// sits at program offset `entry`, so an explicit branch to offset `o` leads to the block
/// that starts at index `o - entry`.
pub open spec fn cfg_wf(stmts: Seq<Statement>, entry: int, blocks: Seq<BasicBlock>) -> bool {
    &&& blocks.len() > 0
    &&& blocks[0].start == 0
    &&& blocks.last().end == stmts.len()
    &&& forall|b: int| 0 <= b < blocks.len() ==> (#[trigger] blocks[b]).id == b
    &&& forall|b: int| 0 <= b < blocks.len() ==> (#[trigger] blocks[b]).start < blocks[b].end
    &&& forall|b: int| 0 <= b < blocks.len() - 1 ==> (#[trigger] blocks[b]).end == blocks[b + 1].start
    &&& forall|b: int| 0 <= b < blocks.len() ==> is_leader(stmts, entry, (#[trigger] blocks[b]).start as int)
    &&& forall|b: int, o: int|
        #![trigger blocks[b], is_leader(stmts, entry, o)]
        0 <= b < blocks.len() && blocks[b].start < o < blocks[b].end ==> !is_leader(
            stmts,
            entry,
            o,
        )
    &&& forall|b: int, j: int|
        0 <= b < blocks.len() && 0 <= j < blocks[b].successors@.len() ==> (#[trigger] blocks[b].successors@[j])
            < blocks.len()
    &&& forall|b: int|
        0 <= b < blocks.len() ==> starts_of(blocks, (#[trigger] blocks[b]).successors@) == block_targets(
            stmts,
            entry,
            blocks[b].end - 1,
        )
}

proof fn lemma_branch_names(stmts: Seq<Statement>, entry: int, i: int, k: int, k2: int, t: int)
    requires
        0 <= k2 < k <= branches_of(stmts[i]).len(),
        names_index(branches_of(stmts[i])[k2], entry, t),
    ensures
        branch_names(stmts, entry, i, k, t),
    decreases k,
{
    if k2 < k - 1 {
        lemma_branch_names(stmts, entry, i, k - 1, k2, t);
    }
}

proof fn lemma_targeted_before(stmts: Seq<Statement>, entry: int, i: int, i2: int, k2: int, t: int)
    requires
        0 <= i2 < i,
        0 <= k2 < branches_of(stmts[i2]).len(),
        names_index(branches_of(stmts[i2])[k2], entry, t),
    ensures
        targeted_before(stmts, entry, i, t),
    decreases i,
{
    if i2 == i - 1 {
        lemma_branch_names(stmts, entry, i2, branches_of(stmts[i2]).len() as int, k2, t);
    } else {
        lemma_targeted_before(stmts, entry, i - 1, i2, k2, t);
    }
}

/// An explicit branch target names a statement of the list.
proof fn lemma_targeted_in_range(stmts: Seq<Statement>, entry: int, i: int, t: int)
    requires
        targets_in_range(stmts, entry),
        i <= stmts.len(),
        targeted_before(stmts, entry, i, t),
    ensures
        0 <= t < stmts.len(),
    decreases i,
{
    if branch_names(stmts, entry, i - 1, branches_of(stmts[i - 1]).len() as int, t) {
        lemma_branch_names_in_range(stmts, entry, i - 1, branches_of(stmts[i - 1]).len() as int, t);
    } else {
        lemma_targeted_in_range(stmts, entry, i - 1, t);
    }
}

proof fn lemma_branch_names_in_range(stmts: Seq<Statement>, entry: int, i: int, k: int, t: int)
    requires
        targets_in_range(stmts, entry),
        0 <= i < stmts.len(),
        k <= branches_of(stmts[i]).len(),
        branch_names(stmts, entry, i, k, t),
    ensures
        0 <= t < stmts.len(),
    decreases k,
{
    let b = branches_of(stmts[i])[k - 1];
    if names_index(b, entry, t) {
        assert(branches_of(stmts[i])[k - 1] == b);
    } else {
        lemma_branch_names_in_range(stmts, entry, i, k - 1, t);
    }
}

/// Marks the indices where a block starts.
fn find_leaders(stmts: &Vec<Statement>, entry: usize) -> (leader: Vec<bool>)
    requires
        stmts@.len() > 0,
        targets_in_range(stmts@, entry as int),
    ensures
        leader@.len() == stmts@.len(),
        forall|t: int| 0 <= t < stmts@.len() ==> #[trigger] leader@[t] == is_leader(stmts@, entry as int, t),
{
    let n = stmts.len();
    let mut leader: Vec<bool> = Vec::new();
    let mut j: usize = 0;
    while j < n
        invariant
            j <= n,
            leader@.len() == j,
            forall|t: int| 0 <= t < j ==> !leader@[t],
        decreases n - j,
    {
        leader.push(false);
        j = j + 1;
    }
    leader.set(0, true);
    let mut i: usize = 0;
    while i < n
        invariant
            i <= n,
            n == stmts@.len(),
            leader@.len() == n,
            forall|t: int|
                0 <= t < n ==> #[trigger] leader@[t] == (t == 0 || targeted_before(
                    stmts@,
                    entry as int,
                    i as int,
                    t,
                ) || (0 < t <= i && is_terminator(stmts@[t - 1]))),
        decreases n - i,
    {
        let nb: usize = match &stmts[i] {
            Statement::Invocation(inv) => inv.branches.len(),
            Statement::Return(_) => 0,
        };
        let mut k: usize = 0;
        while k < nb
            invariant
                i < n,
                n == stmts@.len(),
                leader@.len() == n,
                k <= nb,
                nb == branches_of(stmts@[i as int]).len(),
                forall|t: int|
                    0 <= t < n ==> #[trigger] leader@[t] == (t == 0 || targeted_before(
                        stmts@,
                        entry as int,
                        i as int,
                        t,
                    ) || branch_names(stmts@, entry as int, i as int, k as int, t) || (0 < t <= i
                        && is_terminator(stmts@[t - 1]))),
            decreases nb - k,
        {
            let b = match &stmts[i] {
                Statement::Invocation(inv) => inv.branches[k],
                Statement::Return(_) => BranchTarget::Fallthrough,
            };
            assert(b == branches_of(stmts@[i as int])[k as int]);
            match b {
                BranchTarget::Statement(o) => {
                    if o >= entry && o - entry < n {
                        leader.set(o - entry, true);
                    }
                },
                BranchTarget::Fallthrough => {},
            }
            k = k + 1;
        }
        if statement_is_terminator(&stmts[i]) && i + 1 < n {
            leader.set(i + 1, true);
        }
        i = i + 1;
    }
    proof {
        assert forall|t: int| 0 <= t < stmts@.len() implies #[trigger] leader@[t] == is_leader(
            stmts@,
            entry as int,
            t,
        ) by {
            if targeted_before(stmts@, entry as int, n as int, t) {
                lemma_targeted_in_range(stmts@, entry as int, n as int, t);
            }
        }
    }
    leader
}

/// Start offsets of the given span indices.
spec fn span_starts(spans: Seq<(usize, usize)>, ids: Seq<usize>) -> Seq<int> {
    ids.map_values(|s: usize| spans[s as int].0 as int)
}

/// The spans lie back to back, each non-empty.
spec fn spans_chained(spans: Seq<(usize, usize)>) -> bool {
    &&& forall|b: int| 0 <= b < spans.len() ==> (#[trigger] spans[b]).0 < spans[b].1
    &&& forall|b: int| 0 <= b < spans.len() - 1 ==> (#[trigger] spans[b]).1 == spans[b + 1].0
}

proof fn lemma_starts_increasing(spans: Seq<(usize, usize)>, a: int, b: int)
    requires
        spans_chained(spans),
        0 <= a < b < spans.len(),
    ensures
        spans[a].0 < spans[b].0,
    decreases b - a,
{
    assert(spans[b - 1].1 == spans[b].0);
    if a < b - 1 {
        lemma_starts_increasing(spans, a, b - 1);
    }
}

/// Cuts `[first, n)` into spans at the leaders; `block_of` maps each offset to its span.
fn partition(n: usize, first: usize, leader: &Vec<bool>) -> (res: (Vec<(usize, usize)>, Vec<usize>))
    requires
        first < n,
        leader@.len() == n,
        leader@[first as int],
    ensures
        res.0@.len() > 0,
        res.0@[0].0 == first,
        res.0@.last().1 == n,
        spans_chained(res.0@),
        forall|b: int| 0 <= b < res.0@.len() ==> leader@[(#[trigger] res.0@[b]).0 as int],
        forall|b: int, o: int|
            #![trigger res.0@[b], leader@[o]]
            0 <= b < res.0@.len() && res.0@[b].0 < o < res.0@[b].1 ==> !leader@[o],
        res.1@.len() == n,
        forall|o: int|
            first <= o < n ==> (#[trigger] res.1@[o]) < res.0@.len() && res.0@[res.1@[o] as int].0 <= o
                < res.0@[res.1@[o] as int].1,
{
    let mut spans: Vec<(usize, usize)> = Vec::new();
    let mut block_of: Vec<usize> = Vec::new();
    let mut o: usize = 0;
    while o <= first
        invariant
            o <= first + 1,
            first < n,
            block_of@.len() == o,
            forall|p: int| 0 <= p < o ==> block_of@[p] == 0,
        decreases first + 1 - o,
    {
        block_of.push(0);
        o = o + 1;
    }
    let mut cs: usize = first;
    let mut i: usize = first + 1;
    while i < n
        invariant
            first <= cs < i <= n,
            leader@.len() == n,
            leader@[cs as int],
            block_of@.len() == i,
            spans@.len() == 0 ==> cs == first,
            spans@.len() > 0 ==> spans@[0].0 == first && spans@.last().1 == cs,
            spans_chained(spans@),
            forall|b: int| 0 <= b < spans@.len() ==> leader@[(#[trigger] spans@[b]).0 as int],
            forall|b: int, p: int|
                #![trigger spans@[b], leader@[p]]
                0 <= b < spans@.len() && spans@[b].0 < p < spans@[b].1 ==> !leader@[p],
            forall|p: int| cs < p < i ==> !leader@[p],
            forall|p: int| cs <= p < i ==> block_of@[p] == spans@.len(),
            forall|p: int|
                first <= p < cs ==> (#[trigger] block_of@[p]) < spans@.len() && spans@[block_of@[p] as int].0
                    <= p < spans@[block_of@[p] as int].1,
        decreases n - i,
    {
        if leader[i] {
            spans.push((cs, i));
            cs = i;
        }
        block_of.push(spans.len());
        i = i + 1;
    }
    spans.push((cs, n));
    (spans, block_of)
}

/// What the successor computation needs of the leaders, spans and `block_of`.
#[verifier::opaque]
spec fn layout_ok(
    stmts: Seq<Statement>,
    entry: int,
    leader: Seq<bool>,
    spans: Seq<(usize, usize)>,
    block_of: Seq<usize>,
) -> bool {
    &&& stmts.len() > 0
    &&& targets_in_range(stmts, entry)
    &&& leader.len() == stmts.len()
    &&& forall|t: int| 0 <= t < stmts.len() ==> #[trigger] leader[t] == is_leader(stmts, entry, t)
    &&& spans.len() > 0
    &&& spans[0].0 == 0
    &&& spans.last().1 == stmts.len()
    &&& spans_chained(spans)
    &&& forall|c: int| 0 <= c < spans.len() ==> leader[(#[trigger] spans[c]).0 as int]
    &&& forall|c: int, o: int|
        #![trigger spans[c], leader[o]]
        0 <= c < spans.len() && spans[c].0 < o < spans[c].1 ==> !leader[o]
    &&& block_of.len() == stmts.len()
    &&& forall|o: int|
        0 <= o < stmts.len() ==> (#[trigger] block_of[o]) < spans.len() && spans[block_of[o] as int].0
            <= o < spans[block_of[o] as int].1
}

/// An explicit branch target, or the statement after a terminator, starts a block.
proof fn lemma_target_is_leader(stmts: Seq<Statement>, entry: int, last: int, k: int)
    requires
        targets_in_range(stmts, entry),
        0 <= last < stmts.len(),
        0 <= k < branches_of(stmts[last]).len(),
        target_offset(branches_of(stmts[last])[k], last, entry) < stmts.len(),
        is_terminator(stmts[last]) || branches_of(stmts[last])[k] != BranchTarget::Fallthrough,
    ensures
        is_leader(stmts, entry, target_offset(branches_of(stmts[last])[k], last, entry)),
{
    let br = branches_of(stmts[last])[k];
    let t = target_offset(br, last, entry);
    match br {
        BranchTarget::Statement(o) => {
            assert(entry <= o < entry + stmts.len());
            lemma_targeted_before(stmts, entry, stmts.len() as int, last, k, t);
        },
        BranchTarget::Fallthrough => {},
    }
}

/// A leader in range starts the span that holds it.
proof fn lemma_leader_starts_span(
    stmts: Seq<Statement>,
    entry: int,
    leader: Seq<bool>,
    spans: Seq<(usize, usize)>,
    block_of: Seq<usize>,
    t: int,
)
    requires
        layout_ok(stmts, entry, leader, spans, block_of),
        0 <= t < stmts.len(),
        leader[t],
    ensures
        block_of[t] < spans.len(),
        spans[block_of[t] as int].0 == t,
{
    reveal(layout_ok);
    assert(spans[block_of[t] as int].0 <= t < spans[block_of[t] as int].1);
}

/// A leader in range is marked.
proof fn lemma_leader_marked(
    stmts: Seq<Statement>,
    entry: int,
    leader: Seq<bool>,
    spans: Seq<(usize, usize)>,
    block_of: Seq<usize>,
    t: int,
)
    requires
        layout_ok(stmts, entry, leader, spans, block_of),
        is_leader(stmts, entry, t),
    ensures
        leader[t],
{
    reveal(layout_ok);
}

/// The span after `b` starts at a marked leader.
proof fn lemma_next_span(
    stmts: Seq<Statement>,
    entry: int,
    leader: Seq<bool>,
    spans: Seq<(usize, usize)>,
    block_of: Seq<usize>,
    b: int,
)
    requires
        layout_ok(stmts, entry, leader, spans, block_of),
        0 <= b < spans.len(),
        spans[b].1 < stmts.len(),
    ensures
        b + 1 < spans.len(),
        spans[b].1 == spans[b + 1].0,
        leader[spans[b].1 as int],
{
    reveal(layout_ok);
    if b == spans.len() - 1 {
        assert(spans.last() == spans[b]);
    }
    assert(leader[spans[b + 1].0 as int]);
}

proof fn lemma_span_end_le_last(spans: Seq<(usize, usize)>, b: int)
    requires
        spans_chained(spans),
        0 <= b < spans.len(),
    ensures
        spans[b].1 <= spans.last().1,
    decreases spans.len() - b,
{
    if b < spans.len() - 1 {
        assert(spans[b].1 == spans[b + 1].0);
        lemma_span_end_le_last(spans, b + 1);
    }
}

proof fn lemma_span_start_ge_first(spans: Seq<(usize, usize)>, b: int)
    requires
        spans_chained(spans),
        0 <= b < spans.len(),
    ensures
        spans[0].0 <= spans[b].0,
{
    if b > 0 {
        lemma_starts_increasing(spans, 0, b);
    }
}

proof fn lemma_layout_basics(
    stmts: Seq<Statement>,
    entry: int,
    leader: Seq<bool>,
    spans: Seq<(usize, usize)>,
    block_of: Seq<usize>,
    t: int,
)
    requires
        layout_ok(stmts, entry, leader, spans, block_of),
    ensures
        stmts.len() > 0,
        spans_chained(spans),
        spans.len() > 0,
        spans[0].0 == 0,
        spans.last().1 == stmts.len(),
        block_of.len() == stmts.len(),
        0 <= t < stmts.len() ==> block_of[t] < spans.len(),
        targets_in_range(stmts, entry),
{
    reveal(layout_ok);
}

/// Identifiers of the blocks where control goes from the last statement of a block.
#[verifier::rlimit(50)]
fn successors_of(
    stmts: &Vec<Statement>,
    entry: usize,
    leader: &Vec<bool>,
    spans: &Vec<(usize, usize)>,
    block_of: &Vec<usize>,
    b: usize,
) -> (succ: Vec<usize>)
    requires
        layout_ok(stmts@, entry as int, leader@, spans@, block_of@),
        b < spans@.len(),
    ensures
        forall|j: int| 0 <= j < succ@.len() ==> (#[trigger] succ@[j]) < spans@.len(),
        span_starts(spans@, succ@) == block_targets(stmts@, entry as int, spans@[b as int].1 - 1),
{
    let n = stmts.len();
    proof {
        lemma_layout_basics(stmts@, entry as int, leader@, spans@, block_of@, 0);
        lemma_span_start_ge_first(spans@, b as int);
        lemma_span_end_le_last(spans@, b as int);
    }
    let last = spans[b].1 - 1;
    let nb: usize = match &stmts[last] {
        Statement::Invocation(inv) => inv.branches.len(),
        Statement::Return(_) => 0,
    };
    let mut succ: Vec<usize> = Vec::new();
    let mut k: usize = 0;
    while k < nb
        invariant
            layout_ok(stmts@, entry as int, leader@, spans@, block_of@),
            b < spans@.len(),
            k <= nb,
            nb == branches_of(stmts@[last as int]).len(),
            n == stmts@.len(),
            last < n,
            last == spans@[b as int].1 - 1,
            forall|j: int| 0 <= j < succ@.len() ==> (#[trigger] succ@[j]) < spans@.len(),
            span_starts(spans@, succ@) == targets_prefix(stmts@, entry as int, last as int, k as int),
        decreases nb - k,
    {
        let br = match &stmts[last] {
            Statement::Invocation(inv) => inv.branches[k],
            Statement::Return(_) => BranchTarget::Fallthrough,
        };
        assert(br == branches_of(stmts@[last as int])[k as int]);
        proof {
            lemma_layout_basics(stmts@, entry as int, leader@, spans@, block_of@, 0);
        }
        let t: usize = match br {
            BranchTarget::Statement(o) => o - entry,
            BranchTarget::Fallthrough => last + 1,
        };
        assert(t == target_offset(br, last as int, entry as int));
        if t < n {
            proof {
                lemma_layout_basics(stmts@, entry as int, leader@, spans@, block_of@, t as int);
                if is_terminator(stmts@[last as int]) || br != BranchTarget::Fallthrough {
                    lemma_target_is_leader(stmts@, entry as int, last as int, k as int);
                    lemma_leader_marked(stmts@, entry as int, leader@, spans@, block_of@, t as int);
                } else {
                    lemma_next_span(stmts@, entry as int, leader@, spans@, block_of@, b as int);
                }
                lemma_leader_starts_span(stmts@, entry as int, leader@, spans@, block_of@, t as int);
            }
            let sid = block_of[t];
            let found = contains_usize(&succ, sid);
            proof {
                lemma_found_iff(spans@, succ@, sid, t as int);
            }
            if !found {
                succ.push(sid);
                proof {
                    assert(span_starts(spans@, succ@) =~= targets_prefix(
                        stmts@,
                        entry as int,
                        last as int,
                        k as int,
                    ).push(t as int));
                }
            }
        }
        k = k + 1;
    }
    succ
}

/// Block starts are distinct, so a start is listed exactly when its block is.
proof fn lemma_found_iff(spans: Seq<(usize, usize)>, succ: Seq<usize>, sid: usize, t: int)
    requires
        spans_chained(spans),
        sid < spans.len(),
        spans[sid as int].0 == t,
        forall|j: int| 0 <= j < succ.len() ==> (#[trigger] succ[j]) < spans.len(),
    ensures
        span_starts(spans, succ).contains(t) == exists|q: int| 0 <= q < succ.len() && succ[q] == sid,
{
    let st = span_starts(spans, succ);
    if st.contains(t) {
        let q = choose|q: int| 0 <= q < st.len() && st[q] == t;
        if succ[q] != sid {
            if succ[q] < sid {
                lemma_starts_increasing(spans, succ[q] as int, sid as int);
            } else {
                lemma_starts_increasing(spans, sid as int, succ[q] as int);
            }
        }
    }
    if exists|q: int| 0 <= q < succ.len() && succ[q] == sid {
        let q = choose|q: int| 0 <= q < succ.len() && succ[q] == sid;
        assert(st[q] == t);
    }
}

pub(crate) fn contains_usize(v: &Vec<usize>, x: usize) -> (r: bool)
    ensures
        r == exists|q: int| 0 <= q < v@.len() && v@[q] == x,
{
    let mut j: usize = 0;
    while j < v.len()
        invariant
            j <= v@.len(),
            forall|q: int| 0 <= q < j ==> v@[q] != x,
        decreases v.len() - j,
    {
        if v[j] == x {
            return true;
        }
        j = j + 1;
    }
    false
}

proof fn lemma_cfg_wf(
    stmts: Seq<Statement>,
    entry: int,
    leader: Seq<bool>,
    spans: Seq<(usize, usize)>,
    block_of: Seq<usize>,
    blocks: Seq<BasicBlock>,
)
    requires
        layout_ok(stmts, entry, leader, spans, block_of),
        blocks.len() == spans.len(),
        forall|c: int|
            0 <= c < blocks.len() ==> (#[trigger] blocks[c]).id == c && blocks[c].start == spans[c].0
                && blocks[c].end == spans[c].1,
        forall|c: int, j: int|
            0 <= c < blocks.len() && 0 <= j < blocks[c].successors@.len() ==> (
            #[trigger] blocks[c].successors@[j]) < spans.len(),
        forall|c: int|
            0 <= c < blocks.len() ==> span_starts(spans, (#[trigger] blocks[c]).successors@)
                == block_targets(stmts, entry, spans[c].1 - 1),
    ensures
        cfg_wf(stmts, entry, blocks),
{
    reveal(layout_ok);
    assert(blocks.last() == blocks[blocks.len() - 1]);
    assert forall|b: int| 0 <= b < blocks.len() implies starts_of(
        blocks,
        (#[trigger] blocks[b]).successors@,
    ) == block_targets(stmts, entry, blocks[b].end - 1) by {
        assert(starts_of(blocks, blocks[b].successors@) =~= span_starts(spans, blocks[b].successors@));
    }
    assert forall|b: int| 0 <= b < blocks.len() implies is_leader(
        stmts,
        entry,
        (#[trigger] blocks[b]).start as int,
    ) by {
        assert(leader[spans[b].0 as int]);
        lemma_span_end_le_last(spans, b);
    }
    assert forall|b: int, o: int|
        #![trigger blocks[b], is_leader(stmts, entry, o)]
        0 <= b < blocks.len() && blocks[b].start < o < blocks[b].end implies !is_leader(
        stmts,
        entry,
        o,
    ) by {
        lemma_span_end_le_last(spans, b);
        assert(!leader[o]);
    }
}

/// A well-formed graph fits its statements.
pub proof fn lemma_wf_fits(stmts: Seq<Statement>, entry: int, blocks: Seq<BasicBlock>)
    requires
        cfg_wf(stmts, entry, blocks),
    ensures
        blocks_fit(stmts, blocks),
{
    assert forall|b: int| 0 <= b < blocks.len() implies (#[trigger] blocks[b]).start <= blocks[b].end
        <= stmts.len() by {
        lemma_block_end_le_last(blocks, b);
    }
}

proof fn lemma_block_end_le_last(blocks: Seq<BasicBlock>, b: int)
    requires
        forall|c: int| 0 <= c < blocks.len() - 1 ==> (#[trigger] blocks[c]).end == blocks[c + 1].start,
        forall|c: int| 0 <= c < blocks.len() ==> (#[trigger] blocks[c]).start < blocks[c].end,
        0 <= b < blocks.len(),
    ensures
        blocks[b].end <= blocks.last().end,
    decreases blocks.len() - b,
{
    if b < blocks.len() - 1 {
        assert(blocks[b].end == blocks[b + 1].start);
        lemma_block_end_le_last(blocks, b + 1);
    }
}

proof fn lemma_block_starts_increasing(blocks: Seq<BasicBlock>, a: int, b: int)
    requires
        forall|c: int| 0 <= c < blocks.len() - 1 ==> (#[trigger] blocks[c]).end == blocks[c + 1].start,
        forall|c: int| 0 <= c < blocks.len() ==> (#[trigger] blocks[c]).start < blocks[c].end,
        0 <= a < b < blocks.len(),
    ensures
        blocks[a].end <= blocks[b].start,
    decreases b - a,
{
    if a < b - 1 {
        lemma_block_starts_increasing(blocks, a, b - 1);
        assert(blocks[b - 1].end == blocks[b].start);
    }
}

proof fn lemma_block_covering(stmts: Seq<Statement>, entry: int, blocks: Seq<BasicBlock>, o: int, m: int)
    requires
        cfg_wf(stmts, entry, blocks),
        0 < m <= blocks.len(),
        0 <= o < blocks[m - 1].end,
    ensures
        exists|b: int| 0 <= b < m && (#[trigger] blocks[b]).start <= o < blocks[b].end,
    decreases m,
{
    if o >= blocks[m - 1].start {
        assert(blocks[m - 1].start <= o < blocks[m - 1].end);
    } else {
        assert(blocks[m - 2].end == blocks[m - 1].start);
        lemma_block_covering(stmts, entry, blocks, o, m - 1);
        let b = choose|b: int| 0 <= b < m - 1 && (#[trigger] blocks[b]).start <= o < blocks[b].end;
        assert(blocks[b].start <= o < blocks[b].end);
    }
}

/// The blocks of a well-formed graph partition the whole statement list: each block is a
/// non-empty range, the first starts at the first statement, each statement lies in
/// exactly one block, no index outside the list lies in any, and every successor names a
/// block.
pub proof fn lemma_blocks_partition(stmts: Seq<Statement>, entry: int, blocks: Seq<BasicBlock>, o: int)
    requires
        cfg_wf(stmts, entry, blocks),
    ensures
        blocks[0].start == 0,
        forall|b: int| 0 <= b < blocks.len() ==> (#[trigger] blocks[b]).start < blocks[b].end,
        0 <= o < stmts.len() ==> exists|b: int|
            0 <= b < blocks.len() && (#[trigger] blocks[b]).start <= o < blocks[b].end,
        forall|b1: int, b2: int|
            0 <= b1 < blocks.len() && 0 <= b2 < blocks.len() && (#[trigger] blocks[b1]).start <= o
                < blocks[b1].end && (#[trigger] blocks[b2]).start <= o < blocks[b2].end ==> b1 == b2,
        (o < 0 || o >= stmts.len()) ==> forall|b: int|
            0 <= b < blocks.len() ==> !((#[trigger] blocks[b]).start <= o < blocks[b].end),
        forall|b: int, j: int|
            0 <= b < blocks.len() && 0 <= j < blocks[b].successors@.len() ==> (#[trigger] blocks[b].successors@[j])
                < blocks.len(),
{
    if 0 <= o < stmts.len() {
        lemma_block_covering(stmts, entry, blocks, o, blocks.len() as int);
    }
    assert forall|b1: int, b2: int|
        0 <= b1 < blocks.len() && 0 <= b2 < blocks.len() && (#[trigger] blocks[b1]).start <= o
            < blocks[b1].end && (#[trigger] blocks[b2]).start <= o < blocks[b2].end implies b1 == b2 by {
        if b1 < b2 {
            lemma_block_starts_increasing(blocks, b1, b2);
        } else if b2 < b1 {
            lemma_block_starts_increasing(blocks, b2, b1);
        }
    }
    assert forall|b: int| 0 <= b < blocks.len() && (o < 0 || o >= stmts.len()) implies !((
    #[trigger] blocks[b]).start <= o < blocks[b].end) by {
        lemma_block_end_le_last(blocks, b);
        if b > 0 {
            lemma_block_starts_increasing(blocks, 0, b);
        }
    }
}

/// `path` starts at the entry block and each step follows a successor.
pub open spec fn is_path_from_entry(blocks: Seq<BasicBlock>, path: Seq<usize>) -> bool {
    &&& path.len() > 0
    &&& path[0] == 0
    &&& forall|i: int|
        0 < i < path.len() ==> blocks[path[i - 1] as int].successors@.contains(#[trigger] path[i])
}

/// No block is orphaned: a block that a reachable block leads to, by a branch target or by
/// falling through, is reachable too, by the path extended with it.
pub proof fn lemma_successor_reachable(blocks: Seq<BasicBlock>, path: Seq<usize>, c: usize)
    requires
        is_path_from_entry(blocks, path),
        blocks[path.last() as int].successors@.contains(c),
    ensures
        is_path_from_entry(blocks, path.push(c)),
{
    let p2 = path.push(c);
    assert forall|i: int| 0 < i < p2.len() implies blocks[p2[i - 1] as int].successors@.contains(
        #[trigger] p2[i],
    ) by {
        if i < path.len() {
            assert(p2[i] == path[i] && p2[i - 1] == path[i - 1]);
        } else {
            assert(p2[i - 1] == path.last());
        }
    }
}

/// Following successors from the entry block only ever reaches blocks of the graph.
pub proof fn lemma_reachable_blocks_exist(stmts: Seq<Statement>, entry: int, blocks: Seq<BasicBlock>, path: Seq<usize>)
    requires
        cfg_wf(stmts, entry, blocks),
        path.len() > 0,
        path[0] == 0,
        forall|i: int|
            0 < i < path.len() ==> blocks[path[i - 1] as int].successors@.contains(#[trigger] path[i]),
    ensures
        forall|i: int| 0 <= i < path.len() ==> (#[trigger] path[i]) < blocks.len(),
{
    assert forall|i: int| 0 <= i < path.len() implies (#[trigger] path[i]) < blocks.len() by {
        lemma_path_in_graph(stmts, entry, blocks, path, i);
    }
}

proof fn lemma_path_in_graph(stmts: Seq<Statement>, entry: int, blocks: Seq<BasicBlock>, path: Seq<usize>, i: int)
    requires
        cfg_wf(stmts, entry, blocks),
        0 <= i < path.len(),
        path[0] == 0,
        forall|i: int|
            0 < i < path.len() ==> blocks[path[i - 1] as int].successors@.contains(#[trigger] path[i]),
    ensures
        path[i] < blocks.len(),
    decreases i,
{
    if i > 0 {
        lemma_path_in_graph(stmts, entry, blocks, path, i - 1);
        let b = path[i - 1] as int;
        assert(blocks[b].successors@.contains(path[i]));
        let j = choose|j: int| 0 <= j < blocks[b].successors@.len() && blocks[b].successors@[j] == path[i];
        assert(blocks[b].successors@[j] < blocks.len());
    }
}

impl BasicBlock {
    pub fn get_id(&self) -> (r: usize)
        ensures
            r == self.id,
    {
        self.id
    }

    pub fn get_outgoing_basic_blocks(&self) -> (r: &Vec<usize>)
        ensures
            r@ == self.successors@,
    {
        &self.successors
    }

    /// The statements of the block, out of the function's statement list.
    pub fn get_instructions<'a>(&self, stmts: &'a Vec<Statement>) -> (r: &'a [Statement])
        requires
            self.start <= self.end <= stmts@.len(),
        ensures
            r@ == stmts@.subrange(self.start as int, self.end as int),
    {
        vstd::slice::slice_subrange(stmts.as_slice(), self.start, self.end)
    }
}

impl CfgRegular {
    pub closed spec fn spec_blocks(&self) -> Seq<BasicBlock> {
        self.blocks@
    }

    /// A graph with no blocks, before the statements are analyzed.
    pub fn new() -> (r: Self)
        ensures
            r.spec_blocks().len() == 0,
    {
        CfgRegular { blocks: Vec::new() }
    }

    pub fn get_basic_blocks(&self) -> (r: &Vec<BasicBlock>)
        ensures
            r@ == self.spec_blocks(),
    {
        &self.blocks
    }

    /// Builds the blocks of the statements, the first of which sits at program offset `entry`.
    pub fn analyze(&mut self, stmts: &Vec<Statement>, entry: usize)
        requires
            stmts@.len() > 0,
            targets_in_range(stmts@, entry as int),
        ensures
            cfg_wf(stmts@, entry as int, final(self).spec_blocks()),
    {
        let n = stmts.len();
        let leader = find_leaders(stmts, entry);
        let (spans, block_of) = partition(n, 0, &leader);
        proof {
            reveal(layout_ok);
        }
        let mut blocks: Vec<BasicBlock> = Vec::new();
        let mut b: usize = 0;
        while b < spans.len()
            invariant
                layout_ok(stmts@, entry as int, leader@, spans@, block_of@),
                b <= spans@.len(),
                blocks@.len() == b,
                forall|c: int|
                    0 <= c < b ==> (#[trigger] blocks@[c]).id == c && blocks@[c].start == spans@[c].0
                        && blocks@[c].end == spans@[c].1,
                forall|c: int, j: int|
                    0 <= c < b && 0 <= j < blocks@[c].successors@.len() ==> (
                    #[trigger] blocks@[c].successors@[j]) < spans@.len(),
                forall|c: int|
                    0 <= c < b ==> span_starts(spans@, (#[trigger] blocks@[c]).successors@)
                        == block_targets(stmts@, entry as int, spans@[c].1 - 1),
            decreases spans.len() - b,
        {
            let successors = successors_of(stmts, entry, &leader, &spans, &block_of, b);
            blocks.push(BasicBlock { id: b, start: spans[b].0, end: spans[b].1, successors });
            b = b + 1;
        }
        proof {
            lemma_cfg_wf(stmts@, entry as int, leader@, spans@, block_of@, blocks@);
        }
        self.blocks = blocks;
    }
}

} // verus!
