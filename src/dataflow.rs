use vstd::prelude::*;

use crate::cfg::{contains_usize, BasicBlock, CfgRegular};
use crate::classifier::roles_assigned;
use crate::function::Function;
use crate::ir::Statement;

verus! {

/// A forward analysis over a join-semilattice of finite height.
pub trait Analysis {
    type State: Copy;

    spec fn bottom_spec() -> Self::State;

    spec fn initial_spec() -> Self::State;

    spec fn join_spec(a: Self::State, b: Self::State) -> Self::State;

    spec fn transfer_spec(s: Self::State, st: Statement, fs: Seq<Function>) -> Self::State;

    /// Position of a state in the lattice, bounded by `max_height`.
    spec fn height(s: Self::State) -> nat;

    spec fn max_height() -> nat;

    fn bottom(&self) -> (r: Self::State)
        ensures
            r == Self::bottom_spec(),
    ;

    fn initial(&self) -> (r: Self::State)
        ensures
            r == Self::initial_spec(),
    ;

    fn join(&self, a: Self::State, b: Self::State) -> (r: Self::State)
        ensures
            r == Self::join_spec(a, b),
    ;

    fn transfer(&self, s: Self::State, st: &Statement, fs: &[Function]) -> (r: Self::State)
        requires
            roles_assigned(fs@),
        ensures
            r == Self::transfer_spec(s, *st, fs@),
    ;

    fn same(&self, a: Self::State, b: Self::State) -> (r: bool)
        ensures
            r == (a == b),
    ;

    proof fn lemma_height_bounded(s: Self::State)
        ensures
            Self::height(s) <= Self::max_height(),
    ;

    /// Joining never goes down, and goes strictly up when it changes the state.
    proof fn lemma_join_grows(a: Self::State, b: Self::State)
        ensures
            Self::height(Self::join_spec(a, b)) >= Self::height(a),
            Self::join_spec(a, b) != a ==> Self::height(Self::join_spec(a, b)) > Self::height(a),
    ;

    proof fn lemma_join_commutes(a: Self::State, b: Self::State)
        ensures
            Self::join_spec(a, b) == Self::join_spec(b, a),
    ;

    proof fn lemma_join_associates(a: Self::State, b: Self::State, c: Self::State)
        ensures
            Self::join_spec(Self::join_spec(a, b), c) == Self::join_spec(a, Self::join_spec(b, c)),
    ;

    proof fn lemma_join_idempotent(a: Self::State)
        ensures
            Self::join_spec(a, a) == a,
    ;

    proof fn lemma_bottom_least(a: Self::State)
        ensures
            Self::join_spec(Self::bottom_spec(), a) == a,
    ;

    /// The transfer function preserves the order.
    proof fn lemma_transfer_monotone(a: Self::State, b: Self::State, st: Statement, fs: Seq<Function>)
        requires
            Self::join_spec(a, b) == b,
        ensures
            Self::join_spec(Self::transfer_spec(a, st, fs), Self::transfer_spec(b, st, fs))
                == Self::transfer_spec(b, st, fs),
    ;
}

/// `a` lies below `b` in the lattice.
pub open spec fn below<A: Analysis>(a: A::State, b: A::State) -> bool {
    A::join_spec(a, b) == b
}

/// Each out-state lies below the matching one of `u`.
pub open spec fn below_all<A: Analysis>(outs: Seq<A::State>, u: Seq<A::State>) -> bool {
    forall|b: int| 0 <= b < outs.len() ==> below::<A>(#[trigger] outs[b], u[b])
}

/// `outs` is the least fixpoint: below every fixpoint.
pub open spec fn is_least_fixpoint<A: Analysis>(
    stmts: Seq<Statement>,
    fs: Seq<Function>,
    blocks: Seq<BasicBlock>,
    outs: Seq<A::State>,
) -> bool {
    &&& is_fixpoint::<A>(stmts, fs, blocks, outs)
    &&& forall|u: Seq<A::State>| #[trigger] is_fixpoint::<A>(stmts, fs, blocks, u) ==> below_all::<A>(outs, u)
}

proof fn lemma_absorbs<A: Analysis>(a: A::State, b: A::State)
    ensures
        A::join_spec(A::join_spec(a, b), b) == A::join_spec(a, b),
{
    A::lemma_join_associates(a, b, b);
    A::lemma_join_idempotent(b);
}

proof fn lemma_below_trans<A: Analysis>(x: A::State, y: A::State, z: A::State)
    requires
        below::<A>(x, y),
        below::<A>(y, z),
    ensures
        below::<A>(x, z),
{
    A::lemma_join_associates(x, y, z);
}

proof fn lemma_join_lub<A: Analysis>(a: A::State, b: A::State, c: A::State)
    requires
        below::<A>(a, c),
        below::<A>(b, c),
    ensures
        below::<A>(A::join_spec(a, b), c),
{
    A::lemma_join_associates(a, b, c);
}

proof fn lemma_join_monotone<A: Analysis>(a: A::State, a2: A::State, b: A::State, b2: A::State)
    requires
        below::<A>(a, a2),
        below::<A>(b, b2),
    ensures
        below::<A>(A::join_spec(a, b), A::join_spec(a2, b2)),
{
    let j = A::join_spec(a2, b2);
    A::lemma_join_associates(a2, b2, b2);
    A::lemma_join_idempotent(b2);
    A::lemma_join_associates(b, b2, a2);
    A::lemma_join_commutes(b2, a2);
    // b below j
    assert(A::join_spec(b, j) == j) by {
        A::lemma_join_commutes(a2, b2);
        A::lemma_join_associates(b, b2, a2);
    }
    // a below j
    assert(A::join_spec(a, j) == j) by {
        A::lemma_join_associates(a, a2, b2);
    }
    lemma_join_lub::<A>(a, b, j);
}

proof fn lemma_in_state_monotone<A: Analysis>(
    blocks: Seq<BasicBlock>,
    outs: Seq<A::State>,
    u: Seq<A::State>,
    b: int,
    k: int,
)
    requires
        outs.len() == u.len(),
        k <= outs.len(),
        below_all::<A>(outs, u),
    ensures
        below::<A>(in_state::<A>(blocks, outs, b, k), in_state::<A>(blocks, u, b, k)),
    decreases k,
{
    if k <= 0 {
        A::lemma_join_idempotent(in_state::<A>(blocks, u, b, k));
    } else {
        lemma_in_state_monotone::<A>(blocks, outs, u, b, k - 1);
        if blocks[k - 1].successors@.contains(b as usize) {
            assert(below::<A>(outs[k - 1], u[k - 1]));
            lemma_join_monotone::<A>(
                in_state::<A>(blocks, outs, b, k - 1),
                in_state::<A>(blocks, u, b, k - 1),
                outs[k - 1],
                u[k - 1],
            );
        }
    }
}

proof fn lemma_transfer_range_monotone<A: Analysis>(
    s1: A::State,
    s2: A::State,
    stmts: Seq<Statement>,
    fs: Seq<Function>,
    lo: int,
    hi: int,
)
    requires
        below::<A>(s1, s2),
    ensures
        below::<A>(
            transfer_range::<A>(s1, stmts, fs, lo, hi),
            transfer_range::<A>(s2, stmts, fs, lo, hi),
        ),
    decreases hi - lo,
{
    if lo < hi {
        A::lemma_transfer_monotone(s1, s2, stmts[lo], fs);
        lemma_transfer_range_monotone::<A>(
            A::transfer_spec(s1, stmts[lo], fs),
            A::transfer_spec(s2, stmts[lo], fs),
            stmts,
            fs,
            lo + 1,
            hi,
        );
    }
}

/// Joining the current out-state of `b` with what it would get keeps below every fixpoint.
proof fn lemma_step_stays_below<A: Analysis>(
    stmts: Seq<Statement>,
    fs: Seq<Function>,
    blocks: Seq<BasicBlock>,
    outs: Seq<A::State>,
    u: Seq<A::State>,
    b: int,
)
    requires
        is_fixpoint::<A>(stmts, fs, blocks, u),
        outs.len() == blocks.len(),
        below_all::<A>(outs, u),
        0 <= b < blocks.len(),
    ensures
        below::<A>(A::join_spec(outs[b], block_out::<A>(stmts, fs, blocks, outs, b)), u[b]),
{
    let n = blocks.len() as int;
    lemma_in_state_monotone::<A>(blocks, outs, u, b, n);
    lemma_transfer_range_monotone::<A>(
        in_state::<A>(blocks, outs, b, n),
        in_state::<A>(blocks, u, b, n),
        stmts,
        fs,
        blocks[b].start as int,
        blocks[b].end as int,
    );
    let bu = block_out::<A>(stmts, fs, blocks, u, b);
    assert(stable::<A>(stmts, fs, blocks, u, b));
    A::lemma_join_commutes(u[b], bu);
    lemma_below_trans::<A>(block_out::<A>(stmts, fs, blocks, outs, b), bu, u[b]);
    assert(below::<A>(outs[b], u[b]));
    lemma_join_lub::<A>(outs[b], block_out::<A>(stmts, fs, blocks, outs, b), u[b]);
}

/// State entering block `b`: the initial state at the entry block and bottom elsewhere,
/// joined with the out-state of each of the first `k` blocks that lists `b` as successor.
pub open spec fn in_state<A: Analysis>(
    blocks: Seq<BasicBlock>,
    outs: Seq<A::State>,
    b: int,
    k: int,
) -> A::State
    decreases k,
{
    if k <= 0 {
        if b == 0 {
            A::initial_spec()
        } else {
            A::bottom_spec()
        }
    } else {
        let p = in_state::<A>(blocks, outs, b, k - 1);
        if blocks[k - 1].successors@.contains(b as usize) {
            A::join_spec(p, outs[k - 1])
        } else {
            p
        }
    }
}

/// The state after applying the transfer function to the statements `[lo, hi)` in order.
pub open spec fn transfer_range<A: Analysis>(
    s: A::State,
    stmts: Seq<Statement>,
    fs: Seq<Function>,
    lo: int,
    hi: int,
) -> A::State
    decreases hi - lo,
{
    if lo >= hi {
        s
    } else {
        transfer_range::<A>(A::transfer_spec(s, stmts[lo], fs), stmts, fs, lo + 1, hi)
    }
}

/// The out-state that block `b` would get from the current out-states.
pub open spec fn block_out<A: Analysis>(
    stmts: Seq<Statement>,
    fs: Seq<Function>,
    blocks: Seq<BasicBlock>,
    outs: Seq<A::State>,
    b: int,
) -> A::State {
    transfer_range::<A>(
        in_state::<A>(blocks, outs, b, blocks.len() as int),
        stmts,
        fs,
        blocks[b].start as int,
        blocks[b].end as int,
    )
}

/// Block `b` is at rest: one more join with its transfer result changes nothing.
pub open spec fn stable<A: Analysis>(
    stmts: Seq<Statement>,
    fs: Seq<Function>,
    blocks: Seq<BasicBlock>,
    outs: Seq<A::State>,
    b: int,
) -> bool {
    outs[b] == A::join_spec(outs[b], block_out::<A>(stmts, fs, blocks, outs, b))
}

/// Every block is at rest.
pub open spec fn is_fixpoint<A: Analysis>(
    stmts: Seq<Statement>,
    fs: Seq<Function>,
    blocks: Seq<BasicBlock>,
    outs: Seq<A::State>,
) -> bool {
    &&& outs.len() == blocks.len()
    &&& forall|b: int| 0 <= b < blocks.len() ==> #[trigger] stable::<A>(stmts, fs, blocks, outs, b)
}

/// Room left for the out-states of the first `k` blocks to grow.
spec fn potential<A: Analysis>(outs: Seq<A::State>, k: int) -> nat
    decreases k,
{
    if k <= 0 {
        0
    } else {
        potential::<A>(outs, k - 1) + (A::max_height() - A::height(outs[k - 1])) as nat
    }
}

proof fn lemma_potential_drops<A: Analysis>(outs: Seq<A::State>, x: int, v: A::State, k: int)
    requires
        0 <= x < outs.len(),
        0 <= k <= outs.len(),
        A::height(v) > A::height(outs[x]),
        A::height(v) <= A::max_height(),
    ensures
        x < k ==> potential::<A>(outs.update(x, v), k) < potential::<A>(outs, k),
        x >= k ==> potential::<A>(outs.update(x, v), k) == potential::<A>(outs, k),
    decreases k,
{
    if k > 0 {
        lemma_potential_drops::<A>(outs, x, v, k - 1);
        A::lemma_height_bounded(outs[k - 1]);
    }
}

/// Changing the out-state of a block that does not precede `c` leaves `c`'s in-state alone.
proof fn lemma_in_state_frame<A: Analysis>(
    blocks: Seq<BasicBlock>,
    outs: Seq<A::State>,
    x: int,
    v: A::State,
    c: int,
    k: int,
)
    requires
        0 <= x < outs.len(),
        k <= outs.len(),
        !blocks[x].successors@.contains(c as usize),
    ensures
        in_state::<A>(blocks, outs.update(x, v), c, k) == in_state::<A>(blocks, outs, c, k),
    decreases k,
{
    if k > 0 {
        lemma_in_state_frame::<A>(blocks, outs, x, v, c, k - 1);
    }
}

/// Every block lies within the statements and names existing successors.
pub open spec fn blocks_fit(stmts: Seq<Statement>, blocks: Seq<BasicBlock>) -> bool {
    &&& forall|b: int|
        0 <= b < blocks.len() ==> (#[trigger] blocks[b]).start <= blocks[b].end <= stmts.len()
    &&& forall|b: int, j: int|
        0 <= b < blocks.len() && 0 <= j < blocks[b].successors@.len() ==> (
        #[trigger] blocks[b].successors@[j]) < blocks.len()
}

/// The worklist solver, holding the analysis it runs and the out-state of each block.
pub struct Engine<A: Analysis> {
    analysis: A,
    result: Vec<A::State>,
    /// Number of block evaluations the last run made
    evaluations: Ghost<nat>,
}

/// Number of edges out of the first `k` blocks.
pub open spec fn edge_count(blocks: Seq<BasicBlock>, k: int) -> nat
    decreases k,
{
    if k <= 0 {
        0
    } else {
        edge_count(blocks, k - 1) + blocks[k - 1].successors@.len()
    }
}

/// Pushes still possible: each block can change at most once per level left above it,
/// and each change queues its successors.
spec fn pushes_left<A: Analysis>(blocks: Seq<BasicBlock>, outs: Seq<A::State>, k: int) -> nat
    decreases k,
{
    if k <= 0 {
        0
    } else {
        pushes_left::<A>(blocks, outs, k - 1) + ((A::max_height() - A::height(outs[k - 1])) as nat)
            * blocks[k - 1].successors@.len()
    }
}

proof fn lemma_pushes_left_initial<A: Analysis>(blocks: Seq<BasicBlock>, outs: Seq<A::State>, k: int)
    requires
        0 <= k <= outs.len(),
    ensures
        pushes_left::<A>(blocks, outs, k) <= A::max_height() * edge_count(blocks, k),
    decreases k,
{
    if k > 0 {
        lemma_pushes_left_initial::<A>(blocks, outs, k - 1);
        let m = A::max_height();
        let d = (m - A::height(outs[k - 1])) as nat;
        let e = blocks[k - 1].successors@.len();
        A::lemma_height_bounded(outs[k - 1]);
        assert(d <= m);
        assert(d * e <= m * e) by (nonlinear_arith)
            requires
                d <= m,
        ;
        assert(m * edge_count(blocks, k) == m * edge_count(blocks, k - 1) + m * e) by (nonlinear_arith)
            requires
                edge_count(blocks, k) == edge_count(blocks, k - 1) + e,
        ;
    }
}

proof fn lemma_pushes_left_drop<A: Analysis>(
    blocks: Seq<BasicBlock>,
    outs: Seq<A::State>,
    x: int,
    v: A::State,
    k: int,
)
    requires
        0 <= x < outs.len(),
        0 <= k <= outs.len(),
        A::height(v) > A::height(outs[x]),
        A::height(v) <= A::max_height(),
    ensures
        x < k ==> pushes_left::<A>(blocks, outs.update(x, v), k) + blocks[x].successors@.len()
            <= pushes_left::<A>(blocks, outs, k),
        x >= k ==> pushes_left::<A>(blocks, outs.update(x, v), k) == pushes_left::<A>(blocks, outs, k),
    decreases k,
{
    if k > 0 {
        lemma_pushes_left_drop::<A>(blocks, outs, x, v, k - 1);
        if x == k - 1 {
            let m = A::max_height() as int;
            let h0 = A::height(outs[x]) as int;
            let h1 = A::height(v) as int;
            let e = blocks[x].successors@.len() as int;
            assert((m - h1) * e + e <= (m - h0) * e) by (nonlinear_arith)
                requires
                    h1 >= h0 + 1,
                    e >= 0,
            ;
        }
    }
}

impl<A: Analysis> Engine<A> {
    pub closed spec fn spec_result(&self) -> Seq<A::State> {
        self.result@
    }

    pub fn new(analysis: A) -> (r: Self)
        ensures
            r.spec_result().len() == 0,
    {
        Engine { analysis, result: Vec::new(), evaluations: Ghost(0) }
    }

    /// Block evaluations made by the last run.
    pub closed spec fn spec_evaluations(&self) -> nat {
        self.evaluations@
    }

    /// Out-state of each block, by block identifier.
    pub fn result(&self) -> (r: &Vec<A::State>)
        ensures
            r@ == self.spec_result(),
    {
        &self.result
    }

    fn compute_in(&self, blocks: &Vec<BasicBlock>, outs: &Vec<A::State>, b: usize) -> (r: A::State)
        requires
            outs@.len() == blocks@.len(),
        ensures
            r == in_state::<A>(blocks@, outs@, b as int, blocks@.len() as int),
    {
        let mut s = if b == 0 {
            self.analysis.initial()
        } else {
            self.analysis.bottom()
        };
        let mut k: usize = 0;
        while k < blocks.len()
            invariant
                k <= blocks@.len(),
                outs@.len() == blocks@.len(),
                s == in_state::<A>(blocks@, outs@, b as int, k as int),
            decreases blocks.len() - k,
        {
            if contains_usize(&blocks[k].successors, b) {
                s = self.analysis.join(s, outs[k]);
            }
            k = k + 1;
        }
        s
    }

    fn apply_block(
        &self,
        s: A::State,
        stmts: &Vec<Statement>,
        fs: &[Function],
        lo: usize,
        hi: usize,
    ) -> (r: A::State)
        requires
            lo <= hi <= stmts@.len(),
            roles_assigned(fs@),
        ensures
            r == transfer_range::<A>(s, stmts@, fs@, lo as int, hi as int),
    {
        let mut cur = s;
        let mut o: usize = lo;
        while o < hi
            invariant
                lo <= o <= hi <= stmts@.len(),
                roles_assigned(fs@),
                transfer_range::<A>(s, stmts@, fs@, lo as int, hi as int) == transfer_range::<A>(
                    cur,
                    stmts@,
                    fs@,
                    o as int,
                    hi as int,
                ),
            decreases hi - o,
        {
            cur = self.analysis.transfer(cur, &stmts[o], fs);
            o = o + 1;
        }
        cur
    }

    /// Runs the worklist to a fixpoint over the blocks of `cfg`.
    pub fn run_analysis(&mut self, cfg: &CfgRegular, stmts: &Vec<Statement>, functions: &[Function])
        requires
            roles_assigned(functions@),
            blocks_fit(stmts@, cfg.spec_blocks()),
        ensures
            is_least_fixpoint::<A>(stmts@, functions@, cfg.spec_blocks(), final(self).spec_result()),
            final(self).spec_evaluations() <= cfg.spec_blocks().len() + A::max_height() * edge_count(
                cfg.spec_blocks(),
                cfg.spec_blocks().len() as int,
            ),
    {
        let blocks = cfg.get_basic_blocks();
        let n = blocks.len();
        let mut outs: Vec<A::State> = Vec::new();
        let mut worklist: Vec<usize> = Vec::new();
        let mut i: usize = 0;
        while i < n
            invariant
                i <= n,
                n == blocks@.len(),
                outs@.len() == i,
                forall|c: int| 0 <= c < i ==> outs@[c] == A::bottom_spec(),
                worklist@ == Seq::new(i as nat, |c: int| c as usize),
            decreases n - i,
        {
            outs.push(self.analysis.bottom());
            worklist.push(i);
            proof {
                assert(worklist@ =~= Seq::new((i + 1) as nat, |c: int| c as usize));
            }
            i = i + 1;
        }
        assert forall|c: int| 0 <= c < n implies #[trigger] worklist@.contains(c as usize) by {
            assert(worklist@[c] == c as usize);
        }
        assert forall|u: Seq<A::State>| #[trigger]
            is_fixpoint::<A>(stmts@, functions@, blocks@, u) implies below_all::<A>(outs@, u) by {
            assert forall|c: int| 0 <= c < outs@.len() implies below::<A>(#[trigger] outs@[c], u[c]) by {
                A::lemma_bottom_least(u[c]);
            }
        }
        let ghost mut evals: nat = 0;
        proof {
            lemma_pushes_left_initial::<A>(blocks@, outs@, n as int);
        }
        while worklist.len() > 0
            invariant
                n == blocks@.len(),
                outs@.len() == n,
                roles_assigned(functions@),
                blocks_fit(stmts@, blocks@),
                forall|j: int| 0 <= j < worklist@.len() ==> (#[trigger] worklist@[j]) < n,
                forall|u: Seq<A::State>| #[trigger]
                    is_fixpoint::<A>(stmts@, functions@, blocks@, u) ==> below_all::<A>(outs@, u),
                forall|c: int|
                    0 <= c < n && !worklist@.contains(c as usize) ==> stable::<A>(
                        stmts@,
                        functions@,
                        blocks@,
                        outs@,
                        c,
                    ),
                evals + worklist@.len() + pushes_left::<A>(blocks@, outs@, n as int) <= n
                    + A::max_height() * edge_count(blocks@, n as int),
            decreases potential::<A>(outs@, n as int), worklist@.len(),
        {
            let ghost wl0 = worklist@;
            let ghost outs0 = outs@;
            let b = worklist.pop().unwrap();
            proof {
                evals = evals + 1;
            }
            assert(b == wl0.last());
            let ins = self.compute_in(blocks, &outs, b);
            let t = self.apply_block(ins, stmts, functions, blocks[b].start, blocks[b].end);
            assert(t == block_out::<A>(stmts@, functions@, blocks@, outs@, b as int));
            let old_out = outs[b];
            let new_out = self.analysis.join(old_out, t);
            proof {
                assert forall|u: Seq<A::State>| #[trigger]
                    is_fixpoint::<A>(stmts@, functions@, blocks@, u) implies below_all::<A>(
                    outs0.update(b as int, new_out),
                    u,
                ) by {
                    lemma_step_stays_below::<A>(stmts@, functions@, blocks@, outs0, u, b as int);
                    assert forall|c: int| 0 <= c < outs0.len() implies below::<A>(
                        #[trigger] outs0.update(b as int, new_out)[c],
                        u[c],
                    ) by {
                        if c != b {
                            assert(below::<A>(outs0[c], u[c]));
                        }
                    }
                }
            }
            if !self.analysis.same(new_out, old_out) {
                outs.set(b, new_out);
                let succ = &blocks[b].successors;
                let ghost wl1 = worklist@;
                let mut j: usize = 0;
                while j < succ.len()
                    invariant
                        j <= succ@.len(),
                        succ@ == blocks@[b as int].successors@,
                        b < n,
                        n == blocks@.len(),
                        blocks_fit(stmts@, blocks@),
                        worklist@ == wl1 + succ@.subrange(0, j as int),
                    decreases succ.len() - j,
                {
                    worklist.push(succ[j]);
                    proof {
                        assert(worklist@ =~= wl1 + succ@.subrange(0, j + 1));
                    }
                    j = j + 1;
                }
                proof {
                    assert(worklist@ =~= wl1 + succ@);
                    assert(outs@ == outs0.update(b as int, new_out));
                    A::lemma_join_grows(old_out, t);
                    A::lemma_height_bounded(new_out);
                    lemma_potential_drops::<A>(outs0, b as int, new_out, n as int);
                    lemma_pushes_left_drop::<A>(blocks@, outs0, b as int, new_out, n as int);
                    assert forall|j: int| 0 <= j < worklist@.len() implies (#[trigger] worklist@[j]) < n by {
                        if j >= wl1.len() {
                            assert(worklist@[j] == succ@[j - wl1.len()]);
                        }
                    }
                    assert forall|c: int|
                        0 <= c < n && !worklist@.contains(c as usize) implies stable::<A>(
                        stmts@,
                        functions@,
                        blocks@,
                        outs@,
                        c,
                    ) by {
                        assert forall|q: int| 0 <= q < succ@.len() implies succ@[q] != c as usize by {
                            assert(worklist@[wl1.len() + q] == succ@[q]);
                        }
                        assert(!succ@.contains(c as usize));
                        lemma_in_state_frame::<A>(blocks@, outs0, b as int, new_out, c, n as int);
                        assert(block_out::<A>(stmts@, functions@, blocks@, outs@, c) == block_out::<A>(
                            stmts@,
                            functions@,
                            blocks@,
                            outs0,
                            c,
                        ));
                        if c == b {
                            lemma_absorbs::<A>(old_out, t);
                        } else {
                            if wl0.contains(c as usize) {
                                let q = choose|q: int| 0 <= q < wl0.len() && wl0[q] == c as usize;
                                assert(q < wl0.len() - 1);
                                assert(wl1[q] == c as usize);
                                assert(worklist@[q] == c as usize);
                            }
                            assert(!wl0.contains(c as usize));
                            assert(stable::<A>(stmts@, functions@, blocks@, outs0, c));
                            assert(outs@[c] == outs0[c]);
                        }
                    }
                }
            } else {
                proof {
                    assert(outs@ =~= outs0.update(b as int, new_out));
                    assert forall|c: int|
                        0 <= c < n && !worklist@.contains(c as usize) implies stable::<A>(
                        stmts@,
                        functions@,
                        blocks@,
                        outs@,
                        c,
                    ) by {
                        if c != b && wl0.contains(c as usize) {
                            let q = choose|q: int| 0 <= q < wl0.len() && wl0[q] == c as usize;
                            assert(q < wl0.len() - 1);
                            assert(worklist@[q] == c as usize);
                        }
                    }
                }
            }
        }
        self.result = outs;
        self.evaluations = Ghost(evals);
    }
}

} // verus!
