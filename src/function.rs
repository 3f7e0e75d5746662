use vstd::prelude::*;

use crate::cfg::{
    cfg_wf, lemma_blocks_partition, lemma_reachable_blocks_exist, lemma_wf_fits, BasicBlock, CfgRegular,
};
use crate::classifier::{
    calls_of, classify_spec, classify_statement, lemma_calls_of_bounded, lemma_classifier_deterministic,
    roles_assigned, CallKind,
};
use crate::dataflow::{edge_count, is_least_fixpoint, Engine};
use crate::ir::{targets_in_range, ConcreteType, FunctionData, Param, Statement};
use crate::reentrancy::{ReentrancyAnalysis, ReentrancyState};
use crate::text::str_equal;
use vstd::slice::slice_subrange;

verus! {

/// Role of a function in the program.
#[derive(Clone, Copy, PartialEq, Eq, Debug, Structural)]
pub enum Type {
    /// External function defined by the user
    External,
    /// View function defined by the user
    View,
    /// Private function defined by the user
    Private,
    /// Constructor function defined by the user
    Constructor,
    /// Event function
    Event,
    /// Function made by the compiler for storage variables
    Storage,
    /// Wrapper around an external function made by the compiler
    Wrapper,
    /// Function of the core library
    Core,
    /// Function of an ABI trait that does a call contract
    AbiCallContract,
    /// Function of an ABI trait that does a library call
    AbiLibraryCall,
    /// L1 handler function
    L1Handler,
}

/// Names of the implicit builtin types that the compiler threads through functions.
pub open spec fn is_builtin(name: Seq<char>) -> bool {
    name == "Pedersen"@ || name == "RangeCheck"@ || name == "Bitwise"@ || name == "EcOp"@ || name
        == "Poseidon"@ || name == "SegmentArena"@ || name == "GasBuiltin"@ || name == "System"@
}

/// The types of `ts` that are not builtins, in order.
pub open spec fn types_without_builtins(ts: Seq<ConcreteType>) -> Seq<ConcreteType>
    decreases ts.len(),
{
    if ts.len() == 0 {
        Seq::empty()
    } else {
        let p = types_without_builtins(ts.drop_last());
        if is_builtin(ts.last().debug_name@) {
            p
        } else {
            p.push(ts.last())
        }
    }
}

/// The parameters of `ps` whose type is not a builtin, in order.
pub open spec fn params_without_builtins(ps: Seq<Param>) -> Seq<Param>
    decreases ps.len(),
{
    if ps.len() == 0 {
        Seq::empty()
    } else {
        let p = params_without_builtins(ps.drop_last());
        if is_builtin(ps.last().ty.debug_name@) {
            p
        } else {
            p.push(ps.last())
        }
    }
}

/// Whether a type name is one of the builtins.
pub fn is_builtin_name(s: &str) -> (r: bool)
    ensures
        r == is_builtin(s@),
{
    str_equal(s, "Pedersen") || str_equal(s, "RangeCheck") || str_equal(s, "Bitwise") || str_equal(
        s,
        "EcOp",
    ) || str_equal(s, "Poseidon") || str_equal(s, "SegmentArena") || str_equal(s, "GasBuiltin")
        || str_equal(s, "System")
}

/// Results of the analyses of a function.
#[derive(Clone, Debug)]
pub struct Analyses {
    /// Reentrancy out-state of each basic block, by block identifier
    pub reentrancy: Vec<ReentrancyState>,
}

/// A function of the program with what the analyses derive from it.
#[derive(Clone)]
pub struct Function {
    /// Identity and signature
    data: FunctionData,
    /// Role, unset until the program's functions are classified
    ty: Option<Type>,
    /// The sequence of statements
    statements: Vec<Statement>,
    /// A regular CFG from the statements
    cfg_regular: CfgRegular,
    /// Offsets of storage variable reads
    storage_vars_read: Vec<usize>,
    /// Offsets of storage variable writes
    storage_vars_written: Vec<usize>,
    /// Offsets of core function calls
    core_functions_calls: Vec<usize>,
    /// Offsets of private function calls
    private_functions_calls: Vec<usize>,
    /// Offsets of events emitted
    events_emitted: Vec<usize>,
    /// Offsets of external functions called through an ABI trait
    external_functions_calls: Vec<usize>,
    /// Offsets of library functions called through an ABI trait
    library_functions_calls: Vec<usize>,
    /// Analyses results
    analyses: Analyses,
    /// Whether the CFG and the buckets were built
    analyzed: bool,
    /// Block evaluations the reentrancy analysis made
    evaluations: Ghost<nat>,
}

impl Function {
    pub closed spec fn spec_name(&self) -> Seq<char> {
        self.data.name@
    }

    pub closed spec fn role(&self) -> Option<Type> {
        self.ty
    }

    pub closed spec fn stmts(&self) -> Seq<Statement> {
        self.statements@
    }

    pub closed spec fn entry(&self) -> int {
        self.data.entry_point as int
    }

    pub closed spec fn spec_params(&self) -> Seq<Param> {
        self.data.params@
    }

    pub closed spec fn spec_returns(&self) -> Seq<ConcreteType> {
        self.data.ret_types@
    }

    pub closed spec fn cfg(&self) -> Seq<BasicBlock> {
        self.cfg_regular.spec_blocks()
    }

    /// `analyze` has built the CFG and filled the buckets.
    pub closed spec fn is_analyzed(&self) -> bool {
        self.analyzed
    }

    /// Block evaluations made by the reentrancy analysis.
    pub closed spec fn reentrancy_evaluations(&self) -> nat {
        self.evaluations@
    }

    pub closed spec fn reentrancy(&self) -> Seq<ReentrancyState> {
        self.analyses.reentrancy@
    }

    /// Name, role, statements and signature agree.
    pub open spec fn same_identity(&self, other: &Function) -> bool {
        &&& self.spec_name() == other.spec_name()
        &&& self.role() == other.role()
        &&& self.stmts() == other.stmts()
        &&& self.entry() == other.entry()
        &&& self.spec_params() == other.spec_params()
        &&& self.spec_returns() == other.spec_returns()
    }

    /// Offsets of the call sites in the bucket `kind`.
    pub closed spec fn bucket(&self, kind: CallKind) -> Seq<usize> {
        match kind {
            CallKind::StorageRead => self.storage_vars_read@,
            CallKind::StorageWrite => self.storage_vars_written@,
            CallKind::Core => self.core_functions_calls@,
            CallKind::Private => self.private_functions_calls@,
            CallKind::Event => self.events_emitted@,
            CallKind::External => self.external_functions_calls@,
            CallKind::Library => self.library_functions_calls@,
        }
    }

    /// After `analyze`, the blocks partition the whole statement list: each block is a
    /// non-empty range, each statement lies in exactly one block, the entry block starts at
    /// the first statement, every successor names a block, and following successors from
    /// the entry block only ever reaches blocks of the graph.
    pub proof fn lemma_analyzed_cfg(&self, o: int, path: Seq<usize>)
        requires
            self.wf(),
            self.is_analyzed(),
        ensures
            self.cfg().len() > 0,
            self.cfg()[0].start == 0,
            forall|b: int| 0 <= b < self.cfg().len() ==> (#[trigger] self.cfg()[b]).id == b,
            forall|b: int|
                0 <= b < self.cfg().len() ==> (#[trigger] self.cfg()[b]).start < self.cfg()[b].end,
            0 <= o < self.stmts().len() ==> exists|b: int|
                0 <= b < self.cfg().len() && (#[trigger] self.cfg()[b]).start <= o < self.cfg()[b].end,
            forall|b1: int, b2: int|
                0 <= b1 < self.cfg().len() && 0 <= b2 < self.cfg().len() && (#[trigger] self.cfg()[b1]).start
                    <= o < self.cfg()[b1].end && (#[trigger] self.cfg()[b2]).start <= o < self.cfg()[b2].end
                    ==> b1 == b2,
            forall|b: int, j: int|
                0 <= b < self.cfg().len() && 0 <= j < self.cfg()[b].successors@.len() ==> (
                #[trigger] self.cfg()[b].successors@[j]) < self.cfg().len(),
            path.len() > 0 && path[0] == 0 && (forall|i: int|
                0 < i < path.len() ==> self.cfg()[path[i - 1] as int].successors@.contains(
                    #[trigger] path[i],
                )) ==> forall|i: int| 0 <= i < path.len() ==> (#[trigger] path[i]) < self.cfg().len(),
    {
        lemma_blocks_partition(self.stmts(), self.entry(), self.cfg(), o);
        if path.len() > 0 && path[0] == 0 && (forall|i: int|
            0 < i < path.len() ==> self.cfg()[path[i - 1] as int].successors@.contains(
                #[trigger] path[i],
            )) {
            lemma_reachable_blocks_exist(self.stmts(), self.entry(), self.cfg(), path);
        }
    }

    /// Two functions with the same statements, analyzed against the same program, get the
    /// same buckets, each listing its call sites in program order.
    pub proof fn lemma_buckets_deterministic(f1: Function, f2: Function, fs: Seq<Function>, kind: CallKind)
        requires
            f1.stmts() == f2.stmts(),
            f1.stmts().len() <= usize::MAX,
            f1.bucket(kind) == calls_of(f1.stmts(), fs, kind, f1.stmts().len() as int),
            f2.bucket(kind) == calls_of(f2.stmts(), fs, kind, f2.stmts().len() as int),
        ensures
            f1.bucket(kind) == f2.bucket(kind),
            forall|a: int, b: int|
                0 <= a < b < f1.bucket(kind).len() ==> (#[trigger] f1.bucket(kind)[a]) < (
                #[trigger] f1.bucket(kind)[b]),
            forall|j: int|
                0 <= j < f1.bucket(kind).len() ==> classify_spec(
                    f1.stmts()[#[trigger] f1.bucket(kind)[j] as int],
                    fs,
                ) == Some(kind),
    {
        lemma_classifier_deterministic(f1.stmts(), f2.stmts(), fs, kind);
    }

    /// Every bucket names statements of the function.
    pub open spec fn buckets_in_range(&self) -> bool {
        forall|kind: CallKind, j: int|
            0 <= j < self.bucket(kind).len() ==> #[trigger] self.bucket(kind)[j] < self.stmts().len()
    }

    /// Every bucket names statements of the function, and before `analyze` the CFG and
    /// the buckets are empty.
    pub open spec fn wf(&self) -> bool {
        &&& self.buckets_in_range()
        &&& self.is_analyzed() ==> cfg_wf(self.stmts(), self.entry(), self.cfg())
        &&& !self.is_analyzed() ==> self.cfg().len() == 0 && forall|kind: CallKind|
            #[trigger] self.bucket(kind).len() == 0
    }

    pub fn new(data: FunctionData, statements: Vec<Statement>) -> (r: Self)
        ensures
            r.wf(),
            r.spec_name() == data.name@,
            r.spec_params() == data.params@,
            r.spec_returns() == data.ret_types@,
            r.entry() == data.entry_point,
            r.role() == None::<Type>,
            r.stmts() == statements@,
            forall|kind: CallKind| r.bucket(kind).len() == 0,
            r.cfg().len() == 0,
            r.reentrancy().len() == 0,
            !r.is_analyzed(),
    {
        Function {
            data,
            ty: None,
            statements,
            cfg_regular: CfgRegular::new(),
            storage_vars_read: Vec::new(),
            storage_vars_written: Vec::new(),
            core_functions_calls: Vec::new(),
            private_functions_calls: Vec::new(),
            events_emitted: Vec::new(),
            external_functions_calls: Vec::new(),
            library_functions_calls: Vec::new(),
            analyses: Analyses { reentrancy: Vec::new() },
            analyzed: false,
            evaluations: Ghost(0),
        }
    }

    pub fn name(&self) -> (r: String)
        ensures
            r@ == self.spec_name(),
    {
        self.data.name.clone()
    }

    /// Program offset of the first statement.
    pub fn entry_point(&self) -> (r: usize)
        ensures
            r == self.entry(),
    {
        self.data.entry_point
    }

    pub fn name_str(&self) -> (r: &str)
        ensures
            r@ == self.spec_name(),
    {
        self.data.name.as_str()
    }

    pub fn ty(&self) -> (r: &Type)
        requires
            self.role().is_some(),
        ensures
            *r == self.role().unwrap(),
    {
        self.ty.as_ref().unwrap()
    }

    /// Whether the role is assigned.
    pub fn has_ty(&self) -> (r: bool)
        ensures
            r == self.role().is_some(),
    {
        self.ty.is_some()
    }

    /// Assigns the role; a role is assigned once.
    pub fn set_ty(&mut self, ty: Type)
        requires
            old(self).role().is_none(),
        ensures
            final(self).role() == Some(ty),
            final(self).spec_name() == old(self).spec_name(),
            final(self).stmts() == old(self).stmts(),
            final(self).entry() == old(self).entry(),
            final(self).spec_params() == old(self).spec_params(),
            final(self).spec_returns() == old(self).spec_returns(),
            forall|kind: CallKind| final(self).bucket(kind) == old(self).bucket(kind),
            final(self).cfg() == old(self).cfg(),
            final(self).reentrancy() == old(self).reentrancy(),
            final(self).is_analyzed() == old(self).is_analyzed(),
    {
        self.ty = Some(ty);
    }

    fn pick(&self, offsets: &Vec<usize>) -> (r: Vec<&Statement>)
        requires
            forall|j: int| 0 <= j < offsets@.len() ==> offsets@[j] < self.stmts().len(),
        ensures
            r@.len() == offsets@.len(),
            forall|j: int| 0 <= j < offsets@.len() ==> *r@[j] == self.stmts()[offsets@[j] as int],
    {
        let mut r: Vec<&Statement> = Vec::new();
        let mut j: usize = 0;
        while j < offsets.len()
            invariant
                j <= offsets@.len(),
                r@.len() == j,
                forall|i: int| 0 <= i < offsets@.len() ==> offsets@[i] < self.stmts().len(),
                forall|i: int| 0 <= i < j ==> *r@[i] == self.stmts()[offsets@[i] as int],
            decreases offsets.len() - j,
        {
            r.push(&self.statements[offsets[j]]);
            j = j + 1;
        }
        r
    }

    /// The statements of the bucket `kind`, in order.
    pub open spec fn bucket_statements(&self, kind: CallKind, r: Seq<&Statement>) -> bool {
        &&& r.len() == self.bucket(kind).len()
        &&& forall|j: int|
            0 <= j < r.len() ==> *r[j] == self.stmts()[#[trigger] self.bucket(kind)[j] as int]
    }

    pub fn storage_vars_read(&self) -> (r: Vec<&Statement>)
        requires
            self.wf(),
        ensures
            self.bucket_statements(CallKind::StorageRead, r@),
    {
        assert(self.bucket(CallKind::StorageRead) == self.storage_vars_read@);
        self.pick(&self.storage_vars_read)
    }

    pub fn storage_vars_written(&self) -> (r: Vec<&Statement>)
        requires
            self.wf(),
        ensures
            self.bucket_statements(CallKind::StorageWrite, r@),
    {
        assert(self.bucket(CallKind::StorageWrite) == self.storage_vars_written@);
        self.pick(&self.storage_vars_written)
    }

    pub fn core_functions_calls(&self) -> (r: Vec<&Statement>)
        requires
            self.wf(),
        ensures
            self.bucket_statements(CallKind::Core, r@),
    {
        assert(self.bucket(CallKind::Core) == self.core_functions_calls@);
        self.pick(&self.core_functions_calls)
    }

    pub fn private_functions_calls(&self) -> (r: Vec<&Statement>)
        requires
            self.wf(),
        ensures
            self.bucket_statements(CallKind::Private, r@),
    {
        assert(self.bucket(CallKind::Private) == self.private_functions_calls@);
        self.pick(&self.private_functions_calls)
    }

    pub fn events_emitted(&self) -> (r: Vec<&Statement>)
        requires
            self.wf(),
        ensures
            self.bucket_statements(CallKind::Event, r@),
    {
        assert(self.bucket(CallKind::Event) == self.events_emitted@);
        self.pick(&self.events_emitted)
    }

    pub fn external_functions_calls(&self) -> (r: Vec<&Statement>)
        requires
            self.wf(),
        ensures
            self.bucket_statements(CallKind::External, r@),
    {
        assert(self.bucket(CallKind::External) == self.external_functions_calls@);
        self.pick(&self.external_functions_calls)
    }

    pub fn library_functions_calls(&self) -> (r: Vec<&Statement>)
        requires
            self.wf(),
        ensures
            self.bucket_statements(CallKind::Library, r@),
    {
        assert(self.bucket(CallKind::Library) == self.library_functions_calls@);
        self.pick(&self.library_functions_calls)
    }

    /// Return types without the builtins
    pub fn returns_filtered(&self) -> (r: Vec<&ConcreteType>)
        ensures
            r@.len() == types_without_builtins(self.spec_returns()).len(),
            forall|j: int| 0 <= j < r@.len() ==> *r@[j] == #[trigger] types_without_builtins(self.spec_returns())[j],
    {
        let ts = &self.data.ret_types;
        let mut r: Vec<&ConcreteType> = Vec::new();
        let mut i: usize = 0;
        while i < ts.len()
            invariant
                i <= ts@.len(),
                ts@ == self.spec_returns(),
                r@.len() == types_without_builtins(ts@.subrange(0, i as int)).len(),
                forall|j: int| 0 <= j < r@.len() ==> *r@[j] == #[trigger] types_without_builtins(ts@.subrange(0, i as int))[j],
            decreases ts.len() - i,
        {
            assert(ts@.subrange(0, i + 1).drop_last() =~= ts@.subrange(0, i as int));
            if !is_builtin_name(ts[i].debug_name.as_str()) {
                r.push(&ts[i]);
            }
            i = i + 1;
        }
        assert(ts@.subrange(0, ts@.len() as int) =~= ts@);
        r
    }

    /// Return types
    pub fn returns_all(&self) -> (r: &Vec<ConcreteType>)
        ensures
            r@ == self.spec_returns(),
    {
        &self.data.ret_types
    }

    /// Parameters without the builtins
    pub fn params(&self) -> (r: Vec<&Param>)
        ensures
            r@.len() == params_without_builtins(self.spec_params()).len(),
            forall|j: int| 0 <= j < r@.len() ==> *r@[j] == #[trigger] params_without_builtins(self.spec_params())[j],
    {
        let ps = &self.data.params;
        let mut r: Vec<&Param> = Vec::new();
        let mut i: usize = 0;
        while i < ps.len()
            invariant
                i <= ps@.len(),
                ps@ == self.spec_params(),
                r@.len() == params_without_builtins(ps@.subrange(0, i as int)).len(),
                forall|j: int| 0 <= j < r@.len() ==> *r@[j] == #[trigger] params_without_builtins(ps@.subrange(0, i as int))[j],
            decreases ps.len() - i,
        {
            assert(ps@.subrange(0, i + 1).drop_last() =~= ps@.subrange(0, i as int));
            if !is_builtin_name(ps[i].ty.debug_name.as_str()) {
                r.push(&ps[i]);
            }
            i = i + 1;
        }
        assert(ps@.subrange(0, ps@.len() as int) =~= ps@);
        r
    }

    /// Parameters
    pub fn params_all(&self) -> (r: &Vec<Param>)
        ensures
            r@ == self.spec_params(),
    {
        &self.data.params
    }

    pub fn get_statements(&self) -> (r: &Vec<Statement>)
        ensures
            r@ == self.stmts(),
    {
        &self.statements
    }

    pub fn get_statements_at(&self, at: usize) -> (r: &[Statement])
        requires
            at <= self.stmts().len(),
        ensures
            r@ == self.stmts().subrange(at as int, self.stmts().len() as int),
    {
        slice_subrange(self.statements.as_slice(), at, self.statements.len())
    }

    pub fn get_cfg(&self) -> (r: &CfgRegular)
        ensures
            r.spec_blocks() == self.cfg(),
    {
        &self.cfg_regular
    }

    pub fn analyses(&self) -> (r: &Analyses)
        ensures
            r.reentrancy@ == self.reentrancy(),
    {
        &self.analyses
    }

    /// Builds the CFG of the statements, whose first sits at the entry offset, then sorts
    /// every call site into its bucket.
    /// Both are built once: on a function already analyzed this changes nothing.
    pub fn analyze(&mut self, functions: &[Function])
        requires
            old(self).wf(),
            roles_assigned(functions@),
            old(self).stmts().len() > 0,
            targets_in_range(old(self).stmts(), old(self).entry()),
        ensures
            final(self).wf(),
            final(self).same_identity(old(self)),
            final(self).is_analyzed(),
            final(self).reentrancy() == old(self).reentrancy(),
            cfg_wf(final(self).stmts(), final(self).entry(), final(self).cfg()),
            old(self).is_analyzed() ==> final(self).cfg() == old(self).cfg(),
            forall|kind: CallKind|
                #[trigger] final(self).bucket(kind) == if old(self).is_analyzed() {
                    old(self).bucket(kind)
                } else {
                    calls_of(old(self).stmts(), functions@, kind, old(self).stmts().len() as int)
                },
    {
        if self.analyzed {
            return;
        }
        self.cfg_regular.analyze(&self.statements, self.data.entry_point);
        assert(forall|kind: CallKind| #[trigger] self.bucket(kind) == old(self).bucket(kind));
        self.set_meta_informations(functions);
        let ghost mid = *self;
        self.analyzed = true;
        assert forall|kind: CallKind| #[trigger]
            self.bucket(kind) == calls_of(
                old(self).stmts(),
                functions@,
                kind,
                old(self).stmts().len() as int,
            ) by {
            assert(old(self).bucket(kind).len() == 0);
            assert(self.bucket(kind) == mid.bucket(kind));
            assert(mid.bucket(kind) == old(self).bucket(kind) + calls_of(
                old(self).stmts(),
                functions@,
                kind,
                old(self).stmts().len() as int,
            ));
            assert(mid.bucket(kind) =~= calls_of(
                old(self).stmts(),
                functions@,
                kind,
                old(self).stmts().len() as int,
            ));
        }
        assert(self.buckets_in_range()) by {
            assert forall|kind: CallKind, j: int| 0 <= j < self.bucket(kind).len() implies #[trigger] self.bucket(kind)[j]
                < self.stmts().len() by {
                assert(self.bucket(kind) == mid.bucket(kind));
            }
        }
    }

    /// Runs the reentrancy analysis over the CFG, for external functions only.
    pub fn run_analyses(&mut self, functions: &[Function])
        requires
            old(self).role().is_some(),
            roles_assigned(functions@),
            cfg_wf(old(self).stmts(), old(self).entry(), old(self).cfg()),
            forall|kind: CallKind|
                #[trigger] old(self).bucket(kind) == calls_of(
                    old(self).stmts(),
                    functions@,
                    kind,
                    old(self).stmts().len() as int,
                ),
        ensures
            old(self).wf() ==> final(self).wf(),
            final(self).is_analyzed() == old(self).is_analyzed(),
            final(self).same_identity(old(self)),
            final(self).cfg() == old(self).cfg(),
            forall|kind: CallKind| #[trigger] final(self).bucket(kind) == old(self).bucket(kind),
            old(self).role() == Some(Type::External) ==> is_least_fixpoint::<ReentrancyAnalysis>(
                old(self).stmts(),
                functions@,
                old(self).cfg(),
                final(self).reentrancy(),
            ),
            old(self).role() == Some(Type::External) ==> final(self).reentrancy_evaluations()
                <= old(self).cfg().len() + 3 * edge_count(old(self).cfg(), old(self).cfg().len() as int),
            old(self).role() != Some(Type::External) ==> final(self).reentrancy()
                == old(self).reentrancy(),
    {
        if *self.ty() == Type::External {
            proof {
                lemma_wf_fits(self.stmts(), self.entry(), self.cfg());
            }
            let mut reentrancy = Engine::new(ReentrancyAnalysis);
            reentrancy.run_analysis(&self.cfg_regular, &self.statements, functions);
            self.analyses.reentrancy = reentrancy.result().clone();
            self.evaluations = Ghost(reentrancy.spec_evaluations());
        }
        assert(forall|kind: CallKind| #[trigger] self.bucket(kind) == old(self).bucket(kind));
    }

    /// Sorts every call site into its bucket, in program order.
    fn set_meta_informations(&mut self, functions: &[Function])
        requires
            old(self).buckets_in_range(),
            roles_assigned(functions@),
        ensures
            final(self).buckets_in_range(),
            final(self).spec_name() == old(self).spec_name(),
            final(self).role() == old(self).role(),
            final(self).stmts() == old(self).stmts(),
            final(self).entry() == old(self).entry(),
            final(self).spec_params() == old(self).spec_params(),
            final(self).spec_returns() == old(self).spec_returns(),
            final(self).cfg() == old(self).cfg(),
            final(self).reentrancy() == old(self).reentrancy(),
            forall|kind: CallKind|
                #[trigger] final(self).bucket(kind) == old(self).bucket(kind) + calls_of(
                    old(self).stmts(),
                    functions@,
                    kind,
                    old(self).stmts().len() as int,
                ),
    {
        let n = self.statements.len();
        let mut i: usize = 0;
        while i < n
            invariant
                i <= n,
                n == self.stmts().len(),
                roles_assigned(functions@),
                self.buckets_in_range(),
                self.spec_name() == old(self).spec_name(),
                self.role() == old(self).role(),
                self.stmts() == old(self).stmts(),
                self.entry() == old(self).entry(),
                self.spec_params() == old(self).spec_params(),
                self.spec_returns() == old(self).spec_returns(),
                self.cfg() == old(self).cfg(),
                self.reentrancy() == old(self).reentrancy(),
                forall|kind: CallKind|
                    #[trigger] self.bucket(kind) == old(self).bucket(kind) + calls_of(
                        old(self).stmts(),
                        functions@,
                        kind,
                        i as int,
                    ),
            decreases n - i,
        {
            let k = classify_statement(&self.statements[i], functions);
            let ghost pre = *self;
            proof {
                assert forall|kind: CallKind| calls_of(old(self).stmts(), functions@, kind, i + 1)
                    == if k == Some(kind) {
                    calls_of(old(self).stmts(), functions@, kind, i as int).push(i)
                } else {
                    calls_of(old(self).stmts(), functions@, kind, i as int)
                } by {}
            }
            match k {
                Some(CallKind::StorageRead) => self.storage_vars_read.push(i),
                Some(CallKind::StorageWrite) => self.storage_vars_written.push(i),
                Some(CallKind::Core) => self.core_functions_calls.push(i),
                Some(CallKind::Private) => self.private_functions_calls.push(i),
                Some(CallKind::Event) => self.events_emitted.push(i),
                Some(CallKind::External) => self.external_functions_calls.push(i),
                Some(CallKind::Library) => self.library_functions_calls.push(i),
                None => {},
            }
            proof {
                assert forall|kind: CallKind| #[trigger]
                    self.bucket(kind) == if k == Some(kind) {
                        pre.bucket(kind).push(i)
                    } else {
                        pre.bucket(kind)
                    } by {}
                assert forall|kind: CallKind| #[trigger]
                    self.bucket(kind) =~= old(self).bucket(kind) + calls_of(
                        old(self).stmts(),
                        functions@,
                        kind,
                        i + 1,
                    ) by {}
                assert forall|kind: CallKind, j: int|
                    0 <= j < self.bucket(kind).len() implies #[trigger] self.bucket(kind)[j]
                    < self.stmts().len() by {
                    lemma_calls_of_bounded(old(self).stmts(), functions@, kind, i + 1);
                    if j >= old(self).bucket(kind).len() {
                        assert(self.bucket(kind)[j] == calls_of(
                            old(self).stmts(),
                            functions@,
                            kind,
                            i + 1,
                        )[j - old(self).bucket(kind).len()]);
                    }
                }
            }
            i = i + 1;
        }
    }
}

} // verus!
