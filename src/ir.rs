use vstd::prelude::*;

verus! {

/// Where control goes after one branch of an invocation.
#[derive(Clone, Copy, PartialEq, Eq, Debug, Structural)]
pub enum BranchTarget {
    /// The statement right after the invocation.
    Fallthrough,
    /// The statement at the given program offset; in a function whose first statement
    /// sits at program offset `entry`, that is its statement `offset - entry`.
    Statement(usize),
}

/// A call of a library operation, as resolved against the operation registry.
#[derive(Clone, Debug)]
pub struct Invocation {
    /// Name of the operation, for display.
    pub libfunc: String,
    /// The program function called, when the operation calls one.
    pub callee: Option<String>,
    /// Variables consumed by the invocation.
    pub args: Vec<u64>,
    /// The branches, in the order the operation lists them.
    pub branches: Vec<BranchTarget>,
    /// Variables produced on each branch, in the order of `branches`.
    pub results: Vec<Vec<u64>>,
}

/// One IR statement.
#[derive(Clone, Debug)]
pub enum Statement {
    Invocation(Invocation),
    /// Returns the given variables.
    Return(Vec<u64>),
}

/// A concrete type of a parameter or a return value.
#[derive(Clone, Debug)]
pub struct ConcreteType {
    pub id: u64,
    pub debug_name: String,
}

/// A declared parameter: its variable and its type.
#[derive(Clone, Debug)]
pub struct Param {
    pub id: u64,
    pub ty: ConcreteType,
}

/// Identity and signature of a function, as loaded from the IR.
#[derive(Clone, Debug)]
pub struct FunctionData {
    pub name: String,
    pub params: Vec<Param>,
    pub ret_types: Vec<ConcreteType>,
    /// Program offset of the function's first statement, which may be past prologue
    /// statements of the program.
    pub entry_point: usize,
}

/// Index, in a statement list whose first statement sits at program offset `entry`, that a
/// branch leads to from the statement at index `at`.
pub open spec fn target_offset(t: BranchTarget, at: int, entry: int) -> int {
    match t {
        BranchTarget::Fallthrough => at + 1,
        BranchTarget::Statement(o) => o - entry,
    }
}

/// Whether the branch names explicitly the statement at index `t` of a list whose first
/// statement sits at program offset `entry`.
pub open spec fn names_index(b: BranchTarget, entry: int, t: int) -> bool {
    match b {
        BranchTarget::Statement(o) => o - entry == t,
        BranchTarget::Fallthrough => false,
    }
}

/// Whether the statement ends a basic block: anything but an invocation
/// whose only branch falls through.
pub open spec fn is_terminator(s: Statement) -> bool {
    match s {
        Statement::Return(_) => true,
        Statement::Invocation(inv) => !(inv.branches@.len() == 1 && inv.branches@[0]
            == BranchTarget::Fallthrough),
    }
}

/// The branches of a statement; a return has none.
pub open spec fn branches_of(s: Statement) -> Seq<BranchTarget> {
    match s {
        Statement::Return(_) => Seq::empty(),
        Statement::Invocation(inv) => inv.branches@,
    }
}

/// Every explicit branch target names a statement of the list, whose first statement sits at
/// program offset `entry`: it lies in `[entry, entry + len)`.
pub open spec fn targets_in_range(stmts: Seq<Statement>, entry: int) -> bool {
    forall|i: int, k: int|
        #![trigger branches_of(stmts[i])[k]]
        0 <= i < stmts.len() && 0 <= k < branches_of(stmts[i]).len() ==> match branches_of(
            stmts[i],
        )[k] {
            BranchTarget::Statement(o) => entry <= o < entry + stmts.len(),
            BranchTarget::Fallthrough => true,
        }
}

/// Whether `s` is a block terminator.
pub fn statement_is_terminator(s: &Statement) -> (r: bool)
    ensures
        r == is_terminator(*s),
{
    match s {
        Statement::Return(_) => true,
        Statement::Invocation(inv) => !(inv.branches.len() == 1 && inv.branches[0]
            == BranchTarget::Fallthrough),
    }
}

} // verus!
