use caracal::cfg::CfgRegular;
use caracal::classifier::{classify_statement, CallKind};
use caracal::function::{is_builtin_name, Function, Type};
use caracal::ir::{BranchTarget, ConcreteType, FunctionData, Invocation, Param, Statement};
use caracal::reentrancy::ReentrancyState;
use caracal::text::{dot_file_name, str_ends_with, str_equal};

fn call(name: &str) -> Statement {
    Statement::Invocation(Invocation {
        libfunc: format!("function_call<user@{name}>"),
        callee: Some(name.to_string()),
        args: vec![0],
        branches: vec![BranchTarget::Fallthrough],
        results: vec![vec![1]],
    })
}

fn op(name: &str, branches: Vec<BranchTarget>) -> Statement {
    Statement::Invocation(Invocation {
        libfunc: name.to_string(),
        callee: None,
        args: vec![],
        results: branches.iter().map(|_| vec![]).collect(),
        branches,
    })
}

fn data(name: &str, entry_point: usize) -> FunctionData {
    FunctionData {
        name: name.to_string(),
        params: vec![],
        ret_types: vec![],
        entry_point,
    }
}

fn func(name: &str, stmts: Vec<Statement>, ty: Type) -> Function {
    let mut f = Function::new(data(name, 0), stmts);
    f.set_ty(ty);
    f
}

const READ: &str = "c::balance::read";
const WRITE: &str = "c::balance::write";
const EXT: &str = "c::IToken::transfer";
const LIB: &str = "c::ILib::run";

fn program() -> Vec<Function> {
    vec![
        func(READ, vec![Statement::Return(vec![])], Type::Storage),
        func(WRITE, vec![Statement::Return(vec![])], Type::Storage),
        func(EXT, vec![Statement::Return(vec![])], Type::AbiCallContract),
        func(LIB, vec![Statement::Return(vec![])], Type::AbiLibraryCall),
        func("c::Transfer::emit", vec![Statement::Return(vec![])], Type::Event),
        func("core::array::append", vec![Statement::Return(vec![])], Type::Core),
        func("c::helper", vec![Statement::Return(vec![])], Type::Private),
        func("c::wrapper", vec![Statement::Return(vec![])], Type::Wrapper),
    ]
}

fn run(name: &str, stmts: Vec<Statement>, ty: Type) -> Function {
    let all = program();
    let mut f = func(name, stmts, ty);
    f.analyze(&all);
    f.run_analyses(&all);
    f
}

fn blocks_of(f: &Function) -> Vec<(usize, usize, Vec<usize>)> {
    f.get_cfg()
        .get_basic_blocks()
        .iter()
        .map(|b| (b.start, b.end, b.successors.clone()))
        .collect()
}

#[test]
fn write_call_write_in_one_block() {
    let f = run(
        "c::withdraw",
        vec![call(WRITE), call(EXT), call(WRITE), Statement::Return(vec![])],
        Type::External,
    );
    assert_eq!(blocks_of(&f), vec![(0, 4, vec![])]);
    assert_eq!(f.analyses().reentrancy, vec![ReentrancyState::WriteAfterCall]);
}

#[test]
fn call_then_write_across_blocks() {
    let f = run(
        "c::withdraw",
        vec![
            call(EXT),
            op("jump", vec![BranchTarget::Statement(2)]),
            call(WRITE),
            Statement::Return(vec![]),
        ],
        Type::External,
    );
    assert_eq!(blocks_of(&f), vec![(0, 2, vec![1]), (2, 4, vec![])]);
    assert_eq!(
        f.analyses().reentrancy,
        vec![ReentrancyState::CallMade, ReentrancyState::WriteAfterCall]
    );
}

#[test]
fn write_before_call_only() {
    let f = run(
        "c::deposit",
        vec![call(WRITE), call(EXT), Statement::Return(vec![])],
        Type::External,
    );
    assert_eq!(f.analyses().reentrancy, vec![ReentrancyState::CallMade]);
}

#[test]
fn private_function_not_analyzed() {
    let f = run(
        "c::inner",
        vec![call(WRITE), call(EXT), call(WRITE), Statement::Return(vec![])],
        Type::Private,
    );
    assert!(f.analyses().reentrancy.is_empty());
    assert_eq!(f.external_functions_calls().len(), 1);
}

#[test]
fn first_match_wins_on_name_collision() {
    let all = vec![
        func("X::read", vec![Statement::Return(vec![])], Type::Storage),
        func("X::read", vec![Statement::Return(vec![])], Type::Core),
    ];
    let mut f = func("c::f", vec![call("X::read"), call("X::read"), Statement::Return(vec![])], Type::External);
    f.analyze(&all);
    assert_eq!(f.storage_vars_read().len(), 2);
    assert_eq!(f.core_functions_calls().len(), 0);
    assert_eq!(classify_statement(&call("X::read"), &all), Some(CallKind::StorageRead));
}

#[test]
fn library_call_counts_as_call() {
    let f = run(
        "c::f",
        vec![call(LIB), call(WRITE), Statement::Return(vec![])],
        Type::External,
    );
    assert_eq!(f.analyses().reentrancy, vec![ReentrancyState::WriteAfterCall]);
    assert_eq!(f.library_functions_calls().len(), 1);
}

#[test]
fn no_external_calls_stay_clean() {
    let f = run(
        "c::f",
        vec![
            call(WRITE),
            op("branch", vec![BranchTarget::Fallthrough, BranchTarget::Statement(3)]),
            call(READ),
            call(WRITE),
            Statement::Return(vec![]),
        ],
        Type::External,
    );
    assert_eq!(blocks_of(&f), vec![(0, 2, vec![1, 2]), (2, 3, vec![2]), (3, 5, vec![])]);
    for s in f.analyses().reentrancy.iter() {
        assert_eq!(*s, ReentrancyState::Clean);
    }
}

#[test]
fn call_on_one_branch_taints_the_join() {
    let f = run(
        "c::f",
        vec![
            op("branch", vec![BranchTarget::Fallthrough, BranchTarget::Statement(3)]),
            call(EXT),
            op("jump", vec![BranchTarget::Statement(3)]),
            call(WRITE),
            Statement::Return(vec![]),
        ],
        Type::External,
    );
    assert_eq!(blocks_of(&f), vec![(0, 1, vec![1, 2]), (1, 3, vec![2]), (3, 5, vec![])]);
    assert_eq!(
        f.analyses().reentrancy,
        vec![ReentrancyState::Clean, ReentrancyState::CallMade, ReentrancyState::WriteAfterCall]
    );
}

#[test]
fn loop_reaches_fixpoint() {
    let f = run(
        "c::f",
        vec![
            call(WRITE),
            call(EXT),
            op("jump", vec![BranchTarget::Statement(0)]),
        ],
        Type::External,
    );
    assert_eq!(blocks_of(&f), vec![(0, 3, vec![0])]);
    assert_eq!(f.analyses().reentrancy, vec![ReentrancyState::WriteAfterCall]);
}

#[test]
fn buckets_keep_program_order() {
    let all = program();
    let stmts = vec![
        call(READ),
        call(WRITE),
        call("core::array::append"),
        call("c::helper"),
        call("c::Transfer::emit"),
        call(EXT),
        call(LIB),
        call("c::wrapper"),
        call("c::unknown"),
        call(READ),
        op("store_temp", vec![BranchTarget::Fallthrough]),
        Statement::Return(vec![]),
    ];
    let mut f = func("c::f", stmts.clone(), Type::View);
    f.analyze(&all);
    assert_eq!(f.storage_vars_read().len(), 2);
    assert_eq!(f.storage_vars_written().len(), 1);
    assert_eq!(f.core_functions_calls().len(), 1);
    assert_eq!(f.private_functions_calls().len(), 1);
    assert_eq!(f.events_emitted().len(), 1);
    assert_eq!(f.external_functions_calls().len(), 1);
    assert_eq!(f.library_functions_calls().len(), 1);
    let mut g = func("c::f", stmts, Type::View);
    g.analyze(&all);
    assert_eq!(format!("{:?}", f.storage_vars_read()), format!("{:?}", g.storage_vars_read()));
    assert!(f.analyses().reentrancy.is_empty());
}

#[test]
fn storage_accessor_without_suffix_is_not_bucketed() {
    let all = vec![func("c::balance::address", vec![Statement::Return(vec![])], Type::Storage)];
    assert_eq!(classify_statement(&call("c::balance::address"), &all), None);
    assert_eq!(classify_statement(&Statement::Return(vec![]), &all), None);
    assert_eq!(classify_statement(&op("felt252_add", vec![BranchTarget::Fallthrough]), &all), None);
}

#[test]
fn cfg_with_nonzero_entry() {
    // The first statement sits at program offset 2, so a branch to offset 5 leads to
    // statement 3.
    let stmts = vec![
        call(EXT),
        op("branch", vec![BranchTarget::Statement(5), BranchTarget::Fallthrough]),
        Statement::Return(vec![]),
        call(WRITE),
        Statement::Return(vec![]),
    ];
    let mut cfg = CfgRegular::new();
    cfg.analyze(&stmts, 2);
    let got: Vec<(usize, usize, Vec<usize>)> = cfg
        .get_basic_blocks()
        .iter()
        .map(|b| (b.get_id(), b.start, b.get_outgoing_basic_blocks().clone()))
        .collect();
    assert_eq!(got, vec![(0, 0, vec![2, 1]), (1, 2, vec![]), (2, 3, vec![])]);
    assert_eq!(cfg.get_basic_blocks()[2].get_instructions(&stmts).len(), 2);
}

#[test]
fn function_with_nonzero_entry_covers_all_statements() {
    let all = program();
    let mut f = Function::new(
        data("c::f", 1),
        vec![Statement::Return(vec![]), Statement::Return(vec![])],
    );
    f.set_ty(Type::External);
    f.analyze(&all);
    assert_eq!(f.entry_point(), 1);
    assert_eq!(blocks_of(&f), vec![(0, 1, vec![]), (1, 2, vec![])]);

    let mut g = Function::new(
        data("c::g", 10),
        vec![
            call(EXT),
            op("jump", vec![BranchTarget::Statement(12)]),
            call(WRITE),
            Statement::Return(vec![]),
        ],
    );
    g.set_ty(Type::External);
    g.analyze(&all);
    g.run_analyses(&all);
    assert_eq!(blocks_of(&g), vec![(0, 2, vec![1]), (2, 4, vec![])]);
    assert_eq!(
        g.analyses().reentrancy,
        vec![ReentrancyState::CallMade, ReentrancyState::WriteAfterCall]
    );
}

#[test]
fn duplicate_branch_targets_listed_once() {
    let stmts = vec![
        op("branch", vec![BranchTarget::Statement(1), BranchTarget::Fallthrough]),
        Statement::Return(vec![]),
    ];
    let mut cfg = CfgRegular::new();
    cfg.analyze(&stmts, 0);
    assert_eq!(cfg.get_basic_blocks()[0].successors, vec![1]);
}

#[test]
fn params_and_returns_without_builtins() {
    let ty = |n: &str| ConcreteType { id: 0, debug_name: n.to_string() };
    let d = FunctionData {
        name: "c::f".to_string(),
        params: vec![
            Param { id: 0, ty: ty("RangeCheck") },
            Param { id: 1, ty: ty("felt252") },
            Param { id: 2, ty: ty("System") },
        ],
        ret_types: vec![ty("GasBuiltin"), ty("u128"), ty("Pedersen")],
        entry_point: 0,
    };
    let f = Function::new(d, vec![Statement::Return(vec![])]);
    assert_eq!(f.params_all().len(), 3);
    let ps: Vec<u64> = f.params().iter().map(|p| p.id).collect();
    assert_eq!(ps, vec![1]);
    assert_eq!(f.returns_all().len(), 3);
    let rs: Vec<String> = f.returns_filtered().iter().map(|t| t.debug_name.clone()).collect();
    assert_eq!(rs, vec!["u128".to_string()]);
    assert_eq!(f.name(), "c::f");
    assert_eq!(f.get_statements().len(), 1);
    assert_eq!(f.get_statements_at(1).len(), 0);
}

#[test]
fn builtin_names_and_text() {
    for n in ["Pedersen", "RangeCheck", "Bitwise", "EcOp", "Poseidon", "SegmentArena", "GasBuiltin", "System"] {
        assert!(is_builtin_name(n));
    }
    assert!(!is_builtin_name("felt252"));
    assert!(!is_builtin_name("Systems"));
    assert!(str_equal("abc", "abc"));
    assert!(!str_equal("abc", "abd"));
    assert!(str_ends_with("x::read", "read"));
    assert!(!str_ends_with("x::write", "read"));
    assert!(!str_ends_with("ad", "read"));
}

#[test]
fn dot_file_names() {
    assert_eq!(dot_file_name("c::f<felt252>::g"), "c_f.dot");
    assert_eq!(dot_file_name("a::b"), "a_b.dot");
    assert_eq!(dot_file_name(":::x"), "_:x.dot");
    assert_eq!(dot_file_name(""), ".dot");
}

#[test]
fn analyze_twice_fills_buckets_once() {
    let all = program();
    let mut f = func("c::f", vec![call(WRITE), call(EXT), op("jump", vec![BranchTarget::Statement(3)]), call(WRITE), Statement::Return(vec![])], Type::External);
    f.analyze(&all);
    f.analyze(&all);
    assert_eq!(f.external_functions_calls().len(), 1);
    assert_eq!(f.storage_vars_written().len(), 2);
    assert_eq!(blocks_of(&f), vec![(0, 3, vec![1]), (3, 5, vec![])]);
    f.run_analyses(&all);
    assert_eq!(
        f.analyses().reentrancy,
        vec![ReentrancyState::CallMade, ReentrancyState::WriteAfterCall]
    );
}

#[test]
fn role_assigned_once() {
    let mut f = Function::new(data("c::f", 0), vec![Statement::Return(vec![])]);
    assert!(!f.has_ty());
    f.set_ty(Type::View);
    assert!(f.has_ty());
    assert_eq!(*f.ty(), Type::View);
}
