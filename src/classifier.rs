use vstd::prelude::*;

use crate::function::{Function, Type};
use crate::ir::Statement;
use crate::text::{ends_with_spec, str_ends_with, str_equal};

verus! {

/// The bucket a call site falls into, by the role of its callee.
#[derive(Clone, Copy, PartialEq, Eq, Debug, Structural)]
pub enum CallKind {
    StorageRead,
    StorageWrite,
    Core,
    Private,
    Event,
    External,
    Library,
}

/// Index of the first function at or after `i` whose name is `name`.
pub open spec fn first_match_from(fs: Seq<Function>, name: Seq<char>, i: int) -> Option<int>
    decreases fs.len() - i,
{
    if i < 0 || i >= fs.len() {
        None
    } else if fs[i].spec_name() == name {
        Some(i)
    } else {
        first_match_from(fs, name, i + 1)
    }
}

/// Bucket of a call to a function with role `ty` and name `name`.
pub open spec fn kind_for(ty: Type, name: Seq<char>) -> Option<CallKind> {
    match ty {
        Type::Storage => if ends_with_spec(name, "read"@) {
            Some(CallKind::StorageRead)
        } else if ends_with_spec(name, "write"@) {
            Some(CallKind::StorageWrite)
        } else {
            None
        },
        Type::Event => Some(CallKind::Event),
        Type::Core => Some(CallKind::Core),
        Type::Private => Some(CallKind::Private),
        Type::AbiCallContract => Some(CallKind::External),
        Type::AbiLibraryCall => Some(CallKind::Library),
        _ => None,
    }
}

/// Every function of the program has its role.
pub open spec fn roles_assigned(fs: Seq<Function>) -> bool {
    forall|i: int| 0 <= i < fs.len() ==> (#[trigger] fs[i].role()).is_some()
}

/// Bucket of a statement: only calls of a program function that is found by
/// name in `fs` are classified, by the first function of that name.
pub open spec fn classify_spec(s: Statement, fs: Seq<Function>) -> Option<CallKind> {
    match s {
        Statement::Invocation(inv) => match inv.callee {
            Some(c) => match first_match_from(fs, c@, 0) {
                Some(i) => kind_for(fs[i].role().unwrap(), fs[i].spec_name()),
                None => None,
            },
            None => None,
        },
        Statement::Return(_) => None,
    }
}

/// Offsets, in order, of the statements among the first `k` whose bucket is `kind`.
pub open spec fn calls_of(stmts: Seq<Statement>, fs: Seq<Function>, kind: CallKind, k: int) -> Seq<
    usize,
>
    decreases k,
{
    if k <= 0 {
        Seq::empty()
    } else {
        let p = calls_of(stmts, fs, kind, k - 1);
        if classify_spec(stmts[k - 1], fs) == Some(kind) {
            p.push((k - 1) as usize)
        } else {
            p
        }
    }
}

/// Every offset in `calls_of` is below `k`.
pub proof fn lemma_calls_of_bounded(stmts: Seq<Statement>, fs: Seq<Function>, kind: CallKind, k: int)
    ensures
        forall|j: int|
            0 <= j < calls_of(stmts, fs, kind, k).len() ==> (#[trigger] calls_of(
                stmts,
                fs,
                kind,
                k,
            )[j]) < k,
    decreases k,
{
    if k > 0 {
        lemma_calls_of_bounded(stmts, fs, kind, k - 1);
        let p = calls_of(stmts, fs, kind, k - 1);
        assert forall|j: int| 0 <= j < calls_of(stmts, fs, kind, k).len() implies (#[trigger] calls_of(
            stmts,
            fs,
            kind,
            k,
        )[j]) < k by {
            if j < p.len() {
                assert(calls_of(stmts, fs, kind, k)[j] == p[j]);
            }
        }
    }
}

fn kind_of_callee(ty: Type, name: &str) -> (r: Option<CallKind>)
    ensures
        r == kind_for(ty, name@),
{
    match ty {
        Type::Storage => {
            if str_ends_with(name, "read") {
                Some(CallKind::StorageRead)
            } else if str_ends_with(name, "write") {
                Some(CallKind::StorageWrite)
            } else {
                None
            }
        },
        Type::Event => Some(CallKind::Event),
        Type::Core => Some(CallKind::Core),
        Type::Private => Some(CallKind::Private),
        Type::AbiCallContract => Some(CallKind::External),
        Type::AbiLibraryCall => Some(CallKind::Library),
        _ => None,
    }
}

/// Classifies one statement against the whole program's functions.
pub fn classify_statement(s: &Statement, functions: &[Function]) -> (r: Option<CallKind>)
    requires
        roles_assigned(functions@),
    ensures
        r == classify_spec(*s, functions@),
{
    match s {
        Statement::Invocation(inv) => match inv.callee.as_ref() {
            Some(c) => {
                let mut j: usize = 0;
                while j < functions.len()
                    invariant
                        j <= functions@.len(),
                        *s == Statement::Invocation(*inv),
                        inv.callee == Some(*c),
                        roles_assigned(functions@),
                        first_match_from(functions@, c@, 0) == first_match_from(
                            functions@,
                            c@,
                            j as int,
                        ),
                    decreases functions.len() - j,
                {
                    let f = &functions[j];
                    if str_equal(f.name_str(), c.as_str()) {
                        assert(functions@[j as int].role().is_some());
                        assert(first_match_from(functions@, c@, j as int) == Some(j as int));
                        return kind_of_callee(*f.ty(), f.name_str());
                    }
                    j = j + 1;
                }
                None
            },
            None => None,
        },
        Statement::Return(_) => None,
    }
}

proof fn lemma_calls_of_increasing(stmts: Seq<Statement>, fs: Seq<Function>, kind: CallKind, k: int)
    requires
        k <= usize::MAX,
    ensures
        forall|a: int, b: int|
            0 <= a < b < calls_of(stmts, fs, kind, k).len() ==> (#[trigger] calls_of(stmts, fs, kind, k)[a])
                < (#[trigger] calls_of(stmts, fs, kind, k)[b]),
    decreases k,
{
    if k > 0 {
        lemma_calls_of_increasing(stmts, fs, kind, k - 1);
        lemma_calls_of_bounded(stmts, fs, kind, k - 1);
        let p = calls_of(stmts, fs, kind, k - 1);
        let c = calls_of(stmts, fs, kind, k);
        assert forall|a: int, b: int| 0 <= a < b < c.len() implies (#[trigger] c[a]) < (#[trigger] c[b]) by {
            if b < p.len() {
                assert(c[a] == p[a] && c[b] == p[b]);
            } else {
                assert(c == p.push((k - 1) as usize));
                assert(c[a] == p[a]);
                assert(p[a] < k - 1);
            }
        }
    }
}

/// Classifying the same statements against the same program gives the same buckets,
/// each listing its call sites in program order.
pub proof fn lemma_classifier_deterministic(
    stmts1: Seq<Statement>,
    stmts2: Seq<Statement>,
    fs: Seq<Function>,
    kind: CallKind,
)
    requires
        stmts1 == stmts2,
        stmts1.len() <= usize::MAX,
    ensures
        calls_of(stmts1, fs, kind, stmts1.len() as int) == calls_of(stmts2, fs, kind, stmts2.len() as int),
        forall|a: int, b: int|
            0 <= a < b < calls_of(stmts1, fs, kind, stmts1.len() as int).len() ==> (#[trigger] calls_of(
                stmts1,
                fs,
                kind,
                stmts1.len() as int,
            )[a]) < (#[trigger] calls_of(stmts1, fs, kind, stmts1.len() as int)[b]),
        forall|j: int|
            0 <= j < calls_of(stmts1, fs, kind, stmts1.len() as int).len() ==> classify_spec(
                stmts1[#[trigger] calls_of(stmts1, fs, kind, stmts1.len() as int)[j] as int],
                fs,
            ) == Some(kind),
{
    lemma_calls_of_increasing(stmts1, fs, kind, stmts1.len() as int);
    lemma_calls_of_members(stmts1, fs, kind, stmts1.len() as int);
}

proof fn lemma_calls_of_members(stmts: Seq<Statement>, fs: Seq<Function>, kind: CallKind, k: int)
    requires
        k <= usize::MAX,
    ensures
        forall|j: int|
            0 <= j < calls_of(stmts, fs, kind, k).len() ==> classify_spec(
                stmts[#[trigger] calls_of(stmts, fs, kind, k)[j] as int],
                fs,
            ) == Some(kind),
    decreases k,
{
    if k > 0 {
        lemma_calls_of_members(stmts, fs, kind, k - 1);
        let p = calls_of(stmts, fs, kind, k - 1);
        let c = calls_of(stmts, fs, kind, k);
        assert forall|j: int| 0 <= j < c.len() implies classify_spec(stmts[#[trigger] c[j] as int], fs)
            == Some(kind) by {
            if j < p.len() {
                assert(c[j] == p[j]);
            } else {
                assert(classify_spec(stmts[k - 1], fs) == Some(kind));
                assert(c == p.push((k - 1) as usize));
                assert(c[j] == (k - 1) as usize);
            }
        }
    }
}

proof fn lemma_first_match_from(fs: Seq<Function>, name: Seq<char>, i: int, k: int)
    requires
        0 <= k <= i < fs.len(),
        fs[i].spec_name() == name,
        forall|j: int| 0 <= j < i ==> (#[trigger] fs[j]).spec_name() != name,
    ensures
        first_match_from(fs, name, k) == Some(i),
    decreases i - k,
{
    if k < i {
        lemma_first_match_from(fs, name, i, k + 1);
    }
}

/// Duplicate names are resolved by the first function of that name in the program: a call
/// of `name` is classified by the role of `fs[i]` when no earlier function bears that name.
pub proof fn lemma_first_match_wins(fs: Seq<Function>, s: Statement, i: int)
    requires
        0 <= i < fs.len(),
        s matches Statement::Invocation(inv) && inv.callee matches Some(c) && c@ == fs[i].spec_name(),
        forall|j: int| 0 <= j < i ==> (#[trigger] fs[j]).spec_name() != fs[i].spec_name(),
    ensures
        classify_spec(s, fs) == kind_for(fs[i].role().unwrap(), fs[i].spec_name()),
{
    lemma_first_match_from(fs, fs[i].spec_name(), i, 0);
}

} // verus!
