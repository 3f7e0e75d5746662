use vstd::prelude::*;

verus! {

/// Whether `s` ends with `suffix`, character by character.
pub open spec fn ends_with_spec(s: Seq<char>, suffix: Seq<char>) -> bool {
    suffix.len() <= s.len() && s.subrange(s.len() - suffix.len(), s.len() as int) == suffix
}

/// Compares two strings character by character.
pub fn str_equal(a: &str, b: &str) -> (r: bool)
    ensures
        r == (a@ == b@),
{
    let n = a.unicode_len();
    if n != b.unicode_len() {
        return false;
    }
    let mut i: usize = 0;
    while i < n
        invariant
            n == a@.len(),
            n == b@.len(),
            i <= n,
            forall|k: int| 0 <= k < i ==> a@[k] == b@[k],
        decreases n - i,
    {
        if a.get_char(i) != b.get_char(i) {
            return false;
        }
        i = i + 1;
    }
    assert(a@ =~= b@);
    true
}

/// Whether `s` ends with `suffix`.
pub fn str_ends_with(s: &str, suffix: &str) -> (r: bool)
    ensures
        r == ends_with_spec(s@, suffix@),
{
    let n = s.unicode_len();
    let m = suffix.unicode_len();
    if m > n {
        return false;
    }
    let mut i: usize = 0;
    while i < m
        invariant
            n == s@.len(),
            m == suffix@.len(),
            m <= n,
            i <= m,
            forall|k: int| 0 <= k < i ==> s@[n - m + k] == suffix@[k],
        decreases m - i,
    {
        if s.get_char(n - m + i) != suffix.get_char(i) {
            assert(s@.subrange(n - m, n as int)[i as int] != suffix@[i as int]);
            return false;
        }
        i = i + 1;
    }
    assert(s@.subrange(n - m, n as int) =~= suffix@);
    true
}

/// `s` up to its first `<`, or all of `s` when it has none.
pub open spec fn before_generics(s: Seq<char>) -> Seq<char>
    decreases s.len(),
{
    if s.len() == 0 {
        s
    } else if s[0] == '<' {
        Seq::empty()
    } else {
        seq![s[0]] + before_generics(s.drop_first())
    }
}

/// `s` with each `::`, matched from left to right, replaced by `_`.
pub open spec fn underscore_paths(s: Seq<char>) -> Seq<char>
    decreases s.len(),
{
    if s.len() == 0 {
        s
    } else if s.len() >= 2 && s[0] == ':' && s[1] == ':' {
        seq!['_'] + underscore_paths(s.subrange(2, s.len() as int))
    } else {
        seq![s[0]] + underscore_paths(s.drop_first())
    }
}

proof fn lemma_before_generics(s: Seq<char>, p: int)
    requires
        0 <= p <= s.len(),
        forall|j: int| 0 <= j < p ==> s[j] != '<',
        p == s.len() || s[p] == '<',
    ensures
        before_generics(s) == s.subrange(0, p),
    decreases s.len(),
{
    if s.len() > 0 && p > 0 {
        lemma_before_generics(s.drop_first(), p - 1);
        assert(s.subrange(0, p) =~= seq![s[0]] + s.drop_first().subrange(0, p - 1));
    } else {
        assert(s.subrange(0, p) =~= Seq::<char>::empty());
    }
}

/// Name of the dot file for a function: its name without generic arguments, with each
/// `::` turned into `_`, and the `.dot` extension.
pub fn dot_file_name(name: &str) -> (r: String)
    ensures
        r@ == underscore_paths(before_generics(name@)) + ".dot"@,
{
    let n = name.unicode_len();
    let mut p: usize = 0;
    while p < n && name.get_char(p) != '<'
        invariant
            p <= n,
            n == name@.len(),
            forall|j: int| 0 <= j < p ==> name@[j] != '<',
        decreases n - p,
    {
        p = p + 1;
    }
    proof {
        lemma_before_generics(name@, p as int);
    }
    let ghost t = name@.subrange(0, p as int);
    let mut r = String::new();
    proof {
        assert(t.subrange(0, p as int) =~= t);
        assert(r@ + t =~= t);
    }
    let mut i: usize = 0;
    while i < p
        invariant
            i <= p <= n,
            n == name@.len(),
            t == name@.subrange(0, p as int),
            r@ + underscore_paths(t.subrange(i as int, p as int)) == underscore_paths(t),
        decreases p - i,
    {
        let ghost rest = t.subrange(i as int, p as int);
        if i + 1 < p && name.get_char(i) == ':' && name.get_char(i + 1) == ':' {
            proof {
                reveal_strlit("_");
                assert(rest.subrange(2, rest.len() as int) =~= t.subrange(i + 2, p as int));
                assert(r@ + seq!['_'] + underscore_paths(t.subrange(i + 2, p as int)) =~= r@
                    + underscore_paths(rest));
            }
            r.append("_");
            proof {
                assert(r@ + underscore_paths(t.subrange(i + 2, p as int)) =~= underscore_paths(t));
            }
            i = i + 2;
        } else {
            let c = name.substring_char(i, i + 1);
            proof {
                assert(rest.drop_first() =~= t.subrange(i + 1, p as int));
                assert(c@ =~= seq![rest[0]]);
                assert(r@ + c@ + underscore_paths(t.subrange(i + 1, p as int)) =~= r@
                    + underscore_paths(rest));
            }
            r.append(c);
            proof {
                assert(r@ + underscore_paths(t.subrange(i + 1, p as int)) =~= underscore_paths(t));
            }
            i = i + 1;
        }
    }
    proof {
        assert(t.subrange(p as int, p as int) =~= Seq::<char>::empty());
        assert(r@ =~= underscore_paths(t));
    }
    r.append(".dot");
    r
}

} // verus!
