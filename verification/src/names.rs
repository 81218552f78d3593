//! Lists of names: used as sets that remember the order of insertion.

use vstd::prelude::*;

verus! {

/// The names that a list of strings holds, in order.
pub open spec fn names_of(v: Seq<String>) -> Seq<Seq<char>> {
    v.map_values(|s: String| s@)
}

/// Whether `x` is one of the names in `v`.
pub fn contains_name(v: &Vec<String>, x: &String) -> (b: bool)
    ensures
        b == names_of(v@).contains(x@),
{
    let mut i: usize = 0;
    while i < v.len()
        invariant
            i <= v.len(),
            forall|j: int| 0 <= j < i ==> names_of(v@)[j] != x@,
        decreases v.len() - i,
    {
        if v[i] == *x {
            assert(names_of(v@)[i as int] == x@);
            return true;
        }
        i += 1;
    }
    false
}

/// A copy of a list of names.
pub fn clone_names(v: &Vec<String>) -> (r: Vec<String>)
    ensures
        r@ == v@,
{
    let mut r: Vec<String> = Vec::new();
    let mut i: usize = 0;
    while i < v.len()
        invariant
            i <= v.len(),
            r@ == v@.take(i as int),
        decreases v.len() - i,
    {
        r.push(v[i].clone());
        assert(r@ =~= v@.take(i + 1));
        i += 1;
    }
    assert(r@ =~= v@);
    r
}

/// The set of the names in a list.
pub open spec fn name_set(v: Seq<String>) -> Set<Seq<char>> {
    names_of(v).to_set()
}

/// `env` with `x` at its end, unless `env` holds `x` already.
pub open spec fn env_insert(env: Seq<Seq<char>>, x: Seq<char>) -> Seq<Seq<char>> {
    if env.contains(x) {
        env
    } else {
        env.push(x)
    }
}

/// `env` after the first `n` names of `xs` were inserted, one after the other.
pub open spec fn env_extend(env: Seq<Seq<char>>, xs: Seq<Seq<char>>, n: int) -> Seq<Seq<char>>
    decreases n,
{
    if n <= 0 || n > xs.len() {
        env
    } else {
        env_insert(env_extend(env, xs, n - 1), xs[n - 1])
    }
}

/// The names of `env_insert(env, x)` are those of `env`, and `x`.
pub proof fn lemma_env_insert_set(env: Seq<Seq<char>>, x: Seq<char>)
    ensures
        env_insert(env, x).to_set() == env.to_set().insert(x),
        env.no_duplicates() ==> env_insert(env, x).no_duplicates(),
{
    let r = env_insert(env, x);
    if env.contains(x) {
        assert(r.to_set() =~= env.to_set().insert(x));
    } else {
        assert forall|y: Seq<char>| r.to_set().contains(y) implies env.to_set().insert(x).contains(
            y,
        ) by {
            let i = choose|i: int| 0 <= i < r.len() && r[i] == y;
            if i < env.len() {
                assert(env[i] == y);
            }
        }
        assert forall|y: Seq<char>| env.to_set().insert(x).contains(y) implies r.to_set().contains(
            y,
        ) by {
            if y == x {
                assert(r[env.len() as int] == x);
            } else {
                let i = choose|i: int| 0 <= i < env.len() && env[i] == y;
                assert(r[i] == y);
            }
        }
        assert(r.to_set() =~= env.to_set().insert(x));
    }
}

/// The names of `env_extend(env, xs, n)` are those of `env` and the first `n` of `xs`.
pub proof fn lemma_env_extend_set(env: Seq<Seq<char>>, xs: Seq<Seq<char>>, n: int)
    requires
        0 <= n <= xs.len(),
    ensures
        env_extend(env, xs, n).to_set() == env.to_set().union(xs.take(n).to_set()),
        env.no_duplicates() ==> env_extend(env, xs, n).no_duplicates(),
    decreases n,
{
    if n == 0 {
        assert(xs.take(0).to_set() =~= Set::<Seq<char>>::empty());
        assert(env.to_set().union(xs.take(n).to_set()) =~= env.to_set());
    } else {
        lemma_env_extend_set(env, xs, n - 1);
        lemma_env_insert_set(env_extend(env, xs, n - 1), xs[n - 1]);
        let a = xs.take(n - 1);
        let b = xs.take(n);
        assert(b =~= a.push(xs[n - 1]));
        lemma_env_insert_set(a, xs[n - 1]);
        assert forall|y: Seq<char>| b.to_set().contains(y) <==> a.to_set().insert(
            xs[n - 1],
        ).contains(y) by {
            if b.to_set().contains(y) {
                let i = choose|i: int| 0 <= i < b.len() && b[i] == y;
                if i < n - 1 {
                    assert(a[i] == y);
                }
            }
            if a.to_set().insert(xs[n - 1]).contains(y) {
                if y == xs[n - 1] {
                    assert(b[n - 1] == y);
                } else {
                    let i = choose|i: int| 0 <= i < a.len() && a[i] == y;
                    assert(b[i] == y);
                }
            }
        }
        assert(env_extend(env, xs, n).to_set() =~= env.to_set().union(xs.take(n).to_set()));
    }
}

/// Puts a copy of `x` at the end of `v` unless `v` holds the name already. Says whether
/// it did.
pub fn insert_name(v: &mut Vec<String>, x: &String) -> (fresh: bool)
    ensures
        fresh == !names_of(old(v)@).contains(x@),
        names_of(final(v)@) == env_insert(names_of(old(v)@), x@),
{
    if contains_name(v, x) {
        false
    } else {
        v.push(x.clone());
        assert(names_of(v@) =~= names_of(old(v)@).push(x@));
        true
    }
}

/// Inserts each name of `xs` into `v`, in order.
pub fn insert_names(v: &mut Vec<String>, xs: &Vec<String>)
    ensures
        names_of(final(v)@) == env_extend(names_of(old(v)@), names_of(xs@), xs.len() as int),
{
    let mut i: usize = 0;
    while i < xs.len()
        invariant
            i <= xs.len(),
            names_of(v@) == env_extend(names_of(old(v)@), names_of(xs@), i as int),
        decreases xs.len() - i,
    {
        insert_name(v, &xs[i]);
        i += 1;
    }
}

/// An environment that was extended holds what it held, and the names it was
/// extended by.
pub proof fn lemma_env_extend_contains(env: Seq<Seq<char>>, xs: Seq<Seq<char>>, n: int)
    requires
        0 <= n <= xs.len(),
    ensures
        forall|x: Seq<char>| env.contains(x) ==> #[trigger] env_extend(env, xs, n).contains(x),
        forall|j: int| 0 <= j < n ==> env_extend(env, xs, n).contains(#[trigger] xs[j]),
        forall|k: int| 0 <= k < env.len() ==> env_extend(env, xs, n).contains(#[trigger] env[k]),
    decreases n,
{
    if n > 0 {
        lemma_env_extend_contains(env, xs, n - 1);
        let before = env_extend(env, xs, n - 1);
        let after = env_extend(env, xs, n);
        assert forall|x: Seq<char>| before.contains(x) implies after.contains(x) by {
            if !before.contains(xs[n - 1]) {
                let k = choose|k: int| 0 <= k < before.len() && before[k] == x;
                assert(after[k] == x);
            }
        }
        if !before.contains(xs[n - 1]) {
            assert(after[before.len() as int] == xs[n - 1]);
        }
        assert(after.contains(xs[n - 1]));
        assert forall|j: int| 0 <= j < n implies after.contains(#[trigger] xs[j]) by {
            if j < n - 1 {
                assert(before.contains(xs[j]));
            }
        }
        assert forall|k: int| 0 <= k < env.len() implies after.contains(#[trigger] env[k]) by {
            assert(before.contains(env[k]));
        }
    } else {
        assert forall|k: int| 0 <= k < env.len() implies env.contains(#[trigger] env[k]) by {}
    }
}

/// Two lists, one after the other, hold what either holds.
pub proof fn lemma_add_to_set(env: Seq<Seq<char>>, ps: Seq<Seq<char>>)
    ensures
        (env + ps).to_set() == env.to_set().union(ps.to_set()),
{
    assert forall|x: Seq<char>| (env + ps).to_set().contains(x) implies env.to_set().union(
        ps.to_set(),
    ).contains(x) by {
        let j = choose|j: int| 0 <= j < (env + ps).len() && (env + ps)[j] == x;
        if j < env.len() {
            assert(env[j] == x);
        } else {
            assert(ps[j - env.len()] == x);
        }
    }
    assert forall|x: Seq<char>| env.to_set().union(ps.to_set()).contains(x) implies (env
        + ps).to_set().contains(x) by {
        if env.to_set().contains(x) {
            let j = choose|j: int| 0 <= j < env.len() && env[j] == x;
            assert((env + ps)[j] == x);
        } else {
            let j = choose|j: int| 0 <= j < ps.len() && ps[j] == x;
            assert((env + ps)[env.len() + j] == x);
        }
    }
    assert((env + ps).to_set() =~= env.to_set().union(ps.to_set()));
}

} // verus!
