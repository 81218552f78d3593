//! Lists of lists, of numbers and of sets: taking them together, and what holds of
//! every entry.

use vstd::prelude::*;

verus! {

/// The first `n` lists of `parts`, one after the other.
pub open spec fn concat_upto<T>(parts: Seq<Seq<T>>, n: int) -> Seq<T>
    decreases n,
{
    if n <= 0 || n > parts.len() {
        Seq::empty()
    } else {
        concat_upto(parts, n - 1) + parts[n - 1]
    }
}

/// All the lists of `parts`, one after the other.
pub open spec fn concat_all<T>(parts: Seq<Seq<T>>) -> Seq<T> {
    concat_upto(parts, parts.len() as int)
}

/// The first components of a list of pairs.
pub open spec fn firsts<S, T>(pairs: Seq<(S, T)>) -> Seq<S> {
    Seq::new(pairs.len(), |i: int| pairs[i].0)
}

/// The second components of a list of pairs.
pub open spec fn seconds<S, T>(pairs: Seq<(S, T)>) -> Seq<T> {
    Seq::new(pairs.len(), |i: int| pairs[i].1)
}

/// The sum of the first `n` numbers of `s`.
pub open spec fn total(s: Seq<nat>, n: int) -> nat
    decreases n,
{
    if n <= 0 || n > s.len() {
        0
    } else {
        total(s, n - 1) + s[n - 1]
    }
}

/// A longer prefix has a larger sum.
pub proof fn lemma_total_mono(s: Seq<nat>, i: int, n: int)
    requires
        0 <= i <= n <= s.len(),
    ensures
        total(s, i) <= total(s, n),
    decreases n,
{
    if i < n {
        lemma_total_mono(s, i, n - 1);
    }
}

/// The members of the first `n` sets of `sets`.
pub open spec fn union_upto<T>(sets: Seq<Set<T>>, n: int) -> Set<T> {
    Set::new(|x: T| exists|j: int| 0 <= j < n && j < sets.len() && #[trigger] sets[j].contains(x))
}

/// The members of all the sets of `sets`.
pub open spec fn union_all<T>(sets: Seq<Set<T>>) -> Set<T> {
    union_upto(sets, sets.len() as int)
}

/// The union of no sets is empty.
pub proof fn lemma_union_upto_zero<T>(sets: Seq<Set<T>>)
    ensures
        union_upto(sets, 0) == Set::<T>::empty(),
{
    assert(union_upto(sets, 0) =~= Set::<T>::empty());
}

/// One more set adds its members to the union.
pub proof fn lemma_union_upto_step<T>(sets: Seq<Set<T>>, n: int)
    requires
        0 <= n < sets.len(),
    ensures
        union_upto(sets, n + 1) == union_upto(sets, n).union(sets[n]),
{
    let a = union_upto(sets, n + 1);
    let b = union_upto(sets, n).union(sets[n]);
    assert forall|x: T| a.contains(x) implies b.contains(x) by {
        let j = choose|j: int| 0 <= j < n + 1 && j < sets.len() && #[trigger] sets[j].contains(x);
        if j < n {
            assert(union_upto(sets, n).contains(x));
        }
    }
    assert forall|x: T| b.contains(x) implies a.contains(x) by {
        if union_upto(sets, n).contains(x) {
            let j = choose|j: int| 0 <= j < n && j < sets.len() && #[trigger] sets[j].contains(x);
            assert(sets[j].contains(x));
        } else {
            assert(sets[n].contains(x));
        }
    }
    assert(a =~= b);
}

/// A member of one of the first `n` sets is a member of their union.
pub proof fn lemma_union_member<T>(sets: Seq<Set<T>>, n: int, i: int)
    requires
        0 <= i < n <= sets.len(),
    ensures
        sets[i].subset_of(union_upto(sets, n)),
{
    assert forall|x: T| sets[i].contains(x) implies union_upto(sets, n).contains(x) by {
        assert(0 <= i < n && i < sets.len() && sets[i].contains(x));
    }
}

/// Whether every entry of `a` is an entry of `b`.
pub open spec fn within<T>(a: Seq<T>, b: Seq<T>) -> bool {
    forall|x: T| a.contains(x) ==> #[trigger] b.contains(x)
}

/// An entry of one of the first `n` lists is an entry of the lists taken together.
pub proof fn lemma_concat_within<T>(parts: Seq<Seq<T>>, n: int, i: int)
    requires
        0 <= i < n <= parts.len(),
    ensures
        within(parts[i], concat_upto(parts, n)),
    decreases n,
{
    let whole = concat_upto(parts, n);
    let before = concat_upto(parts, n - 1);
    if i < n - 1 {
        lemma_concat_within(parts, n - 1, i);
        assert forall|x: T| parts[i].contains(x) implies #[trigger] whole.contains(x) by {
            assert(before.contains(x));
            let k = choose|k: int| 0 <= k < before.len() && before[k] == x;
            assert(whole[k] == x);
        }
    } else {
        assert forall|x: T| parts[i].contains(x) implies #[trigger] whole.contains(x) by {
            let k = choose|k: int| 0 <= k < parts[i].len() && parts[i][k] == x;
            assert(whole[before.len() + k] == x);
        }
    }
}

/// The entries of each of two lists are entries of the two, one after the other.
pub proof fn lemma_add_within<T>(a: Seq<T>, b: Seq<T>)
    ensures
        within(a, a + b),
        within(b, a + b),
{
    assert forall|x: T| a.contains(x) implies #[trigger] (a + b).contains(x) by {
        let k = choose|k: int| 0 <= k < a.len() && a[k] == x;
        assert((a + b)[k] == x);
    }
    assert forall|x: T| b.contains(x) implies #[trigger] (a + b).contains(x) by {
        let k = choose|k: int| 0 <= k < b.len() && b[k] == x;
        assert((a + b)[a.len() + k] == x);
    }
}

/// An entry of the first `n` lists taken together is an entry of one of them.
pub proof fn lemma_part_of<T>(parts: Seq<Seq<T>>, n: int, x: T)
    requires
        0 <= n <= parts.len(),
        concat_upto(parts, n).contains(x),
    ensures
        exists|i: int| 0 <= i < n && (#[trigger] parts[i]).contains(x),
    decreases n,
{
    if n > 0 {
        let before = concat_upto(parts, n - 1);
        let whole = concat_upto(parts, n);
        let k = choose|k: int| 0 <= k < whole.len() && whole[k] == x;
        if k < before.len() {
            assert(before[k] == x);
            lemma_part_of(parts, n - 1, x);
            let i = choose|i: int| 0 <= i < n - 1 && (#[trigger] parts[i]).contains(x);
            assert(0 <= i < n && parts[i].contains(x));
        } else {
            assert(parts[n - 1][k - before.len()] == x);
            assert(parts[n - 1].contains(x));
        }
    }
}

/// Whether `q` holds of every entry of `s`.
pub open spec fn every<T>(s: Seq<T>, q: spec_fn(T) -> bool) -> bool {
    forall|j: int| 0 <= j < s.len() ==> q(#[trigger] s[j])
}

/// `q` holds of every entry of two lists, one after the other, exactly where it holds
/// of every entry of each.
pub proof fn lemma_every_add<T>(a: Seq<T>, b: Seq<T>, q: spec_fn(T) -> bool)
    ensures
        every(a + b, q) <==> every(a, q) && every(b, q),
{
    if every(a + b, q) {
        assert forall|j: int| 0 <= j < a.len() implies q(#[trigger] a[j]) by {
            assert((a + b)[j] == a[j]);
        }
        assert forall|j: int| 0 <= j < b.len() implies q(#[trigger] b[j]) by {
            assert((a + b)[a.len() + j] == b[j]);
        }
    }
    if every(a, q) && every(b, q) {
        assert forall|j: int| 0 <= j < (a + b).len() implies q(#[trigger] (a + b)[j]) by {
            if j < a.len() {
                assert((a + b)[j] == a[j]);
            } else {
                assert((a + b)[j] == b[j - a.len()]);
            }
        }
    }
}

/// `q` holds of every entry of the first `n` lists of `parts`, one after the other,
/// exactly where it holds of every entry of each of them.
pub proof fn lemma_every_concat<T>(parts: Seq<Seq<T>>, n: int, q: spec_fn(T) -> bool)
    requires
        0 <= n <= parts.len(),
    ensures
        every(concat_upto(parts, n), q) <==> forall|i: int|
            0 <= i < n ==> every(#[trigger] parts[i], q),
    decreases n,
{
    if n > 0 {
        lemma_every_concat(parts, n - 1, q);
        lemma_every_add(concat_upto(parts, n - 1), parts[n - 1], q);
        if every(concat_upto(parts, n), q) {
            assert forall|i: int| 0 <= i < n implies every(#[trigger] parts[i], q) by {
                if i < n - 1 {
                }
            }
        }
    }
}

/// Where two lists, one after the other, hold nothing twice, neither does each, and
/// they share no entry.
pub proof fn lemma_add_apart<T>(a: Seq<T>, b: Seq<T>)
    requires
        (a + b).no_duplicates(),
    ensures
        a.no_duplicates(),
        b.no_duplicates(),
        forall|x: T| a.contains(x) ==> !b.contains(x),
{
    let c = a + b;
    assert forall|i: int, j: int| 0 <= i < a.len() && 0 <= j < a.len() && i != j implies a[i]
        != a[j] by {
        assert(c[i] == a[i] && c[j] == a[j]);
    }
    assert forall|i: int, j: int| 0 <= i < b.len() && 0 <= j < b.len() && i != j implies b[i]
        != b[j] by {
        assert(c[a.len() + i] == b[i] && c[a.len() + j] == b[j]);
    }
    assert forall|x: T| a.contains(x) implies !b.contains(x) by {
        if b.contains(x) {
            let i = choose|i: int| 0 <= i < a.len() && a[i] == x;
            let j = choose|j: int| 0 <= j < b.len() && b[j] == x;
            assert(c[i] == x && c[a.len() + j] == x);
        }
    }
}

/// Where the first `n` lists, taken together, hold nothing twice, neither does one of
/// them, and no two of them share an entry.
pub proof fn lemma_concat_apart<T>(parts: Seq<Seq<T>>, n: int, i: int)
    requires
        0 <= i < n <= parts.len(),
        concat_upto(parts, n).no_duplicates(),
    ensures
        parts[i].no_duplicates(),
        forall|j: int, x: T|
            0 <= j < n && j != i && parts[i].contains(x) ==> !(#[trigger] parts[j].contains(x)),
    decreases n,
{
    let before = concat_upto(parts, n - 1);
    lemma_add_apart(before, parts[n - 1]);
    if i < n - 1 {
        lemma_concat_apart(parts, n - 1, i);
        lemma_concat_within(parts, n - 1, i);
        assert forall|j: int, x: T|
            0 <= j < n && j != i && parts[i].contains(x) implies !(#[trigger] parts[j].contains(
            x,
        )) by {
            if j == n - 1 {
                assert(before.contains(x));
            }
        }
    } else {
        assert forall|j: int, x: T|
            0 <= j < n && j != i && parts[i].contains(x) implies !(#[trigger] parts[j].contains(
            x,
        )) by {
            if parts[j].contains(x) {
                lemma_concat_within(parts, n - 1, j);
                assert(before.contains(x));
            }
        }
    }
}

} // verus!
