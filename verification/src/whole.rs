//! Programs without functions, from the source to the code: renaming keeps what a
//! program means, lifting leaves it as it is, and its code runs as it means.

use vstd::prelude::*;
use crate::check::{well_formed, well_formed_prog};
use crate::classify::lift_set;
use crate::codegen::exp_code;
use crate::compile::{fits_machine, lemma_pipeline, lifted, renamed, sequential};
use crate::control::exec;
use crate::lift::{
    extend_all, extend_bindings, extend_calls, extend_decls, first_pass, first_table, keep_decls,
    lift_bindings, lift_exp, lift_operands, lift_prog, rebind,
};
use crate::lists::{concat_all, concat_upto, firsts, lemma_total_mono, seconds, total};
use crate::machine::{Machine, Res, Val, ends_as, packed};
use crate::meaning::{generated, lemma_tag_above, meaning, meaning_from, simple};
use crate::names::env_extend;
use crate::runs::{
    lemma_expression_runs, lemma_seq_shape, lemma_tag_seq_keeps, low_names, small_numbers,
};
use crate::sequential::{seq_exp, seq_prog_spec};
use crate::syntax::{ExpV, FunDeclV, binding_names};
use crate::tag::{
    binding_nodes, decl_nodes, nodes, operand_nodes, seq_decl_nodes, tag_bindings, tag_operands,
    tag_seq_spec, tag_spec,
};
use crate::text::{fresh_name, lemma_fresh_name_injective};
use crate::uniquify::{rename_all, uniq_bindings, uniq_operands, uniq_spec};
use crate::uniquify_proofs::{
    lemma_rename_all_value, lemma_renamed_has_no_shadowing, tagged_within, unshadowed,
};

verus! {

/// Whether a name is one that a program can give a variable: it is not empty and does
/// not begin with `#`.
pub open spec fn ident(x: Seq<char>) -> bool {
    x.len() > 0 && x[0] != '#'
}

/// Whether `p` is made of numbers, booleans, variables, primitive operations with as
/// many operands as they take, `Let` and `If` alone, and binds names that a program
/// can give alone.
pub open spec fn plain_source<S>(p: ExpV<S>) -> bool
    decreases p,
{
    match p {
        ExpV::Num(..) | ExpV::Bool(..) | ExpV::Var(..) => true,
        ExpV::Prim(op, es, _) => {
            &&& es.len() == op.arity()
            &&& forall|i: int| 0 <= i < es.len() ==> plain_source(#[trigger] es[i])
        },
        ExpV::Let { bindings, body, .. } => {
            &&& forall|i: int|
                0 <= i < bindings.len() ==> ident((#[trigger] bindings[i]).0) && plain_source(
                    bindings[i].1,
                )
            &&& plain_source(*body)
        },
        ExpV::If { cond, thn, els, .. } => plain_source(*cond) && plain_source(*thn)
            && plain_source(*els),
        _ => false,
    }
}

/// Whether `vm` gives every variable of `vs` a new name with a tag of at most `hi`
/// as suffix.
pub open spec fn renamed_upto(vs: Set<Seq<char>>, vm: Map<Seq<char>, Seq<char>>, hi: nat) -> bool {
    forall|x: Seq<char>| #[trigger] vs.contains(x) ==> tagged_within(vm[x], 0, hi)
}

/// Whether every variable of `vs` has in `venv2`, under its new name, the value that
/// it has in `venv1`.
pub open spec fn same_values(
    vs: Set<Seq<char>>,
    vm: Map<Seq<char>, Seq<char>>,
    venv1: Map<Seq<char>, Val>,
    venv2: Map<Seq<char>, Val>,
) -> bool {
    forall|x: Seq<char>| #[trigger] vs.contains(x) ==> venv2[vm[x]] == venv1[x]
}

/// The variables in scope at binding `i` of the `Let` `p`, `vs` being in scope
/// around `p`; for another expression, `vs`.
pub open spec fn scope_at<S>(p: ExpV<S>, i: int, vs: Set<Seq<char>>) -> Set<Seq<char>> {
    match p {
        ExpV::Let { bindings, .. } => vs.union(binding_names(bindings).take(i).to_set()),
        _ => vs,
    }
}

/// The new names of the variables in scope at binding `i` of the `Let` `p` tagged
/// `t`, `vm` giving those of the variables in scope around `p`; for another
/// expression, `vm`.
pub open spec fn names_at<S>(
    p: ExpV<S>,
    i: int,
    vm: Map<Seq<char>, Seq<char>>,
    t: u32,
) -> Map<Seq<char>, Seq<char>> {
    match p {
        ExpV::Let { bindings, .. } => rename_all(vm, binding_names(bindings), i, t),
        _ => vm,
    }
}

/// New names with tags up to a number have tags up to every larger one.
pub proof fn lemma_renamed_upto_more(
    vs: Set<Seq<char>>,
    vm: Map<Seq<char>, Seq<char>>,
    hi: nat,
    more: nat,
)
    requires
        renamed_upto(vs, vm, hi),
        hi <= more,
    ensures
        renamed_upto(vs, vm, more),
{
    assert forall|x: Seq<char>| #[trigger] vs.contains(x) implies tagged_within(vm[x], 0, more) by {
        let (y, n) = choose|y: Seq<char>, n: u32| 0 < n <= hi && vm[x] == #[trigger] fresh_name(y, n);
        assert(0 < n <= more && vm[x] == fresh_name(y, n));
    }
}

/// At a binding of a `Let` tagged `t`, the variables in scope have new names with
/// tags up to `t`, where those in scope around the `Let` have tags below `t`.
pub proof fn lemma_renamed_at(
    vs: Set<Seq<char>>,
    vm: Map<Seq<char>, Seq<char>>,
    names: Seq<Seq<char>>,
    i: int,
    t: u32,
    hi: nat,
)
    requires
        0 <= i <= names.len(),
        0 < t <= hi,
        renamed_upto(vs, vm, (t - 1) as nat),
    ensures
        renamed_upto(vs.union(names.take(i).to_set()), rename_all(vm, names, i, t), hi),
{
    let scope = vs.union(names.take(i).to_set());
    let vm_i = rename_all(vm, names, i, t);
    assert forall|x: Seq<char>| #[trigger] scope.contains(x) implies tagged_within(vm_i[x], 0, hi) by {
        lemma_rename_all_value(vm, names, i, t, x);
        if names.take(i).contains(x) {
            assert(0 < t <= hi && vm_i[x] == fresh_name(x, t));
        } else {
            assert(vs.contains(x));
            let (y, n) = choose|y: Seq<char>, n: u32|
                0 < n <= t - 1 && vm[x] == #[trigger] fresh_name(y, n);
            assert(0 < n <= hi && vm_i[x] == fresh_name(y, n));
        }
    }
}

/// After a binding of a `Let` tagged `t`, the variables in scope have under their
/// new names the values that they have under their own, where they had before and
/// the variable of the binding gets the same value under both names.
pub proof fn lemma_same_values_bound(
    vs: Set<Seq<char>>,
    vm: Map<Seq<char>, Seq<char>>,
    names: Seq<Seq<char>>,
    i: int,
    t: u32,
    venv1: Map<Seq<char>, Val>,
    venv2: Map<Seq<char>, Val>,
    v: Val,
)
    requires
        0 <= i < names.len(),
        names.no_duplicates(),
        t > 0,
        renamed_upto(vs, vm, (t - 1) as nat),
        same_values(vs.union(names.take(i).to_set()), rename_all(vm, names, i, t), venv1, venv2),
    ensures
        same_values(
            vs.union(names.take(i + 1).to_set()),
            rename_all(vm, names, i + 1, t),
            venv1.insert(names[i], v),
            venv2.insert(fresh_name(names[i], t), v),
        ),
{
    let scope = vs.union(names.take(i).to_set());
    let next = vs.union(names.take(i + 1).to_set());
    let vm_i = rename_all(vm, names, i, t);
    let vm_n = rename_all(vm, names, i + 1, t);
    let new = fresh_name(names[i], t);
    assert(names.take(i + 1) =~= names.take(i).push(names[i]));
    assert forall|y: Seq<char>| #[trigger] next.contains(y) implies venv2.insert(new, v)[vm_n[y]]
        == venv1.insert(names[i], v)[y] by {
        lemma_rename_all_value(vm, names, i, t, y);
        lemma_rename_all_value(vm, names, i + 1, t, y);
        if y == names[i] {
            assert(names.take(i + 1)[i] == y);
        } else {
            let a = names.take(i);
            let b = names.take(i + 1);
            if b.contains(y) {
                let k = choose|k: int| 0 <= k < b.len() && b[k] == y;
                assert(a[k] == y);
            }
            if a.contains(y) {
                let k = choose|k: int| 0 <= k < a.len() && a[k] == y;
                assert(b[k] == y);
                if fresh_name(y, t) == new {
                    lemma_fresh_name_injective(y, t, names[i], t);
                }
            } else {
                assert(vs.contains(y));
                let (z, n) = choose|z: Seq<char>, n: u32|
                    0 < n <= t - 1 && vm[y] == #[trigger] fresh_name(z, n);
                if vm[y] == new {
                    lemma_fresh_name_injective(z, n, names[i], t);
                }
            }
            assert(scope.contains(y));
            assert(vm_n[y] == vm_i[y]);
            assert(vm_i[y] != new);
        }
    }
}

/// The expression `p`, tagged from `t0` on and renamed, `vm` giving the new names of
/// the variables in scope.
pub open spec fn renamed_from<S>(p: ExpV<S>, t0: nat, vm: Map<Seq<char>, Seq<char>>) -> ExpV<()> {
    uniq_spec(tag_spec(p, t0), vm, Map::empty())
}

/// Renaming keeps the meaning: a well-formed expression without functions, tagged
/// and renamed, comes to what the expression comes to, where every variable in
/// scope has under its new name the value that it has under its own.
pub proof fn lemma_renamed_meaning<S>(
    p: ExpV<S>,
    t0: nat,
    vs: Set<Seq<char>>,
    vm: Map<Seq<char>, Seq<char>>,
    venv1: Map<Seq<char>, Val>,
    venv2: Map<Seq<char>, Val>,
)
    requires
        plain_source(p),
        well_formed(p, vs, Map::empty()),
        t0 + nodes(p) <= u32::MAX,
        renamed_upto(vs, vm, t0),
        same_values(vs, vm, venv1, venv2),
    ensures
        meaning(renamed_from(p, t0, vm), venv2) == meaning(p, venv1),
    decreases p,
        (if p is Let {
            p->Let_bindings.len() + 1
        } else {
            1
        }),
{
    if p is Let {
        let names = binding_names(p->Let_bindings);
        assert(names.take(0).to_set() =~= Set::<Seq<char>>::empty());
        assert(vs.union(names.take(0).to_set()) =~= vs);
    }
    lemma_renamed_meaning_from(p, t0, 0, vs, vm, venv1, venv2);
}

/// `lemma_renamed_meaning`, for the bindings of a `Let` from the `i`th on as well.
#[verifier::rlimit(40)]
pub proof fn lemma_renamed_meaning_from<S>(
    p: ExpV<S>,
    t0: nat,
    i: int,
    vs: Set<Seq<char>>,
    vm: Map<Seq<char>, Seq<char>>,
    venv1: Map<Seq<char>, Val>,
    venv2: Map<Seq<char>, Val>,
)
    requires
        plain_source(p),
        well_formed(p, vs, Map::empty()),
        t0 + nodes(p) <= u32::MAX,
        0 <= i,
        p is Let ==> i <= p->Let_bindings.len(),
        renamed_upto(vs, vm, t0),
        same_values(scope_at(p, i, vs), names_at(p, i, vm, (t0 + 1) as u32), venv1, venv2),
    ensures
        meaning_from(renamed_from(p, t0, vm), i, venv2) == meaning_from(p, i, venv1),
    decreases p,
        (if p is Let && i <= p->Let_bindings.len() {
            p->Let_bindings.len() - i
        } else {
            0
        }),
{
    let q = renamed_from(p, t0, vm);
    let t = (t0 + 1) as u32;
    let fm = Map::<Seq<char>, Seq<char>>::empty();
    match p {
        ExpV::Prim(op, es, _) => {
            let sizes = operand_nodes(es);
            let out = uniq_operands(tag_operands(es, t0 + 1), vm, fm);
            assert(q == ExpV::Prim(op, out, ()));
            assert forall|k: int| 0 <= k < es.len() implies meaning(#[trigger] out[k], venv2)
                == meaning(es[k], venv1) by {
                let tk = t0 + 1 + total(sizes, k);
                assert(total(sizes, k + 1) == total(sizes, k) + nodes(es[k]));
                lemma_total_mono(sizes, k + 1, es.len() as int);
                lemma_renamed_upto_more(vs, vm, t0, tk);
                assert(plain_source(es[k]) && well_formed(es[k], vs, Map::empty()));
                lemma_renamed_meaning(es[k], tk, vs, vm, venv1, venv2);
                assert(out[k] == renamed_from(es[k], tk, vm));
            }
            if es.len() >= 1 {
                assert(meaning(out[0], venv2) == meaning(es[0], venv1));
            }
            if es.len() >= 2 {
                assert(meaning(out[1], venv2) == meaning(es[1], venv1));
            }
        },
        ExpV::Let { bindings, body, .. } => {
            let names = binding_names(bindings);
            let sizes = binding_nodes(bindings);
            let tagged = tag_bindings(bindings, t0 + 1);
            assert(binding_names(tagged) =~= names);
            let out = uniq_bindings(tagged, vm, fm, t);
            let after = t0 + 1 + total(sizes, bindings.len() as int);
            let vm_i = rename_all(vm, names, i, t);
            if i < bindings.len() {
                let ti = t0 + 1 + total(sizes, i);
                assert(total(sizes, i + 1) == total(sizes, i) + nodes(bindings[i].1));
                lemma_total_mono(sizes, i + 1, bindings.len() as int);
                lemma_renamed_at(vs, vm, names, i, t, ti);
                assert(ident(bindings[i].0) && plain_source(bindings[i].1));
                assert(well_formed(
                    bindings[i].1,
                    vs.union(names.take(i).to_set()),
                    Map::empty(),
                ));
                lemma_renamed_meaning(
                    bindings[i].1,
                    ti,
                    vs.union(names.take(i).to_set()),
                    vm_i,
                    venv1,
                    venv2,
                );
                assert(out[i].1 == renamed_from(bindings[i].1, ti, vm_i));
                assert(out[i].0 == fresh_name(names[i], t));
                match meaning(bindings[i].1, venv1) {
                    Res::Value(v) => {
                        lemma_same_values_bound(vs, vm, names, i, t, venv1, venv2, v);
                        lemma_renamed_meaning_from(
                            p,
                            t0,
                            i + 1,
                            vs,
                            vm,
                            venv1.insert(names[i], v),
                            venv2.insert(fresh_name(names[i], t), v),
                        );
                    },
                    _ => {},
                }
            } else {
                assert(names.take(i) =~= names);
                lemma_total_mono(sizes, 0, bindings.len() as int);
                lemma_renamed_at(vs, vm, names, i, t, after);
                lemma_renamed_meaning(
                    *body,
                    after,
                    vs.union(names.to_set()),
                    vm_i,
                    venv1,
                    venv2,
                );
            }
        },
        ExpV::If { cond, thn, els, .. } => {
            lemma_renamed_upto_more(vs, vm, t0, t0 + 1);
            lemma_renamed_upto_more(vs, vm, t0, t0 + 1 + nodes(*cond));
            lemma_renamed_upto_more(vs, vm, t0, t0 + 1 + nodes(*cond) + nodes(*thn));
            lemma_renamed_meaning(*cond, t0 + 1, vs, vm, venv1, venv2);
            lemma_renamed_meaning(*thn, t0 + 1 + nodes(*cond), vs, vm, venv1, venv2);
            lemma_renamed_meaning(
                *els,
                t0 + 1 + nodes(*cond) + nodes(*thn),
                vs,
                vm,
                venv1,
                venv2,
            );
        },
        _ => {},
    }
}

/// Whether none of the new names that `vm` gives the variables of `vs` is one that
/// sequentialization makes.
pub open spec fn user_named(vs: Set<Seq<char>>, vm: Map<Seq<char>, Seq<char>>) -> bool {
    forall|x: Seq<char>| #[trigger] vs.contains(x) ==> !generated(vm[x])
}

/// A well-formed expression without functions, tagged and renamed, is simple, and
/// its numbers are in range.
pub proof fn lemma_renamed_simple<S>(
    p: ExpV<S>,
    t0: nat,
    vs: Set<Seq<char>>,
    vm: Map<Seq<char>, Seq<char>>,
)
    requires
        plain_source(p),
        well_formed(p, vs, Map::empty()),
        user_named(vs, vm),
    ensures
        simple(renamed_from(p, t0, vm)),
        small_numbers(renamed_from(p, t0, vm)),
    decreases p,
{
    let q = renamed_from(p, t0, vm);
    let t = (t0 + 1) as u32;
    let fm = Map::<Seq<char>, Seq<char>>::empty();
    reveal_strlit("#");
    match p {
        ExpV::Prim(op, es, _) => {
            let sizes = operand_nodes(es);
            let out = uniq_operands(tag_operands(es, t0 + 1), vm, fm);
            assert(q == ExpV::Prim(op, out, ()));
            assert forall|k: int| 0 <= k < out.len() implies simple(#[trigger] out[k])
                && small_numbers(out[k]) by {
                assert(plain_source(es[k]) && well_formed(es[k], vs, Map::empty()));
                lemma_renamed_simple(es[k], t0 + 1 + total(sizes, k), vs, vm);
            }
        },
        ExpV::Let { bindings, body, .. } => {
            let names = binding_names(bindings);
            let sizes = binding_nodes(bindings);
            let tagged = tag_bindings(bindings, t0 + 1);
            assert(binding_names(tagged) =~= names);
            let out = uniq_bindings(tagged, vm, fm, t);
            assert forall|j: int| 0 <= j <= bindings.len() implies user_named(
                vs.union(names.take(j).to_set()),
                #[trigger] rename_all(vm, names, j, t),
            ) by {
                let scope = vs.union(names.take(j).to_set());
                let vm_j = rename_all(vm, names, j, t);
                assert forall|x: Seq<char>| #[trigger] scope.contains(x) implies !generated(
                    vm_j[x],
                ) by {
                    lemma_rename_all_value(vm, names, j, t, x);
                    if names.take(j).contains(x) {
                        let k = choose|k: int| 0 <= k < names.take(j).len() && names.take(j)[k] == x;
                        assert(ident(bindings[k].0));
                        assert(fresh_name(x, t)[0] == x[0]);
                    }
                }
            }
            assert forall|j: int| 0 <= j < out.len() implies !generated((#[trigger] out[j]).0)
                && simple(out[j].1) && small_numbers(out[j].1) by {
                assert(ident(bindings[j].0) && plain_source(bindings[j].1));
                assert(fresh_name(names[j], t)[0] == names[j][0]);
                assert(well_formed(
                    bindings[j].1,
                    vs.union(names.take(j).to_set()),
                    Map::empty(),
                ));
                let vm_j = rename_all(vm, names, j, t);
                assert(user_named(vs.union(names.take(j).to_set()), vm_j));
                lemma_renamed_simple(
                    bindings[j].1,
                    t0 + 1 + total(sizes, j),
                    vs.union(names.take(j).to_set()),
                    vm_j,
                );
            }
            let n = bindings.len() as int;
            assert(names.take(n) =~= names);
            assert(user_named(vs.union(names.take(n).to_set()), rename_all(vm, names, n, t)));
            lemma_renamed_simple(
                *body,
                t0 + 1 + total(sizes, n),
                vs.union(names.to_set()),
                rename_all(vm, names, n, t),
            );
        },
        ExpV::If { cond, thn, els, .. } => {
            lemma_renamed_simple(*cond, t0 + 1, vs, vm);
            lemma_renamed_simple(*thn, t0 + 1 + nodes(*cond), vs, vm);
            lemma_renamed_simple(*els, t0 + 1 + nodes(*cond) + nodes(*thn), vs, vm);
        },
        _ => {},
    }
}

/// Lists that are all empty make an empty list together.
pub proof fn lemma_concat_empty<T>(parts: Seq<Seq<T>>, n: int)
    requires
        forall|k: int| 0 <= k < parts.len() ==> (#[trigger] parts[k]).len() == 0,
    ensures
        concat_upto(parts, n) =~= Seq::<T>::empty(),
    decreases n,
{
    if 0 < n <= parts.len() {
        lemma_concat_empty(parts, n - 1);
        assert(parts[n - 1].len() == 0);
    }
}

/// Lifting finds no function in a simple expression and leaves it as it is.
pub proof fn lemma_lift_simple(
    e: ExpV<()>,
    env: Seq<Seq<char>>,
    lifted: Set<Seq<char>>,
    is_tail: bool,
)
    requires
        simple(e),
    ensures
        lift_exp(e, env, lifted, is_tail) == (Seq::<FunDeclV<ExpV<()>, ()>>::empty(), e),
        extend_calls(e, Map::empty()) == e,
    decreases e,
{
    let table = Map::<Seq<char>, Seq<Seq<char>>>::empty();
    let none = Seq::<FunDeclV<ExpV<()>, ()>>::empty();
    match e {
        ExpV::Num(n, a) => {
            let unit: () = a;
            assert(e == ExpV::Num(n, ()));
        },
        ExpV::Bool(b, a) => {
            let unit: () = a;
            assert(e == ExpV::Bool(b, ()));
        },
        ExpV::Var(x, a) => {
            let unit: () = a;
            assert(e == ExpV::Var(x, ()));
        },
        ExpV::Prim(p, es, a) => {
            let unit: () = a;
            let rs = lift_operands(es, env, lifted);
            assert forall|k: int| 0 <= k < es.len() implies (#[trigger] rs[k]) == (none, es[k])
                && extend_all(es, table)[k] == es[k] by {
                assert(simple(es[k]));
                lemma_lift_simple(es[k], env, lifted, false);
            }
            assert forall|k: int| 0 <= k < firsts(rs).len() implies (#[trigger] firsts(rs)[k]).len()
                == 0 by {
                assert(rs[k] == (none, es[k]));
            }
            lemma_concat_empty(firsts(rs), rs.len() as int);
            assert(seconds(rs) =~= es);
            assert(extend_all(es, table) =~= es);
            assert(e == ExpV::Prim(p, es, ()));
        },
        ExpV::Let { bindings, body, ann } => {
            let unit: () = ann;
            let rs = lift_bindings(bindings, env, lifted);
            let names = binding_names(bindings);
            assert forall|k: int| 0 <= k < bindings.len() implies (#[trigger] rs[k]) == (
                none,
                bindings[k].1,
            ) && extend_bindings(bindings, table)[k] == bindings[k] by {
                assert(simple(bindings[k].1));
                lemma_lift_simple(bindings[k].1, env_extend(env, names, k), lifted, false);
            }
            assert forall|k: int| 0 <= k < firsts(rs).len() implies (#[trigger] firsts(rs)[k]).len()
                == 0 by {
                assert(rs[k] == (none, bindings[k].1));
            }
            lemma_concat_empty(firsts(rs), rs.len() as int);
            assert(rebind(bindings, rs) =~= bindings);
            assert(extend_bindings(bindings, table) =~= bindings);
            let scope = env_extend(env, names, bindings.len() as int);
            lemma_lift_simple(*body, scope, lifted, is_tail);
            assert(concat_all(firsts(rs)) + lift_exp(*body, scope, lifted, is_tail).0 =~= none);
            assert(e == ExpV::Let { bindings: bindings, body: body, ann: () });
        },
        ExpV::If { cond, thn, els, ann } => {
            let unit: () = ann;
            lemma_lift_simple(*cond, env, lifted, false);
            lemma_lift_simple(*thn, env, lifted, is_tail);
            lemma_lift_simple(*els, env, lifted, is_tail);
            assert(none + none + none =~= none);
            assert(e == ExpV::If { cond: cond, thn: thn, els: els, ann: () });
        },
        _ => {},
    }
}

/// Lifting makes of a simple program the program itself, without functions.
pub proof fn lemma_lift_simple_prog(e: ExpV<()>)
    requires
        simple(e),
    ensures
        lift_prog(e) == (Seq::<FunDeclV<ExpV<()>, ()>>::empty(), e),
{
    lemma_lift_simple(e, Seq::empty(), lift_set(e), true);
    let none = Seq::<FunDeclV<ExpV<()>, ()>>::empty();
    assert(first_pass(e) == (none, e));
    assert(first_table(e) == Map::<Seq<char>, Seq<Seq<char>>>::empty());
    assert(keep_decls(extend_decls(none, first_table(e)), 0, lift_set(e), true) == none);
}

/// Tagging keeps what an expression comes to.
pub proof fn lemma_tag_keeps_meaning<S>(e: ExpV<S>, t: nat, i: int, venv: Map<Seq<char>, Val>)
    requires
        0 <= i,
    ensures
        meaning_from(tag_spec(e, t), i, venv) == meaning_from(e, i, venv),
    decreases e,
        (if e is Let && i <= e->Let_bindings.len() {
            e->Let_bindings.len() - i
        } else {
            0
        }),
{
    match e {
        ExpV::Prim(_, es, _) => {
            let sizes = operand_nodes(es);
            let out = tag_operands(es, t + 1);
            if es.len() >= 1 {
                lemma_tag_keeps_meaning(es[0], t + 1 + total(sizes, 0), 0, venv);
                assert(out[0] == tag_spec(es[0], t + 1 + total(sizes, 0)));
            }
            if es.len() >= 2 {
                lemma_tag_keeps_meaning(es[1], t + 1 + total(sizes, 1), 0, venv);
                assert(out[1] == tag_spec(es[1], t + 1 + total(sizes, 1)));
            }
        },
        ExpV::Let { bindings, body, .. } => {
            let sizes = binding_nodes(bindings);
            let out = tag_bindings(bindings, t + 1);
            if i < bindings.len() {
                lemma_tag_keeps_meaning(bindings[i].1, t + 1 + total(sizes, i), 0, venv);
                assert(out[i] == (bindings[i].0, tag_spec(bindings[i].1, t + 1 + total(sizes, i))));
                match meaning_from(bindings[i].1, 0, venv) {
                    Res::Value(v) => {
                        lemma_tag_keeps_meaning(e, t, i + 1, venv.insert(bindings[i].0, v));
                    },
                    _ => {},
                }
            } else {
                lemma_tag_keeps_meaning(
                    *body,
                    t + 1 + total(sizes, bindings.len() as int),
                    0,
                    venv,
                );
            }
        },
        ExpV::If { cond, thn, els, .. } => {
            lemma_tag_keeps_meaning(*cond, t + 1, 0, venv);
            lemma_tag_keeps_meaning(*thn, t + 1 + nodes(*cond), 0, venv);
            lemma_tag_keeps_meaning(*els, t + 1 + nodes(*cond) + nodes(*thn), 0, venv);
        },
        _ => {},
    }
}

/// Tagging keeps the numbers of a simple expression in range, and its binders from
/// binding a name that is in scope.
pub proof fn lemma_tag_keeps_shape<S>(e: ExpV<S>, t: nat, vars: Set<Seq<char>>)
    requires
        simple(e),
        small_numbers(e),
        unshadowed(e, vars),
    ensures
        small_numbers(tag_spec(e, t)),
        unshadowed(tag_spec(e, t), vars),
    decreases e,
{
    match e {
        ExpV::Prim(_, es, _) => {
            let sizes = operand_nodes(es);
            let out = tag_operands(es, t + 1);
            assert forall|k: int| 0 <= k < out.len() implies small_numbers(#[trigger] out[k])
                && unshadowed(out[k], vars) by {
                assert(simple(es[k]) && small_numbers(es[k]) && unshadowed(es[k], vars));
                lemma_tag_keeps_shape(es[k], t + 1 + total(sizes, k), vars);
            }
        },
        ExpV::Let { bindings, body, .. } => {
            let sizes = binding_nodes(bindings);
            let names = binding_names(bindings);
            let out = tag_bindings(bindings, t + 1);
            assert(binding_names(out) =~= names);
            assert forall|k: int| 0 <= k < out.len() implies small_numbers((#[trigger] out[k]).1)
                && unshadowed(out[k].1, vars.union(names.take(k).to_set())) by {
                assert(simple(bindings[k].1) && small_numbers(bindings[k].1));
                assert(unshadowed(bindings[k].1, vars.union(names.take(k).to_set())));
                lemma_tag_keeps_shape(
                    bindings[k].1,
                    t + 1 + total(sizes, k),
                    vars.union(names.take(k).to_set()),
                );
            }
            assert forall|k: int| 0 <= k < out.len() implies !vars.contains(
                #[trigger] binding_names(out)[k],
            ) by {
                assert(!vars.contains(names[k]));
            }
            lemma_tag_keeps_shape(
                *body,
                t + 1 + total(sizes, bindings.len() as int),
                vars.union(names.to_set()),
            );
        },
        ExpV::If { cond, thn, els, .. } => {
            lemma_tag_keeps_shape(*cond, t + 1, vars);
            lemma_tag_keeps_shape(*thn, t + 1 + nodes(*cond), vars);
            lemma_tag_keeps_shape(*els, t + 1 + nodes(*cond) + nodes(*thn), vars);
        },
        _ => {},
    }
}

/// In an expression without functions, every primitive operation has as many
/// operands as it takes.
pub proof fn lemma_plain_saturated<S>(p: ExpV<S>)
    requires
        plain_source(p),
    ensures
        p.prims_saturated(),
    decreases p,
{
    match p {
        ExpV::Prim(_, es, _) => {
            assert forall|k: int| 0 <= k < es.len() implies (#[trigger] es[k]).prims_saturated() by {
                assert(plain_source(es[k]));
                lemma_plain_saturated(es[k]);
            }
        },
        ExpV::Let { bindings, body, .. } => {
            assert forall|k: int| 0 <= k < bindings.len() implies (
            #[trigger] bindings[k]).1.prims_saturated() by {
                assert(plain_source(bindings[k].1));
                lemma_plain_saturated(bindings[k].1);
            }
            lemma_plain_saturated(*body);
        },
        ExpV::If { cond, thn, els, .. } => {
            lemma_plain_saturated(*cond);
            lemma_plain_saturated(*thn);
            lemma_plain_saturated(*els);
        },
        _ => {},
    }
}

/// A well-formed program without functions and printing runs as it means: it
/// becomes a program without functions, and the code of that program's main
/// expression, in a frame of any size, ends with the bits of the value of the
/// program in `rax`, or in the trap with the code and the bits of the error that
/// the program ends with.
pub proof fn lemma_plain_program_runs<S>(p: ExpV<S>, space: i32, m: Machine)
    requires
        plain_source(p),
        well_formed_prog(p),
        fits_machine(p),
    ensures
        sequential(p).funs.len() == 0,
        ends_as(
            exec(
                exp_code(sequential(p).main, Map::empty(), space),
                0,
                m,
                exp_code(sequential(p).main, Map::empty(), space).len(),
            ),
            meaning(p, Map::empty()),
            Map::empty(),
            Map::empty(),
        ),
{
    let none = Set::<Seq<char>>::empty();
    let no_names = Map::<Seq<char>, Seq<char>>::empty();
    let venv = Map::<Seq<char>, Val>::empty();
    let env = Map::<Seq<char>, i32>::empty();
    lemma_plain_saturated(p);
    lemma_pipeline(p);
    let r = renamed(p);
    assert(r == renamed_from(p, 0, no_names));
    lemma_renamed_simple(p, 0, none, no_names);
    lemma_renamed_meaning(p, 0, none, no_names, venv, venv);
    lemma_renamed_has_no_shadowing(p);
    lemma_lift_simple_prog(r);
    let no_funs = Seq::<FunDeclV<ExpV<()>, ()>>::empty();
    assert(lift_prog(r) == (no_funs, r));
    assert(total(decl_nodes(no_funs), 0) == 0);
    let main = lifted(p).1;
    assert(main == tag_spec(r, 0));
    assert(lifted(p).0.len() == 0);
    lemma_tag_above(r, 0);
    lemma_tag_keeps_meaning(r, 0, 0, venv);
    lemma_tag_keeps_shape(r, 0, none);
    let sp = seq_prog_spec(lifted(p).0, lifted(p).1);
    assert(sp.funs.len() == 0);
    assert(total(seq_decl_nodes(sp.funs), 0) == 0);
    assert(sequential(p).main == tag_seq_spec(seq_exp(main), 1));
    lemma_seq_shape(main);
    lemma_tag_seq_keeps(seq_exp(main), 1, none, venv);
    assert(env.dom() =~= none);
    assert(env.len() == 0);
    assert(packed(env));
    assert(low_names(env.dom(), 0));
    lemma_expression_runs(main, 0, 1, env, venv, space, m);
}

} // verus!
