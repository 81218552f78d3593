//! Why a well-formed program, once tagged and renamed, is ready for lifting.

use vstd::prelude::*;
use vstd::seq_lib::lemma_no_dup_in_concat;
use crate::check::{well_formed, with_group};
use crate::lists::{concat_all, concat_upto, lemma_total_mono, total};
use crate::names::{env_extend, lemma_env_extend_contains};
use crate::scope::{
    binding_declared, declared, group_declared, lift_ready, lift_scoped, operand_declared,
    with_lifted_group,
};
use crate::syntax::{ExpV, FunDeclV, binding_names, group_names};
use crate::tag::{
    binding_nodes, decl_nodes, nodes, operand_nodes, tag_bindings, tag_group, tag_operands,
    tag_spec,
};
use crate::text::{fresh_name, lemma_fresh_name_injective};
use crate::uniquify::{
    fresh_names, last_tag, lemma_rename_all_dom, lemma_with_group_dom, rename_all, uniq_bindings,
    uniq_decls, uniq_operands, uniq_spec,
};

verus! {

/// What `rename_all` maps a name to: the name with its suffix if it is among the
/// names renamed, and what `map` maps it to if not.
pub proof fn lemma_rename_all_value(
    map: Map<Seq<char>, Seq<char>>,
    names: Seq<Seq<char>>,
    n: int,
    t: u32,
    x: Seq<char>,
)
    requires
        0 <= n <= names.len(),
    ensures
        names.take(n).contains(x) ==> rename_all(map, names, n, t).contains_key(x) && rename_all(
            map,
            names,
            n,
            t,
        )[x] == fresh_name(x, t),
        !names.take(n).contains(x) ==> rename_all(map, names, n, t).contains_key(x)
            == map.contains_key(x) && rename_all(map, names, n, t)[x] == map[x],
    decreases n,
{
    if n > 0 {
        lemma_rename_all_value(map, names, n - 1, t, x);
        let a = names.take(n - 1);
        let b = names.take(n);
        assert(b =~= a.push(names[n - 1]));
        if x == names[n - 1] {
            assert(b[n - 1] == x);
        } else {
            if a.contains(x) {
                let k = choose|k: int| 0 <= k < a.len() && a[k] == x;
                assert(b[k] == x);
            }
            if b.contains(x) {
                let k = choose|k: int| 0 <= k < b.len() && b[k] == x;
                assert(a[k] == x);
            }
        }
    } else {
        assert(names.take(0) =~= Seq::<Seq<char>>::empty());
    }
}

/// Whether `vm` renames exactly the variables `vs`, to names that `env` holds.
pub open spec fn vars_related(
    vs: Set<Seq<char>>,
    vm: Map<Seq<char>, Seq<char>>,
    env: Seq<Seq<char>>,
) -> bool {
    &&& vm.dom() == vs
    &&& forall|x: Seq<char>| #[trigger] vs.contains(x) ==> env.contains(vm[x])
}

/// Whether the new name of the function `f` is `f` with a tag of at most `t0` as
/// suffix, and `fenv` gives it at least as many parameters as `fs` gives `f`, the
/// additional ones in front being variables of `env`.
pub open spec fn fun_related(
    fs: Map<Seq<char>, nat>,
    fm: Map<Seq<char>, Seq<char>>,
    fenv: Map<Seq<char>, Seq<Seq<char>>>,
    env: Seq<Seq<char>>,
    t0: nat,
    f: Seq<char>,
) -> bool {
    &&& exists|t: u32| t <= t0 && fm[f] == #[trigger] fresh_name(f, t)
    &&& fenv.contains_key(fm[f])
    &&& fenv[fm[f]].len() >= fs[f]
    &&& forall|k: int| 0 <= k < fenv[fm[f]].len() - fs[f] ==> env.contains(#[trigger] fenv[fm[f]][k])
}

/// Whether `fm` renames exactly the functions of `fs`, each as `fun_related` says.
pub open spec fn funs_related(
    fs: Map<Seq<char>, nat>,
    fm: Map<Seq<char>, Seq<char>>,
    fenv: Map<Seq<char>, Seq<Seq<char>>>,
    env: Seq<Seq<char>>,
    t0: nat,
) -> bool {
    &&& fm.dom() == fs.dom()
    &&& forall|f: Seq<char>| #[trigger] fs.contains_key(f) ==> fun_related(fs, fm, fenv, env, t0, f)
}

/// Functions stay related where more variables are in scope and more tags are used.
pub proof fn lemma_funs_related_weaken(
    fs: Map<Seq<char>, nat>,
    fm: Map<Seq<char>, Seq<char>>,
    fenv: Map<Seq<char>, Seq<Seq<char>>>,
    env: Seq<Seq<char>>,
    t0: nat,
    env2: Seq<Seq<char>>,
    t2: nat,
)
    requires
        funs_related(fs, fm, fenv, env, t0),
        t0 <= t2,
        forall|x: Seq<char>| env.contains(x) ==> #[trigger] env2.contains(x),
    ensures
        funs_related(fs, fm, fenv, env2, t2),
{
    assert forall|f: Seq<char>| #[trigger] fs.contains_key(f) implies fun_related(
        fs,
        fm,
        fenv,
        env2,
        t2,
        f,
    ) by {
        assert(fun_related(fs, fm, fenv, env, t0, f));
        let t = choose|t: u32| t <= t0 && fm[f] == #[trigger] fresh_name(f, t);
        assert(t <= t2 && fm[f] == fresh_name(f, t));
        assert forall|k: int| 0 <= k < fenv[fm[f]].len() - fs[f] implies env2.contains(
            #[trigger] fenv[fm[f]][k],
        ) by {
            assert(env.contains(fenv[fm[f]][k]));
        }
    }
}

/// Variables stay related when the first `n` names of `names` are bound and renamed.
pub proof fn lemma_vars_related_extend(
    vs: Set<Seq<char>>,
    vm: Map<Seq<char>, Seq<char>>,
    env: Seq<Seq<char>>,
    names: Seq<Seq<char>>,
    n: int,
    t: u32,
)
    requires
        vars_related(vs, vm, env),
        0 <= n <= names.len(),
    ensures
        vars_related(
            vs.union(names.take(n).to_set()),
            rename_all(vm, names, n, t),
            env_extend(env, fresh_names(names, t), n),
        ),
{
    let vs2 = vs.union(names.take(n).to_set());
    let vm2 = rename_all(vm, names, n, t);
    let env2 = env_extend(env, fresh_names(names, t), n);
    lemma_rename_all_dom(vm, names, n, t);
    lemma_env_extend_contains(env, fresh_names(names, t), n);
    assert forall|x: Seq<char>| #[trigger] vs2.contains(x) implies env2.contains(vm2[x]) by {
        lemma_rename_all_value(vm, names, n, t, x);
        if names.take(n).contains(x) {
            let j = choose|j: int| 0 <= j < names.take(n).len() && names.take(n)[j] == x;
            assert(fresh_names(names, t)[j] == fresh_name(x, t));
        } else {
            assert(vs.contains(x));
            assert(env.contains(vm[x]));
        }
    }
}

/// Distinct names stay distinct when they get the same suffix.
pub proof fn lemma_fresh_names_distinct(names: Seq<Seq<char>>, t: u32)
    requires
        names.no_duplicates(),
    ensures
        fresh_names(names, t).no_duplicates(),
{
    let out = fresh_names(names, t);
    assert forall|i: int, j: int| 0 <= i < out.len() && 0 <= j < out.len() && i != j implies out[i]
        != out[j] by {
        if out[i] == out[j] {
            lemma_fresh_name_injective(names[i], t, names[j], t);
        }
    }
}

/// What a group gives a function in scope, where the names of the group are distinct:
/// to a function of the group the number of its parameters, and to any other
/// function what it had.
pub proof fn lemma_with_group_value<E, A>(
    fs: Map<Seq<char>, nat>,
    ds: Seq<FunDeclV<E, A>>,
    n: int,
    f: Seq<char>,
)
    requires
        0 <= n <= ds.len(),
        group_names(ds).no_duplicates(),
    ensures
        forall|i: int|
            0 <= i < n && #[trigger] ds[i].name == f ==> with_group(fs, ds, n).contains_key(f)
                && with_group(fs, ds, n)[f] == ds[i].parameters.len(),
        (forall|i: int| 0 <= i < n ==> #[trigger] ds[i].name != f) ==> with_group(
            fs,
            ds,
            n,
        ).contains_key(f) == fs.contains_key(f) && with_group(fs, ds, n)[f] == fs[f],
    decreases n,
{
    if n > 0 {
        lemma_with_group_value(fs, ds, n - 1, f);
        assert forall|i: int| 0 <= i < n && #[trigger] ds[i].name == f implies with_group(
            fs,
            ds,
            n,
        ).contains_key(f) && with_group(fs, ds, n)[f] == ds[i].parameters.len() by {
            if i < n - 1 {
                assert(group_names(ds)[i] == ds[i].name);
                assert(group_names(ds)[n - 1] == ds[n - 1].name);
                assert(ds[n - 1].name != f);
            }
        }
    }
}

/// What a group gives a function in scope for lifting, where the names of the group
/// are distinct: to a function of the group the variables in scope and its
/// parameters, and to any other function what it had.
pub proof fn lemma_with_lifted_group_value<E, A>(
    fenv: Map<Seq<char>, Seq<Seq<char>>>,
    ds: Seq<FunDeclV<E, A>>,
    env: Seq<Seq<char>>,
    n: int,
    f: Seq<char>,
)
    requires
        0 <= n <= ds.len(),
        group_names(ds).no_duplicates(),
    ensures
        forall|i: int|
            0 <= i < n && #[trigger] ds[i].name == f ==> with_lifted_group(
                fenv,
                ds,
                env,
                n,
            ).contains_key(f) && with_lifted_group(fenv, ds, env, n)[f] == env + ds[i].parameters,
        (forall|i: int| 0 <= i < n ==> #[trigger] ds[i].name != f) ==> with_lifted_group(
            fenv,
            ds,
            env,
            n,
        ).contains_key(f) == fenv.contains_key(f) && with_lifted_group(fenv, ds, env, n)[f]
            == fenv[f],
    decreases n,
{
    if n > 0 {
        lemma_with_lifted_group_value(fenv, ds, env, n - 1, f);
        assert forall|i: int| 0 <= i < n && #[trigger] ds[i].name == f implies with_lifted_group(
            fenv,
            ds,
            env,
            n,
        ).contains_key(f) && with_lifted_group(fenv, ds, env, n)[f] == env + ds[i].parameters by {
            if i < n - 1 {
                assert(group_names(ds)[i] == ds[i].name);
                assert(group_names(ds)[n - 1] == ds[n - 1].name);
                assert(ds[n - 1].name != f);
            }
        }
    }
}

/// A well-formed expression, tagged from `t0` and renamed, can be lifted where the
/// renamed variables and functions are in scope.
pub proof fn lemma_renamed_scoped<S>(
    p: ExpV<S>,
    t0: nat,
    vs: Set<Seq<char>>,
    fs: Map<Seq<char>, nat>,
    vm: Map<Seq<char>, Seq<char>>,
    fm: Map<Seq<char>, Seq<char>>,
    env: Seq<Seq<char>>,
    fenv: Map<Seq<char>, Seq<Seq<char>>>,
)
    requires
        well_formed(p, vs, fs),
        t0 + nodes(p) <= u32::MAX,
        vars_related(vs, vm, env),
        funs_related(fs, fm, fenv, env, t0),
    ensures
        lift_scoped(uniq_spec(tag_spec(p, t0), vm, fm), env, fenv),
    decreases p, 1nat,
{
    match p {
        ExpV::Num(..) | ExpV::Bool(..) => {},
        ExpV::Var(x, _) => {
            assert(vs.contains(x));
        },
        ExpV::Prim(op, es, _) => {
            lemma_renamed_operands(es, t0 + 1, vs, fs, vm, fm, env, fenv);
            let out = uniq_operands(tag_operands(es, t0 + 1), vm, fm);
            assert(uniq_spec(tag_spec(p, t0), vm, fm) == ExpV::Prim(op, out, ()));
            assert(forall|i: int| 0 <= i < out.len() ==> lift_scoped(#[trigger] out[i], env, fenv));
        },
        ExpV::Let { .. } => {
            lemma_renamed_let(p, t0, vs, fs, vm, fm, env, fenv);
        },
        ExpV::If { cond, thn, els, .. } => {
            lemma_funs_related_weaken(fs, fm, fenv, env, t0, env, t0 + 1);
            lemma_funs_related_weaken(fs, fm, fenv, env, t0, env, t0 + 1 + nodes(*cond));
            lemma_funs_related_weaken(
                fs,
                fm,
                fenv,
                env,
                t0,
                env,
                t0 + 1 + nodes(*cond) + nodes(*thn),
            );
            lemma_renamed_scoped(*cond, t0 + 1, vs, fs, vm, fm, env, fenv);
            lemma_renamed_scoped(*thn, t0 + 1 + nodes(*cond), vs, fs, vm, fm, env, fenv);
            lemma_renamed_scoped(
                *els,
                t0 + 1 + nodes(*cond) + nodes(*thn),
                vs,
                fs,
                vm,
                fm,
                env,
                fenv,
            );
        },
        ExpV::FunDefs { .. } => {
            lemma_renamed_group(p, t0, vs, fs, vm, fm, env, fenv);
        },
        ExpV::Call(f, args, _) => {
            lemma_renamed_operands(args, t0 + 1, vs, fs, vm, fm, env, fenv);
            assert(fs.contains_key(f));
            assert(fun_related(fs, fm, fenv, env, t0, f));
            let out = uniq_operands(tag_operands(args, t0 + 1), vm, fm);
            assert(out.len() == args.len());
            assert(uniq_spec(tag_spec(p, t0), vm, fm) == ExpV::Call(fm[f], out, ()));
            assert(forall|i: int| 0 <= i < out.len() ==> lift_scoped(#[trigger] out[i], env, fenv));
            assert(forall|k: int|
                0 <= k < fenv[fm[f]].len() - out.len() ==> env.contains(#[trigger] fenv[fm[f]][k]));
        },
        ExpV::InternalTailCall(..) | ExpV::ExternalCall { .. } => {},
    }
}

/// The expressions of a well-formed list, tagged from `t1` and renamed, can be lifted.
pub proof fn lemma_renamed_operands<S>(
    es: Seq<ExpV<S>>,
    t1: nat,
    vs: Set<Seq<char>>,
    fs: Map<Seq<char>, nat>,
    vm: Map<Seq<char>, Seq<char>>,
    fm: Map<Seq<char>, Seq<char>>,
    env: Seq<Seq<char>>,
    fenv: Map<Seq<char>, Seq<Seq<char>>>,
)
    requires
        forall|i: int| 0 <= i < es.len() ==> well_formed(#[trigger] es[i], vs, fs),
        t1 >= 1,
        t1 + total(operand_nodes(es), es.len() as int) <= u32::MAX,
        vars_related(vs, vm, env),
        funs_related(fs, fm, fenv, env, (t1 - 1) as nat),
    ensures
        forall|i: int|
            0 <= i < es.len() ==> lift_scoped(
                #[trigger] uniq_operands(tag_operands(es, t1), vm, fm)[i],
                env,
                fenv,
            ),
    decreases es,
{
    let out = uniq_operands(tag_operands(es, t1), vm, fm);
    assert forall|i: int| 0 <= i < es.len() implies lift_scoped(#[trigger] out[i], env, fenv) by {
        let ti = t1 + total(operand_nodes(es), i);
        lemma_total_mono(operand_nodes(es), i + 1, es.len() as int);
        lemma_funs_related_weaken(fs, fm, fenv, env, (t1 - 1) as nat, env, ti);
        assert(well_formed(es[i], vs, fs));
        lemma_renamed_scoped(es[i], ti, vs, fs, vm, fm, env, fenv);
    }
}

/// A well-formed `Let`, tagged from `t0` and renamed, can be lifted.
pub proof fn lemma_renamed_let<S>(
    p: ExpV<S>,
    t0: nat,
    vs: Set<Seq<char>>,
    fs: Map<Seq<char>, nat>,
    vm: Map<Seq<char>, Seq<char>>,
    fm: Map<Seq<char>, Seq<char>>,
    env: Seq<Seq<char>>,
    fenv: Map<Seq<char>, Seq<Seq<char>>>,
)
    requires
        p is Let,
        well_formed(p, vs, fs),
        t0 + nodes(p) <= u32::MAX,
        vars_related(vs, vm, env),
        funs_related(fs, fm, fenv, env, t0),
    ensures
        lift_scoped(uniq_spec(tag_spec(p, t0), vm, fm), env, fenv),
    decreases p, 0nat,
{
    let bindings = p->Let_bindings;
    let body = p->Let_body;
    let names = binding_names(bindings);
    let t = (t0 + 1) as u32;
    let sizes = binding_nodes(bindings);
    let tagged = tag_bindings(bindings, t0 + 1);
    assert(binding_names(tagged) =~= names);
    let out = uniq_bindings(tagged, vm, fm, t);
    assert(binding_names(out) =~= fresh_names(names, t));
    let new_names = fresh_names(names, t);
    assert forall|i: int| 0 <= i < out.len() implies lift_scoped(
        (#[trigger] out[i]).1,
        env_extend(env, new_names, i),
        fenv,
    ) by {
        let ti = t0 + 1 + total(sizes, i);
        lemma_total_mono(sizes, i + 1, bindings.len() as int);
        let env_i = env_extend(env, new_names, i);
        lemma_env_extend_contains(env, new_names, i);
        lemma_funs_related_weaken(fs, fm, fenv, env, t0, env_i, ti);
        lemma_vars_related_extend(vs, vm, env, names, i, t);
        assert(well_formed(bindings[i].1, vs.union(names.take(i).to_set()), fs));
        lemma_renamed_scoped(
            bindings[i].1,
            ti,
            vs.union(names.take(i).to_set()),
            fs,
            rename_all(vm, names, i, t),
            fm,
            env_i,
            fenv,
        );
    }
    let n = bindings.len() as int;
    let tb = t0 + 1 + total(sizes, n);
    let env_b = env_extend(env, new_names, n);
    lemma_env_extend_contains(env, new_names, n);
    lemma_funs_related_weaken(fs, fm, fenv, env, t0, env_b, tb);
    lemma_vars_related_extend(vs, vm, env, names, n, t);
    assert(names.take(n) =~= names);
    lemma_renamed_scoped(
        *body,
        tb,
        vs.union(names.to_set()),
        fs,
        rename_all(vm, names, n, t),
        fm,
        env_b,
        fenv,
    );
}

/// A well-formed group of functions, tagged from `t0` and renamed, can be lifted.
pub proof fn lemma_renamed_group<S>(
    p: ExpV<S>,
    t0: nat,
    vs: Set<Seq<char>>,
    fs: Map<Seq<char>, nat>,
    vm: Map<Seq<char>, Seq<char>>,
    fm: Map<Seq<char>, Seq<char>>,
    env: Seq<Seq<char>>,
    fenv: Map<Seq<char>, Seq<Seq<char>>>,
)
    requires
        p is FunDefs,
        well_formed(p, vs, fs),
        t0 + nodes(p) <= u32::MAX,
        vars_related(vs, vm, env),
        funs_related(fs, fm, fenv, env, t0),
    ensures
        lift_scoped(uniq_spec(tag_spec(p, t0), vm, fm), env, fenv),
    decreases p, 0nat,
{
    let decls = p->FunDefs_decls;
    let body = p->FunDefs_body;
    let names = group_names(decls);
    let n = decls.len() as int;
    let t = (t0 + 1) as u32;
    let sizes = decl_nodes(decls);
    let tagged = tag_group(decls, t0 + 1, t);
    assert(group_names(tagged) =~= names);
    let fs2 = with_group(fs, decls, n);
    let fm2 = rename_all(fm, names, n, t);
    let out = uniq_decls(tagged, vm, fm2, t);
    let fenv2 = with_lifted_group(fenv, out, env, n);
    assert(group_names(out) =~= fresh_names(names, t));
    lemma_fresh_names_distinct(names, t);
    lemma_rename_all_dom(fm, names, n, t);
    lemma_with_group_dom(fs, decls, n);
    assert(names.take(n) =~= names);
    assert(funs_related(fs2, fm2, fenv2, env, t0 + 1)) by {
        assert forall|f: Seq<char>| #[trigger] fs2.contains_key(f) implies fun_related(
            fs2,
            fm2,
            fenv2,
            env,
            t0 + 1,
            f,
        ) by {
            lemma_rename_all_value(fm, names, n, t, f);
            lemma_with_group_value(fs, decls, n, f);
            if names.contains(f) {
                let i = choose|i: int| 0 <= i < names.len() && names[i] == f;
                assert(decls[i].name == f);
                assert(fm2[f] == fresh_name(f, t));
                lemma_with_lifted_group_value(fenv, out, env, n, fresh_name(f, t));
                assert(out[i].name == fresh_name(f, t));
                assert(fenv2[fm2[f]] == env + out[i].parameters);
                assert(fs2[f] == decls[i].parameters.len());
                assert(out[i].parameters.len() == decls[i].parameters.len());
                assert forall|k: int| 0 <= k < fenv2[fm2[f]].len() - fs2[f] implies env.contains(
                    #[trigger] fenv2[fm2[f]][k],
                ) by {
                    assert((env + out[i].parameters)[k] == env[k]);
                }
            } else {
                assert forall|i: int| 0 <= i < n implies #[trigger] decls[i].name != f by {
                    assert(names[i] == decls[i].name);
                }
                assert(fs.contains_key(f));
                assert(fun_related(fs, fm, fenv, env, t0, f));
                let t1 = choose|t1: u32| t1 <= t0 && fm[f] == #[trigger] fresh_name(f, t1);
                assert(t1 <= t0 + 1 && fm2[f] == fresh_name(f, t1));
                lemma_with_lifted_group_value(fenv, out, env, n, fm[f]);
                assert forall|i: int| 0 <= i < n implies #[trigger] out[i].name != fm[f] by {
                    if out[i].name == fm[f] {
                        lemma_fresh_name_injective(decls[i].name, t, f, t1);
                    }
                }
            }
        }
    }
    assert forall|i: int| 0 <= i < out.len() implies lift_scoped(
        (#[trigger] out[i]).body,
        env_extend(env, out[i].parameters, out[i].parameters.len() as int),
        fenv2,
    ) by {
        let ps = decls[i].parameters;
        let ti = t0 + 1 + total(sizes, i);
        let own = last_tag(tagged[i].body);
        lemma_total_mono(sizes, i + 1, n);
        let env_i = env_extend(env, fresh_names(ps, own), ps.len() as int);
        lemma_env_extend_contains(env, fresh_names(ps, own), ps.len() as int);
        lemma_funs_related_weaken(fs2, fm2, fenv2, env, t0 + 1, env_i, ti);
        lemma_vars_related_extend(vs, vm, env, ps, ps.len() as int, own);
        assert(ps.take(ps.len() as int) =~= ps);
        assert(well_formed(decls[i].body, vs.union(ps.to_set()), fs2));
        lemma_renamed_scoped(
            decls[i].body,
            ti,
            vs.union(ps.to_set()),
            fs2,
            rename_all(vm, ps, ps.len() as int, own),
            fm2,
            env_i,
            fenv2,
        );
    }
    let tb = t0 + 1 + total(sizes, n);
    lemma_funs_related_weaken(fs2, fm2, fenv2, env, t0 + 1, env, tb);
    lemma_renamed_scoped(*body, tb, vs, fs2, vm, fm2, env, fenv2);
}

/// Whether `name` ends in a tag that is above `lo` and at most `hi`.
pub open spec fn tagged_within(name: Seq<char>, lo: nat, hi: nat) -> bool {
    exists|x: Seq<char>, t: u32| lo < t <= hi && name == #[trigger] fresh_name(x, t)
}

/// Whether every name of a list ends in a tag that is above `lo` and at most `hi`.
pub open spec fn all_tagged_within(names: Seq<Seq<char>>, lo: nat, hi: nat) -> bool {
    forall|j: int| 0 <= j < names.len() ==> tagged_within(#[trigger] names[j], lo, hi)
}

/// Names whose tags lie in ranges that do not meet are different.
pub proof fn lemma_ranges_apart(a: Seq<char>, lo1: nat, hi1: nat, b: Seq<char>, lo2: nat, hi2: nat)
    requires
        tagged_within(a, lo1, hi1),
        tagged_within(b, lo2, hi2),
        hi1 <= lo2,
    ensures
        a != b,
{
    let (x1, t1) = choose|x: Seq<char>, t: u32| lo1 < t <= hi1 && a == #[trigger] fresh_name(x, t);
    let (x2, t2) = choose|x: Seq<char>, t: u32| lo2 < t <= hi2 && b == #[trigger] fresh_name(x, t);
    if a == b {
        lemma_fresh_name_injective(x1, t1, x2, t2);
    }
}

/// Tags that lie in a range lie in every wider range.
pub proof fn lemma_widen(names: Seq<Seq<char>>, lo: nat, hi: nat, lo2: nat, hi2: nat)
    requires
        all_tagged_within(names, lo, hi),
        lo2 <= lo,
        hi <= hi2,
    ensures
        all_tagged_within(names, lo2, hi2),
{
    assert forall|j: int| 0 <= j < names.len() implies tagged_within(
        #[trigger] names[j],
        lo2,
        hi2,
    ) by {
        assert(tagged_within(names[j], lo, hi));
        let (x, t) = choose|x: Seq<char>, t: u32|
            lo < t <= hi && names[j] == #[trigger] fresh_name(x, t);
        assert(lo2 < t <= hi2 && names[j] == fresh_name(x, t));
    }
}

/// Two lists of distinct names whose tags lie in ranges that follow each other make
/// one list of distinct names.
pub proof fn lemma_add_distinct(a: Seq<Seq<char>>, b: Seq<Seq<char>>, lo: nat, mid: nat, hi: nat)
    requires
        a.no_duplicates(),
        b.no_duplicates(),
        all_tagged_within(a, lo, mid),
        all_tagged_within(b, mid, hi),
        lo <= mid <= hi,
    ensures
        (a + b).no_duplicates(),
        all_tagged_within(a + b, lo, hi),
{
    assert forall|i: int, j: int| 0 <= i < a.len() && 0 <= j < b.len() implies a[i] != b[j] by {
        lemma_ranges_apart(a[i], lo, mid, b[j], mid, hi);
    }
    lemma_no_dup_in_concat(a, b);
    lemma_widen(a, lo, mid, lo, hi);
    lemma_widen(b, mid, hi, lo, hi);
    assert forall|j: int| 0 <= j < (a + b).len() implies tagged_within(
        #[trigger] (a + b)[j],
        lo,
        hi,
    ) by {
        if j < a.len() {
            assert((a + b)[j] == a[j]);
        } else {
            assert((a + b)[j] == b[j - a.len()]);
        }
    }
}

/// Lists of distinct names whose tags lie in ranges that follow each other make one
/// list of distinct names.
pub proof fn lemma_concat_distinct(
    parts: Seq<Seq<Seq<char>>>,
    sizes: Seq<nat>,
    base: nat,
    n: int,
)
    requires
        0 <= n <= parts.len(),
        parts.len() == sizes.len(),
        forall|i: int| 0 <= i < n ==> (#[trigger] parts[i]).no_duplicates(),
        forall|i: int|
            0 <= i < n ==> all_tagged_within(
                #[trigger] parts[i],
                base + total(sizes, i),
                base + total(sizes, i + 1),
            ),
    ensures
        concat_upto(parts, n).no_duplicates(),
        all_tagged_within(concat_upto(parts, n), base, base + total(sizes, n)),
    decreases n,
{
    if n > 0 {
        lemma_concat_distinct(parts, sizes, base, n - 1);
        assert(parts[n - 1].no_duplicates());
        assert(all_tagged_within(parts[n - 1], base + total(sizes, n - 1), base + total(sizes, n)));
        lemma_add_distinct(
            concat_upto(parts, n - 1),
            parts[n - 1],
            base,
            base + total(sizes, n - 1),
            base + total(sizes, n),
        );
    }
}

/// Whether `x` is one of the first `n` names of a group, or ends in a tag that is
/// above `lo` and at most `hi`.
pub open spec fn of_group_or_within(x: Seq<char>, heads: Seq<Seq<char>>, n: int, lo: nat, hi: nat) -> bool {
    (exists|i: int| 0 <= i < n && x == #[trigger] heads[i]) || tagged_within(x, lo, hi)
}

/// Each name of `heads`, followed by the names of the list of `inner` that belongs
/// to it.
pub open spec fn headed(heads: Seq<Seq<char>>, inner: Seq<Seq<Seq<char>>>) -> Seq<Seq<Seq<char>>> {
    Seq::new(heads.len(), |i: int| seq![heads[i]] + inner[i])
}

/// The names of a group, each followed by the names declared in its body, are
/// distinct where the names of the group are, and where the names declared in the
/// bodies are distinct and end in tags that lie in ranges that follow each other
/// above the tag of the group.
pub proof fn lemma_group_distinct(
    heads: Seq<Seq<char>>,
    inner: Seq<Seq<Seq<char>>>,
    sizes: Seq<nat>,
    t0: nat,
    n: int,
)
    requires
        0 <= n <= heads.len(),
        heads.len() == inner.len(),
        heads.len() == sizes.len(),
        heads.no_duplicates(),
        all_tagged_within(heads, t0, t0 + 1),
        forall|i: int| 0 <= i < n ==> (#[trigger] inner[i]).no_duplicates(),
        forall|i: int|
            0 <= i < n ==> all_tagged_within(
                #[trigger] inner[i],
                t0 + 1 + total(sizes, i),
                t0 + 1 + total(sizes, i + 1),
            ),
    ensures
        concat_upto(headed(heads, inner), n).no_duplicates(),
        forall|j: int|
            0 <= j < concat_upto(headed(heads, inner), n).len()
                ==> of_group_or_within(
                #[trigger] concat_upto(headed(heads, inner), n)[j],
                heads,
                n,
                t0 + 1,
                t0 + 1 + total(sizes, n),
            ),
    decreases n,
{
    let parts = headed(heads, inner);
    if n > 0 {
        lemma_group_distinct(heads, inner, sizes, t0, n - 1);
        let before = concat_upto(parts, n - 1);
        let head = heads[n - 1];
        let body = inner[n - 1];
        let part = seq![head] + body;
        let lo = t0 + 1 + total(sizes, n - 1);
        let hi = t0 + 1 + total(sizes, n);
        assert(parts[n - 1] == part);
        assert(body.no_duplicates());
        assert(all_tagged_within(body, lo, hi));
        assert(tagged_within(head, t0, t0 + 1));
        assert forall|j: int| 0 <= j < body.len() implies head != body[j] by {
            lemma_ranges_apart(head, t0, t0 + 1, body[j], lo, hi);
        }
        assert(seq![head].no_duplicates());
        assert forall|i: int, j: int| 0 <= i < seq![head].len() && 0 <= j < body.len() implies seq![
            head,
        ][i] != body[j] by {}
        lemma_no_dup_in_concat(seq![head], body);
        assert forall|i: int, j: int| 0 <= i < before.len() && 0 <= j < part.len() implies before[i]
            != part[j] by {
            assert(of_group_or_within(before[i], heads, n - 1, t0 + 1, lo));
            if exists|k: int| 0 <= k < n - 1 && before[i] == #[trigger] heads[k] {
                let k = choose|k: int| 0 <= k < n - 1 && before[i] == #[trigger] heads[k];
                if j == 0 {
                    assert(part[0] == head);
                } else {
                    assert(part[j] == body[j - 1]);
                    assert(tagged_within(heads[k], t0, t0 + 1));
                    lemma_ranges_apart(heads[k], t0, t0 + 1, body[j - 1], lo, hi);
                }
            } else {
                assert(tagged_within(before[i], t0 + 1, lo));
                if j == 0 {
                    assert(part[0] == head);
                    lemma_ranges_apart(head, t0, t0 + 1, before[i], t0 + 1, lo);
                } else {
                    assert(part[j] == body[j - 1]);
                    lemma_ranges_apart(before[i], t0 + 1, lo, body[j - 1], lo, hi);
                }
            }
        }
        lemma_no_dup_in_concat(before, part);
        let after = concat_upto(parts, n);
        assert(after == before + part);
        assert forall|j: int| 0 <= j < after.len() implies of_group_or_within(
            #[trigger] after[j],
            heads,
            n,
            t0 + 1,
            hi,
        ) by {
            if j < before.len() {
                assert(after[j] == before[j]);
                assert(of_group_or_within(before[j], heads, n - 1, t0 + 1, lo));
                if exists|k: int| 0 <= k < n - 1 && before[j] == #[trigger] heads[k] {
                    let k = choose|k: int| 0 <= k < n - 1 && before[j] == #[trigger] heads[k];
                    assert(0 <= k < n && after[j] == heads[k]);
                } else {
                    let (x, t) = choose|x: Seq<char>, t: u32|
                        t0 + 1 < t <= lo && before[j] == #[trigger] fresh_name(x, t);
                    assert(t0 + 1 < t <= hi && after[j] == fresh_name(x, t));
                }
            } else if j == before.len() {
                assert(after[j] == part[0]);
                assert(after[j] == heads[n - 1]);
            } else {
                assert(after[j] == part[j - before.len()]);
                assert(after[j] == body[j - before.len() - 1]);
                let (x, t) = choose|x: Seq<char>, t: u32|
                    lo < t <= hi && body[j - before.len() - 1] == #[trigger] fresh_name(x, t);
                assert(t0 + 1 < t <= hi && after[j] == fresh_name(x, t));
            }
        }
    }
}

/// The functions that a well-formed expression declares, once it is tagged from `t0`
/// and renamed, have distinct names, which end in the tags of the expression.
pub proof fn lemma_renamed_declared<S>(
    p: ExpV<S>,
    t0: nat,
    vs: Set<Seq<char>>,
    fs: Map<Seq<char>, nat>,
    vm: Map<Seq<char>, Seq<char>>,
    fm: Map<Seq<char>, Seq<char>>,
)
    requires
        well_formed(p, vs, fs),
        t0 + nodes(p) <= u32::MAX,
    ensures
        declared(uniq_spec(tag_spec(p, t0), vm, fm)).no_duplicates(),
        all_tagged_within(declared(uniq_spec(tag_spec(p, t0), vm, fm)), t0, t0 + nodes(p)),
    decreases p, 1nat,
{
    let q = uniq_spec(tag_spec(p, t0), vm, fm);
    match p {
        ExpV::Num(..) | ExpV::Bool(..) | ExpV::Var(..) => {},
        ExpV::Prim(op, es, _) => {
            lemma_renamed_declared_operands(es, t0 + 1, vs, fs, vm, fm);
            let out = uniq_operands(tag_operands(es, t0 + 1), vm, fm);
            assert(q == ExpV::Prim(op, out, ()));
            lemma_widen(declared(q), t0 + 1, t0 + nodes(p), t0, t0 + nodes(p));
        },
        ExpV::Let { .. } => {
            lemma_renamed_declared_let(p, t0, vs, fs, vm, fm);
        },
        ExpV::If { cond, thn, els, .. } => {
            let t1 = t0 + 1;
            let t2 = t1 + nodes(*cond);
            let t3 = t2 + nodes(*thn);
            lemma_renamed_declared(*cond, t1, vs, fs, vm, fm);
            lemma_renamed_declared(*thn, t2, vs, fs, vm, fm);
            lemma_renamed_declared(*els, t3, vs, fs, vm, fm);
            let c = declared(uniq_spec(tag_spec(*cond, t1), vm, fm));
            let t = declared(uniq_spec(tag_spec(*thn, t2), vm, fm));
            let f = declared(uniq_spec(tag_spec(*els, t3), vm, fm));
            lemma_add_distinct(c, t, t1, t2, t3);
            lemma_add_distinct(c + t, f, t1, t3, t3 + nodes(*els));
            assert(declared(q) == c + t + f);
            lemma_widen(declared(q), t1, t0 + nodes(p), t0, t0 + nodes(p));
        },
        ExpV::FunDefs { .. } => {
            lemma_renamed_declared_group(p, t0, vs, fs, vm, fm);
        },
        ExpV::Call(f, args, _) => {
            lemma_renamed_declared_operands(args, t0 + 1, vs, fs, vm, fm);
            let out = uniq_operands(tag_operands(args, t0 + 1), vm, fm);
            assert(q == ExpV::Call(fm[f], out, ()));
            lemma_widen(declared(q), t0 + 1, t0 + nodes(p), t0, t0 + nodes(p));
        },
        ExpV::InternalTailCall(..) | ExpV::ExternalCall { .. } => {},
    }
}

/// The functions that the expressions of a well-formed list declare, once the list
/// is tagged from `t1` and renamed, have distinct names, which end in the tags of the
/// list.
pub proof fn lemma_renamed_declared_operands<S>(
    es: Seq<ExpV<S>>,
    t1: nat,
    vs: Set<Seq<char>>,
    fs: Map<Seq<char>, nat>,
    vm: Map<Seq<char>, Seq<char>>,
    fm: Map<Seq<char>, Seq<char>>,
)
    requires
        forall|i: int| 0 <= i < es.len() ==> well_formed(#[trigger] es[i], vs, fs),
        t1 + total(operand_nodes(es), es.len() as int) <= u32::MAX,
    ensures
        concat_all(
            operand_declared(uniq_operands(tag_operands(es, t1), vm, fm)),
        ).no_duplicates(),
        all_tagged_within(
            concat_all(operand_declared(uniq_operands(tag_operands(es, t1), vm, fm))),
            t1,
            t1 + total(operand_nodes(es), es.len() as int),
        ),
    decreases es,
{
    let out = uniq_operands(tag_operands(es, t1), vm, fm);
    let parts = operand_declared(out);
    let sizes = operand_nodes(es);
    assert forall|i: int| 0 <= i < es.len() implies (#[trigger] parts[i]).no_duplicates()
        && all_tagged_within(parts[i], t1 + total(sizes, i), t1 + total(sizes, i + 1)) by {
        lemma_total_mono(sizes, i + 1, es.len() as int);
        assert(well_formed(es[i], vs, fs));
        lemma_renamed_declared(es[i], t1 + total(sizes, i), vs, fs, vm, fm);
    }
    lemma_concat_distinct(parts, sizes, t1, es.len() as int);
}

/// The functions that a well-formed `Let` declares, once it is tagged from `t0` and
/// renamed, have distinct names, which end in the tags of the `Let`.
pub proof fn lemma_renamed_declared_let<S>(
    p: ExpV<S>,
    t0: nat,
    vs: Set<Seq<char>>,
    fs: Map<Seq<char>, nat>,
    vm: Map<Seq<char>, Seq<char>>,
    fm: Map<Seq<char>, Seq<char>>,
)
    requires
        p is Let,
        well_formed(p, vs, fs),
        t0 + nodes(p) <= u32::MAX,
    ensures
        declared(uniq_spec(tag_spec(p, t0), vm, fm)).no_duplicates(),
        all_tagged_within(declared(uniq_spec(tag_spec(p, t0), vm, fm)), t0, t0 + nodes(p)),
    decreases p, 0nat,
{
    let q = uniq_spec(tag_spec(p, t0), vm, fm);
    let bindings = p->Let_bindings;
    let body = p->Let_body;
    let names = binding_names(bindings);
    let n = bindings.len() as int;
    let t = (t0 + 1) as u32;
    let sizes = binding_nodes(bindings);
    let tagged = tag_bindings(bindings, t0 + 1);
    assert(binding_names(tagged) =~= names);
    let out = uniq_bindings(tagged, vm, fm, t);
    let parts = binding_declared(out);
    assert forall|i: int| 0 <= i < n implies (#[trigger] parts[i]).no_duplicates()
        && all_tagged_within(parts[i], t0 + 1 + total(sizes, i), t0 + 1 + total(sizes, i + 1)) by {
        lemma_total_mono(sizes, i + 1, n);
        assert(well_formed(bindings[i].1, vs.union(names.take(i).to_set()), fs));
        lemma_renamed_declared(
            bindings[i].1,
            t0 + 1 + total(sizes, i),
            vs.union(names.take(i).to_set()),
            fs,
            rename_all(vm, names, i, t),
            fm,
        );
    }
    lemma_concat_distinct(parts, sizes, t0 + 1, n);
    let mid = t0 + 1 + total(sizes, n);
    let inner = rename_all(vm, names, n, t);
    lemma_renamed_declared(*body, mid, vs.union(names.to_set()), fs, inner, fm);
    let b = declared(uniq_spec(tag_spec(*body, mid), inner, fm));
    lemma_add_distinct(concat_all(parts), b, t0 + 1, mid, mid + nodes(*body));
    assert(declared(q) == concat_all(parts) + b);
    lemma_widen(declared(q), t0 + 1, t0 + nodes(p), t0, t0 + nodes(p));
}

/// The functions that a well-formed group declares, once it is tagged from `t0` and
/// renamed, have distinct names, which end in the tags of the group.
pub proof fn lemma_renamed_declared_group<S>(
    p: ExpV<S>,
    t0: nat,
    vs: Set<Seq<char>>,
    fs: Map<Seq<char>, nat>,
    vm: Map<Seq<char>, Seq<char>>,
    fm: Map<Seq<char>, Seq<char>>,
)
    requires
        p is FunDefs,
        well_formed(p, vs, fs),
        t0 + nodes(p) <= u32::MAX,
    ensures
        declared(uniq_spec(tag_spec(p, t0), vm, fm)).no_duplicates(),
        all_tagged_within(declared(uniq_spec(tag_spec(p, t0), vm, fm)), t0, t0 + nodes(p)),
    decreases p, 0nat,
{
    let q = uniq_spec(tag_spec(p, t0), vm, fm);
    let decls = p->FunDefs_decls;
    let body = p->FunDefs_body;
    let names = group_names(decls);
    let n = decls.len() as int;
    let t = (t0 + 1) as u32;
    let sizes = decl_nodes(decls);
    let tagged = tag_group(decls, t0 + 1, t);
    assert(group_names(tagged) =~= names);
    let fs2 = with_group(fs, decls, n);
    let fm2 = rename_all(fm, names, n, t);
    let out = uniq_decls(tagged, vm, fm2, t);
    let heads = fresh_names(names, t);
    let inner = Seq::new(out.len(), |i: int| declared(out[i].body));
    assert(group_declared(out) =~= headed(heads, inner));
    lemma_fresh_names_distinct(names, t);
    assert forall|j: int| 0 <= j < heads.len() implies tagged_within(
        #[trigger] heads[j],
        t0,
        t0 + 1,
    ) by {
        assert(t0 < t <= t0 + 1 && heads[j] == fresh_name(names[j], t));
    }
    assert forall|i: int| 0 <= i < n implies (#[trigger] inner[i]).no_duplicates()
        && all_tagged_within(inner[i], t0 + 1 + total(sizes, i), t0 + 1 + total(sizes, i + 1)) by {
        let ps = decls[i].parameters;
        lemma_total_mono(sizes, i + 1, n);
        assert(well_formed(decls[i].body, vs.union(ps.to_set()), fs2));
        lemma_renamed_declared(
            decls[i].body,
            t0 + 1 + total(sizes, i),
            vs.union(ps.to_set()),
            fs2,
            rename_all(vm, ps, ps.len() as int, last_tag(tagged[i].body)),
            fm2,
        );
    }
    lemma_group_distinct(heads, inner, sizes, t0, n);
    let g = concat_upto(headed(heads, inner), n);
    let mid = t0 + 1 + total(sizes, n);
    let hi = t0 + nodes(p);
    lemma_renamed_declared(*body, mid, vs, fs2, vm, fm2);
    let b = declared(uniq_spec(tag_spec(*body, mid), vm, fm2));
    assert(declared(q) == g + b);
    assert forall|j: int| 0 <= j < g.len() implies tagged_within(#[trigger] g[j], t0, mid) by {
        assert(of_group_or_within(g[j], heads, n, t0 + 1, mid));
        if exists|k: int| 0 <= k < n && g[j] == #[trigger] heads[k] {
            let k = choose|k: int| 0 <= k < n && g[j] == #[trigger] heads[k];
            assert(tagged_within(heads[k], t0, t0 + 1));
            let (x, t1) = choose|x: Seq<char>, t1: u32|
                t0 < t1 <= t0 + 1 && heads[k] == #[trigger] fresh_name(x, t1);
            assert(t0 < t1 <= mid && g[j] == fresh_name(x, t1));
        } else {
            let (x, t1) = choose|x: Seq<char>, t1: u32|
                t0 + 1 < t1 <= mid && g[j] == #[trigger] fresh_name(x, t1);
            assert(t0 < t1 <= mid && g[j] == fresh_name(x, t1));
        }
    }
    lemma_add_distinct(g, b, t0, mid, hi);
}

/// A well-formed program, tagged from 1 and renamed, is ready for lifting.
pub proof fn lemma_renamed_ready<S>(p: ExpV<S>)
    requires
        well_formed(p, Set::empty(), Map::empty()),
        nodes(p) <= u32::MAX,
    ensures
        lift_ready(uniq_spec(tag_spec(p, 0), Map::empty(), Map::empty())),
{
    let vm = Map::<Seq<char>, Seq<char>>::empty();
    let fm = Map::<Seq<char>, Seq<char>>::empty();
    assert(vm.dom() =~= Set::<Seq<char>>::empty());
    assert(fm.dom() =~= Map::<Seq<char>, nat>::empty().dom());
    lemma_renamed_scoped(
        p,
        0,
        Set::empty(),
        Map::empty(),
        vm,
        fm,
        Seq::empty(),
        Map::empty(),
    );
    lemma_renamed_declared(p, 0, Set::empty(), Map::empty(), vm, fm);
}

/// Renaming keeps the number of operands of every primitive operation.
pub proof fn lemma_uniq_prims_saturated(
    e: ExpV<u32>,
    vm: Map<Seq<char>, Seq<char>>,
    fm: Map<Seq<char>, Seq<char>>,
)
    requires
        e.prims_saturated(),
    ensures
        uniq_spec(e, vm, fm).prims_saturated(),
    decreases e,
{
    match e {
        ExpV::Num(..) | ExpV::Bool(..) | ExpV::Var(..) => {},
        ExpV::Prim(_, es, _) => {
            let out = uniq_operands(es, vm, fm);
            assert forall|i: int| 0 <= i < out.len() implies (#[trigger] out[i]).prims_saturated() by {
                assert(es[i].prims_saturated());
                lemma_uniq_prims_saturated(es[i], vm, fm);
            }
        },
        ExpV::Let { bindings, body, ann } => {
            let names = binding_names(bindings);
            let out = uniq_bindings(bindings, vm, fm, ann);
            assert forall|i: int| 0 <= i < out.len() implies (
            #[trigger] out[i]).1.prims_saturated() by {
                assert(bindings[i].1.prims_saturated());
                lemma_uniq_prims_saturated(bindings[i].1, rename_all(vm, names, i, ann), fm);
            }
            lemma_uniq_prims_saturated(
                *body,
                rename_all(vm, names, bindings.len() as int, ann),
                fm,
            );
        },
        ExpV::If { cond, thn, els, .. } => {
            lemma_uniq_prims_saturated(*cond, vm, fm);
            lemma_uniq_prims_saturated(*thn, vm, fm);
            lemma_uniq_prims_saturated(*els, vm, fm);
        },
        ExpV::FunDefs { decls, body, ann } => {
            let inner = rename_all(fm, group_names(decls), decls.len() as int, ann);
            let out = uniq_decls(decls, vm, inner, ann);
            assert forall|i: int| 0 <= i < out.len() implies (
            #[trigger] out[i]).body.prims_saturated() by {
                assert(decls[i].body.prims_saturated());
                lemma_uniq_prims_saturated(
                    decls[i].body,
                    rename_all(
                        vm,
                        decls[i].parameters,
                        decls[i].parameters.len() as int,
                        last_tag(decls[i].body),
                    ),
                    inner,
                );
            }
            lemma_uniq_prims_saturated(*body, vm, inner);
        },
        ExpV::Call(_, args, _) => {
            let out = uniq_operands(args, vm, fm);
            assert forall|i: int| 0 <= i < out.len() implies (#[trigger] out[i]).prims_saturated() by {
                assert(args[i].prims_saturated());
                lemma_uniq_prims_saturated(args[i], vm, fm);
            }
        },
        ExpV::InternalTailCall(..) | ExpV::ExternalCall { .. } => {},
    }
}
/// Whether no binder of `e` binds a name again that is in scope where the binder
/// stands, `vars` being in scope around `e`: a `Let` binds names that are new and
/// differ from each other, and so does the parameter list of a function.
pub open spec fn unshadowed<A>(e: ExpV<A>, vars: Set<Seq<char>>) -> bool
    decreases e,
{
    match e {
        ExpV::Num(..) | ExpV::Bool(..) | ExpV::Var(..) => true,
        ExpV::Prim(_, es, _) => forall|i: int| 0 <= i < es.len() ==> unshadowed(#[trigger] es[i], vars),
        ExpV::Let { bindings, body, .. } => {
            &&& binding_names(bindings).no_duplicates()
            &&& forall|i: int|
                0 <= i < bindings.len() ==> !vars.contains(#[trigger] binding_names(bindings)[i])
            &&& forall|i: int|
                0 <= i < bindings.len() ==> unshadowed(
                    (#[trigger] bindings[i]).1,
                    vars.union(binding_names(bindings).take(i).to_set()),
                )
            &&& unshadowed(*body, vars.union(binding_names(bindings).to_set()))
        },
        ExpV::If { cond, thn, els, .. } => {
            &&& unshadowed(*cond, vars)
            &&& unshadowed(*thn, vars)
            &&& unshadowed(*els, vars)
        },
        ExpV::FunDefs { decls, body, .. } => {
            &&& forall|i: int| 0 <= i < decls.len() ==> (#[trigger] decls[i]).parameters.no_duplicates()
            &&& forall|i: int, k: int|
                0 <= i < decls.len() && 0 <= k < decls[i].parameters.len() ==> !vars.contains(
                    #[trigger] decls[i].parameters[k],
                )
            &&& forall|i: int|
                0 <= i < decls.len() ==> unshadowed(
                    (#[trigger] decls[i]).body,
                    vars.union(decls[i].parameters.to_set()),
                )
            &&& unshadowed(*body, vars)
        },
        ExpV::Call(_, args, _) => forall|i: int|
            0 <= i < args.len() ==> unshadowed(#[trigger] args[i], vars),
        ExpV::InternalTailCall(_, args, _) => forall|i: int|
            0 <= i < args.len() ==> unshadowed(#[trigger] args[i], vars),
        ExpV::ExternalCall { args, .. } => forall|i: int|
            0 <= i < args.len() ==> unshadowed(#[trigger] args[i], vars),
    }
}

/// The tag of the last node of a tagged expression is the number of the tag before
/// its first, and the number of its nodes.
pub proof fn lemma_last_tag<S>(e: ExpV<S>, t0: nat)
    requires
        t0 + nodes(e) <= u32::MAX,
    ensures
        last_tag(tag_spec(e, t0)) == t0 + nodes(e),
    decreases e,
{
    assert(((t0 + 1) as u32) == t0 + 1);
    match e {
        ExpV::Num(..) | ExpV::Bool(..) | ExpV::Var(..) => {},
        ExpV::Prim(_, es, _) => {
            lemma_last_operand(es, t0 + 1);
        },
        ExpV::Let { bindings, body, .. } => {
            lemma_last_tag(*body, t0 + 1 + total(binding_nodes(bindings), bindings.len() as int));
        },
        ExpV::If { cond, thn, els, .. } => {
            lemma_last_tag(*els, t0 + 1 + nodes(*cond) + nodes(*thn));
        },
        ExpV::FunDefs { decls, body, .. } => {
            lemma_last_tag(*body, t0 + 1 + total(decl_nodes(decls), decls.len() as int));
        },
        ExpV::Call(_, args, _) => {
            lemma_last_operand(args, t0 + 1);
        },
        ExpV::InternalTailCall(_, args, _) => {
            lemma_last_operand(args, t0 + 1);
        },
        ExpV::ExternalCall { args, .. } => {
            lemma_last_operand(args, t0 + 1);
        },
    }
}

/// `lemma_last_tag` for the last of a list of expressions that are tagged one after
/// the other.
pub proof fn lemma_last_operand<S>(es: Seq<ExpV<S>>, t: nat)
    requires
        t + total(operand_nodes(es), es.len() as int) <= u32::MAX,
    ensures
        tag_operands(es, t).len() == es.len(),
        es.len() > 0 ==> last_tag(tag_operands(es, t)[es.len() - 1]) == t + total(
            operand_nodes(es),
            es.len() as int,
        ),
        es.len() == 0 ==> total(operand_nodes(es), es.len() as int) == 0,
    decreases es,
{
    if es.len() > 0 {
        let k = es.len() - 1;
        let sizes = operand_nodes(es);
        assert(total(sizes, k + 1) == total(sizes, k) + nodes(es[k]));
        lemma_last_tag(es[k], t + total(sizes, k));
    }
}

/// Whether every name of `vars` ends in a tag that is at most `lo` or at least `hi`.
pub open spec fn all_tagged_outside(vars: Set<Seq<char>>, lo: nat, hi: nat) -> bool {
    forall|x: Seq<char>| #[trigger]
        vars.contains(x) ==> exists|y: Seq<char>, t: u32|
            (t <= lo || hi <= t) && x == #[trigger] fresh_name(y, t)
}

/// A name with a suffix between two numbers is none of a set of names whose tags are
/// at most the one or at least the other.
pub proof fn lemma_fresh_is_new(vars: Set<Seq<char>>, lo: nat, hi: nat, x: Seq<char>, t: u32)
    requires
        all_tagged_outside(vars, lo, hi),
        lo < t < hi,
    ensures
        !vars.contains(fresh_name(x, t)),
{
    let name = fresh_name(x, t);
    if vars.contains(name) {
        let (y, t1) = choose|y: Seq<char>, t1: u32|
            (t1 <= lo || hi <= t1) && name == #[trigger] fresh_name(y, t1);
        lemma_fresh_name_injective(x, t, y, t1);
    }
}

/// A set of names stays tagged outside a range where the range shrinks, and where
/// names with a tag outside the smaller range join it.
pub proof fn lemma_tagged_outside_more(
    vars: Set<Seq<char>>,
    lo: nat,
    hi: nat,
    names: Seq<Seq<char>>,
    t: u32,
    lo2: nat,
    hi2: nat,
)
    requires
        all_tagged_outside(vars, lo, hi),
        lo <= lo2,
        hi2 <= hi,
        t <= lo2 || hi2 <= t,
    ensures
        all_tagged_outside(vars.union(fresh_names(names, t).to_set()), lo2, hi2),
        all_tagged_outside(vars, lo2, hi2),
{
    let more = vars.union(fresh_names(names, t).to_set());
    assert forall|x: Seq<char>| #[trigger] vars.contains(x) implies exists|y: Seq<char>, t1: u32|
        (t1 <= lo2 || hi2 <= t1) && x == #[trigger] fresh_name(y, t1) by {
        let (y, t1) = choose|y: Seq<char>, t1: u32|
            (t1 <= lo || hi <= t1) && x == #[trigger] fresh_name(y, t1);
        assert((t1 <= lo2 || hi2 <= t1) && x == fresh_name(y, t1));
    }
    assert forall|x: Seq<char>| #[trigger] more.contains(x) implies exists|y: Seq<char>, t1: u32|
        (t1 <= lo2 || hi2 <= t1) && x == #[trigger] fresh_name(y, t1) by {
        if !vars.contains(x) {
            let k = choose|k: int| 0 <= k < fresh_names(names, t).len() && fresh_names(names, t)[k] == x;
            assert((t <= lo2 || hi2 <= t) && x == fresh_name(names[k], t));
        }
    }
}

/// A well-formed expression, once it is tagged from `t0` and renamed, binds no name
/// that is in scope already, where no name in scope ends in a tag of the expression
/// other than its last.
pub proof fn lemma_renamed_unshadowed<S>(
    p: ExpV<S>,
    t0: nat,
    vs: Set<Seq<char>>,
    fs: Map<Seq<char>, nat>,
    vm: Map<Seq<char>, Seq<char>>,
    fm: Map<Seq<char>, Seq<char>>,
    vars: Set<Seq<char>>,
)
    requires
        well_formed(p, vs, fs),
        t0 + nodes(p) <= u32::MAX,
        all_tagged_outside(vars, t0, t0 + nodes(p)),
    ensures
        unshadowed(uniq_spec(tag_spec(p, t0), vm, fm), vars),
    decreases p, 1nat,
{
    let q = uniq_spec(tag_spec(p, t0), vm, fm);
    let t = (t0 + 1) as u32;
    let hi = t0 + nodes(p);
    match p {
        ExpV::Num(..) | ExpV::Bool(..) | ExpV::Var(..) => {},
        ExpV::Prim(op, es, _) => {
            let out = uniq_operands(tag_operands(es, t0 + 1), vm, fm);
            assert(q == ExpV::Prim(op, out, ()));
            lemma_operands_unshadowed(es, t0 + 1, hi, vs, fs, vm, fm, vars);
        },
        ExpV::Let { bindings, body, .. } => {
            let names = binding_names(bindings);
            let n = bindings.len() as int;
            let sizes = binding_nodes(bindings);
            let tagged = tag_bindings(bindings, t0 + 1);
            assert(binding_names(tagged) =~= names);
            let out = uniq_bindings(tagged, vm, fm, t);
            let new_names = fresh_names(names, t);
            assert(binding_names(out) =~= new_names);
            lemma_fresh_names_distinct(names, t);
            assert forall|i: int| 0 <= i < n implies !vars.contains(#[trigger] new_names[i]) by {
                lemma_fresh_is_new(vars, t0, hi, names[i], t);
            }
            assert forall|i: int| 0 <= i < out.len() implies unshadowed(
                (#[trigger] out[i]).1,
                vars.union(new_names.take(i).to_set()),
            ) by {
                let ti = t0 + 1 + total(sizes, i);
                assert(total(sizes, i + 1) == total(sizes, i) + nodes(bindings[i].1));
                lemma_total_mono(sizes, i + 1, n);
                assert(new_names.take(i) =~= fresh_names(names.take(i), t));
                lemma_tagged_outside_more(
                    vars,
                    t0,
                    hi,
                    names.take(i),
                    t,
                    ti,
                    ti + nodes(bindings[i].1),
                );
                assert(well_formed(bindings[i].1, vs.union(names.take(i).to_set()), fs));
                lemma_renamed_unshadowed(
                    bindings[i].1,
                    ti,
                    vs.union(names.take(i).to_set()),
                    fs,
                    rename_all(vm, names, i, t),
                    fm,
                    vars.union(new_names.take(i).to_set()),
                );
            }
            let tb = t0 + 1 + total(sizes, n);
            lemma_tagged_outside_more(vars, t0, hi, names, t, tb, tb + nodes(*body));
            lemma_renamed_unshadowed(
                *body,
                tb,
                vs.union(names.to_set()),
                fs,
                rename_all(vm, names, n, t),
                fm,
                vars.union(new_names.to_set()),
            );
        },
        ExpV::If { cond, thn, els, .. } => {
            let t1 = t0 + 1;
            let t2 = t1 + nodes(*cond);
            let t3 = t2 + nodes(*thn);
            let none = Seq::<Seq<char>>::empty();
            lemma_tagged_outside_more(vars, t0, hi, none, 0, t1, t2);
            lemma_tagged_outside_more(vars, t0, hi, none, 0, t2, t3);
            lemma_tagged_outside_more(vars, t0, hi, none, 0, t3, hi);
            lemma_renamed_unshadowed(*cond, t1, vs, fs, vm, fm, vars);
            lemma_renamed_unshadowed(*thn, t2, vs, fs, vm, fm, vars);
            lemma_renamed_unshadowed(*els, t3, vs, fs, vm, fm, vars);
        },
        ExpV::FunDefs { .. } => {
            lemma_group_unshadowed(p, t0, vs, fs, vm, fm, vars);
        },
        ExpV::Call(f, args, _) => {
            let out = uniq_operands(tag_operands(args, t0 + 1), vm, fm);
            assert(q == ExpV::Call(fm[f], out, ()));
            lemma_operands_unshadowed(args, t0 + 1, hi, vs, fs, vm, fm, vars);
        },
        ExpV::InternalTailCall(..) | ExpV::ExternalCall { .. } => {},
    }
}

/// `lemma_renamed_unshadowed` for a group of functions.
pub proof fn lemma_group_unshadowed<S>(
    p: ExpV<S>,
    t0: nat,
    vs: Set<Seq<char>>,
    fs: Map<Seq<char>, nat>,
    vm: Map<Seq<char>, Seq<char>>,
    fm: Map<Seq<char>, Seq<char>>,
    vars: Set<Seq<char>>,
)
    requires
        p is FunDefs,
        well_formed(p, vs, fs),
        t0 + nodes(p) <= u32::MAX,
        all_tagged_outside(vars, t0, t0 + nodes(p)),
    ensures
        unshadowed(uniq_spec(tag_spec(p, t0), vm, fm), vars),
    decreases p, 0nat,
{
    let decls = p->FunDefs_decls;
    let body = p->FunDefs_body;
    let t = (t0 + 1) as u32;
    let hi = t0 + nodes(p);
    assert(nodes(*body) >= 1);
    let names = group_names(decls);
    let n = decls.len() as int;
    let sizes = decl_nodes(decls);
    let tagged = tag_group(decls, t0 + 1, t);
    assert(group_names(tagged) =~= names);
    let fs2 = with_group(fs, decls, n);
    let fm2 = rename_all(fm, names, n, t);
    let out = uniq_decls(tagged, vm, fm2, t);
    let tb = t0 + 1 + total(sizes, n);
    assert forall|i: int| 0 <= i < n implies t0 + 1 + total(sizes, i) + nodes(
        decls[i].body,
    ) <= tb && last_tag(#[trigger] tagged[i].body) == t0 + 1 + total(sizes, i) + nodes(
        decls[i].body,
    ) by {
        assert(total(sizes, i + 1) == total(sizes, i) + nodes(decls[i].body));
        lemma_total_mono(sizes, i + 1, n);
        lemma_last_tag(decls[i].body, t0 + 1 + total(sizes, i));
    }
    assert forall|i: int| 0 <= i < out.len() implies (
    #[trigger] out[i]).parameters.no_duplicates() by {
        assert(decls[i].parameters.no_duplicates());
        lemma_fresh_names_distinct(decls[i].parameters, last_tag(tagged[i].body));
    }
    assert forall|i: int, k: int|
        0 <= i < out.len() && 0 <= k < out[i].parameters.len() implies !vars.contains(
        #[trigger] out[i].parameters[k],
    ) by {
        lemma_fresh_is_new(vars, t0, hi, decls[i].parameters[k], last_tag(tagged[i].body));
    }
    assert forall|i: int| 0 <= i < out.len() implies unshadowed(
        (#[trigger] out[i]).body,
        vars.union(out[i].parameters.to_set()),
    ) by {
        let ps = decls[i].parameters;
        let ti = t0 + 1 + total(sizes, i);
        let own = last_tag(tagged[i].body);
        lemma_tagged_outside_more(vars, t0, hi, ps, own, ti, ti + nodes(decls[i].body));
        assert(well_formed(decls[i].body, vs.union(ps.to_set()), fs2));
        lemma_renamed_unshadowed(
            decls[i].body,
            ti,
            vs.union(ps.to_set()),
            fs2,
            rename_all(vm, ps, ps.len() as int, own),
            fm2,
            vars.union(fresh_names(ps, own).to_set()),
        );
    }
    lemma_tagged_outside_more(vars, t0, hi, Seq::empty(), 0, tb, hi);
    lemma_renamed_unshadowed(*body, tb, vs, fs2, vm, fm2, vars);
}

/// `lemma_renamed_unshadowed` for each expression of a list that is tagged from `t`
/// on.
pub proof fn lemma_operands_unshadowed<S>(
    es: Seq<ExpV<S>>,
    t: nat,
    hi: nat,
    vs: Set<Seq<char>>,
    fs: Map<Seq<char>, nat>,
    vm: Map<Seq<char>, Seq<char>>,
    fm: Map<Seq<char>, Seq<char>>,
    vars: Set<Seq<char>>,
)
    requires
        forall|i: int| 0 <= i < es.len() ==> well_formed(#[trigger] es[i], vs, fs),
        t + total(operand_nodes(es), es.len() as int) <= hi <= u32::MAX,
        t >= 1,
        all_tagged_outside(vars, (t - 1) as nat, hi),
    ensures
        forall|i: int|
            0 <= i < es.len() ==> unshadowed(
                #[trigger] uniq_operands(tag_operands(es, t), vm, fm)[i],
                vars,
            ),
    decreases es, 0nat,
{
    let sizes = operand_nodes(es);
    let out = uniq_operands(tag_operands(es, t), vm, fm);
    assert forall|i: int| 0 <= i < es.len() implies unshadowed(#[trigger] out[i], vars) by {
        let ti = t + total(sizes, i);
        assert(total(sizes, i + 1) == total(sizes, i) + nodes(es[i]));
        lemma_total_mono(sizes, i + 1, es.len() as int);
        lemma_tagged_outside_more(vars, (t - 1) as nat, hi, Seq::empty(), 0, ti, ti + nodes(es[i]));
        assert(well_formed(es[i], vs, fs));
        lemma_renamed_unshadowed(es[i], ti, vs, fs, vm, fm, vars);
    }
}

/// After renaming, a well-formed program binds no name that is in scope already: no
/// name shadows another.
pub proof fn lemma_renamed_has_no_shadowing<S>(p: ExpV<S>)
    requires
        well_formed(p, Set::empty(), Map::empty()),
        nodes(p) <= u32::MAX,
    ensures
        unshadowed(uniq_spec(tag_spec(p, 0), Map::empty(), Map::empty()), Set::empty()),
{
    lemma_renamed_unshadowed(
        p,
        0,
        Set::empty(),
        Map::empty(),
        Map::empty(),
        Map::empty(),
        Set::empty(),
    );
}

} // verus!
