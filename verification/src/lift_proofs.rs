//! Why lifting goes through on a scoped program, and what holds of its result.

use vstd::prelude::*;
use crate::classify::lift_set;
use crate::lift::{
    calls_resolve, captured_args, decl_parts, extend_all, extend_bindings, extend_calls,
    extend_decls, first_pass, first_table, keep_decls, lift_bindings, lift_decls, lift_exp,
    lift_operands, lift_prog, liftable, param_table, rebind,
};
use crate::lists::{
    concat_all, concat_upto, every, firsts, lemma_every_add, lemma_every_concat, seconds,
};
use crate::names::{env_extend, lemma_add_to_set, lemma_env_extend_set};
use crate::scope::{
    binding_declared, declared, group_declared, lift_ready, lift_scoped, lifted_ok, lifted_prog_ok,
    operand_declared, resolved_in, with_lifted_group,
};
use crate::syntax::{ExpV, FunDeclV, binding_names, group_names};

verus! {

/// Where no name is declared twice, the table gives each declaration its own
/// parameters.
pub proof fn lemma_table_unique<E, A>(ds: Seq<FunDeclV<E, A>>, n: int, k: int)
    requires
        group_names(ds).no_duplicates(),
        0 <= k < n <= ds.len(),
    ensures
        param_table(ds, n).contains_key(ds[k].name),
        param_table(ds, n)[ds[k].name] == ds[k].parameters,
    decreases n,
{
    if k < n - 1 {
        lemma_table_unique(ds, n - 1, k);
        assert(group_names(ds)[k] == ds[k].name);
        assert(group_names(ds)[n - 1] == ds[n - 1].name);
    }
}

/// The names of lists of declarations, one after the other.
pub proof fn lemma_names_concat<E, A>(
    parts: Seq<Seq<FunDeclV<E, A>>>,
    names: Seq<Seq<Seq<char>>>,
    n: int,
)
    requires
        0 <= n <= parts.len(),
        parts.len() == names.len(),
        forall|i: int| 0 <= i < parts.len() ==> group_names(#[trigger] parts[i]) == names[i],
    ensures
        group_names(concat_upto(parts, n)) == concat_upto(names, n),
    decreases n,
{
    if n > 0 {
        lemma_names_concat(parts, names, n - 1);
        assert(group_names(parts[n - 1]) == names[n - 1]);
        assert(group_names(concat_upto(parts, n - 1) + parts[n - 1]) =~= group_names(
            concat_upto(parts, n - 1),
        ) + group_names(parts[n - 1]));
    } else {
        assert(group_names(concat_upto(parts, n)) =~= concat_upto(names, n));
    }
}

/// The first pass of lifting returns the declarations of a program in the order in
/// which the program declares them.
pub proof fn lemma_lift_names<A>(
    e: ExpV<A>,
    env: Seq<Seq<char>>,
    lifted: Set<Seq<char>>,
    is_tail: bool,
)
    requires
        e.is_surface(),
    ensures
        group_names(lift_exp(e, env, lifted, is_tail).0) == declared(e),
    decreases e,
{
    let out = lift_exp(e, env, lifted, is_tail);
    match e {
        ExpV::Num(..) | ExpV::Bool(..) | ExpV::Var(..) => {
            assert(group_names(out.0) =~= declared(e));
        },
        ExpV::Prim(_, es, _) => {
            let rs = lift_operands(es, env, lifted);
            assert forall|i: int| 0 <= i < es.len() implies group_names(#[trigger] firsts(rs)[i])
                == operand_declared(es)[i] by {
                lemma_lift_names(es[i], env, lifted, false);
            }
            lemma_names_concat(firsts(rs), operand_declared(es), es.len() as int);
        },
        ExpV::Let { bindings, body, .. } => {
            let rs = lift_bindings(bindings, env, lifted);
            assert forall|i: int| 0 <= i < bindings.len() implies group_names(
                #[trigger] firsts(rs)[i],
            ) == binding_declared(bindings)[i] by {
                lemma_lift_names(
                    bindings[i].1,
                    env_extend(env, binding_names(bindings), i),
                    lifted,
                    false,
                );
            }
            lemma_names_concat(firsts(rs), binding_declared(bindings), bindings.len() as int);
            let inner = env_extend(env, binding_names(bindings), bindings.len() as int);
            lemma_lift_names(*body, inner, lifted, is_tail);
            let b = lift_exp(*body, inner, lifted, is_tail);
            assert(group_names(concat_all(firsts(rs)) + b.0) =~= group_names(
                concat_all(firsts(rs)),
            ) + group_names(b.0));
        },
        ExpV::If { cond, thn, els, .. } => {
            lemma_lift_names(*cond, env, lifted, false);
            lemma_lift_names(*thn, env, lifted, is_tail);
            lemma_lift_names(*els, env, lifted, is_tail);
            let c = lift_exp(*cond, env, lifted, false);
            let t = lift_exp(*thn, env, lifted, is_tail);
            let f = lift_exp(*els, env, lifted, is_tail);
            assert(group_names(c.0 + t.0 + f.0) =~= group_names(c.0) + group_names(t.0)
                + group_names(f.0));
        },
        ExpV::FunDefs { decls, body, .. } => {
            let rs = lift_decls(decls, env, lifted);
            let parts = decl_parts(rs);
            assert forall|i: int| 0 <= i < decls.len() implies group_names(#[trigger] parts[i])
                == group_declared(decls)[i] by {
                let inner = env_extend(env, decls[i].parameters, decls[i].parameters.len() as int);
                lemma_lift_names(decls[i].body, inner, lifted, true);
                assert(group_names(seq![rs[i].1] + rs[i].0) =~= seq![decls[i].name] + group_names(
                    rs[i].0,
                ));
            }
            lemma_names_concat(parts, group_declared(decls), decls.len() as int);
            lemma_lift_names(*body, env, lifted, is_tail);
            let b = lift_exp(*body, env, lifted, is_tail);
            assert(group_names(concat_all(parts) + b.0) =~= group_names(concat_all(parts))
                + group_names(b.0));
        },
        ExpV::Call(_, args, _) => {
            let rs = lift_operands(args, env, lifted);
            assert forall|i: int| 0 <= i < args.len() implies group_names(#[trigger] firsts(rs)[i])
                == operand_declared(args)[i] by {
                lemma_lift_names(args[i], env, lifted, false);
            }
            lemma_names_concat(firsts(rs), operand_declared(args), args.len() as int);
        },
        ExpV::InternalTailCall(..) | ExpV::ExternalCall { .. } => {
            assert(group_names(out.0) =~= declared(e));
        },
    }
}

/// Whether `table` gives a declaration its own parameters.
pub open spec fn in_table(table: Map<Seq<char>, Seq<Seq<char>>>) -> spec_fn(
    FunDeclV<ExpV<()>, ()>,
) -> bool {
    |d: FunDeclV<ExpV<()>, ()>| table.contains_key(d.name) && table[d.name] == d.parameters
}

/// Whether the body of a declaration is in order where the parameters of the
/// declaration are in scope.
pub open spec fn body_resolved(table: Map<Seq<char>, Seq<Seq<char>>>, strict: bool) -> spec_fn(
    FunDeclV<ExpV<()>, ()>,
) -> bool {
    |d: FunDeclV<ExpV<()>, ()>| resolved_in(d.body, d.parameters.to_set(), table, strict)
}

/// What holds of every declaration of a list holds of those that are kept.
pub proof fn lemma_every_keep<E, A>(
    ds: Seq<FunDeclV<E, A>>,
    n: int,
    lifted: Set<Seq<char>>,
    want: bool,
    q: spec_fn(FunDeclV<E, A>) -> bool,
)
    requires
        0 <= n <= ds.len(),
        every(ds, q),
    ensures
        every(keep_decls(ds, n, lifted, want), q),
    decreases n,
{
    if n > 0 {
        lemma_every_keep(ds, n - 1, lifted, want, q);
        assert(q(ds[n - 1]));
    }
}

/// The functions that a group puts in scope for lifting are those that were in scope
/// and those of the group; a function of the group takes the variables in scope and
/// the parameters of one of its declarations.
pub proof fn lemma_with_lifted_group<E, A>(
    fenv: Map<Seq<char>, Seq<Seq<char>>>,
    ds: Seq<FunDeclV<E, A>>,
    env: Seq<Seq<char>>,
    n: int,
    f: Seq<char>,
)
    requires
        0 <= n <= ds.len(),
        with_lifted_group(fenv, ds, env, n).contains_key(f),
    ensures
        (fenv.contains_key(f) && with_lifted_group(fenv, ds, env, n)[f] == fenv[f]) || exists|i: int|
            0 <= i < n && #[trigger] ds[i].name == f && with_lifted_group(fenv, ds, env, n)[f] == env
                + ds[i].parameters,
    decreases n,
{
    if n > 0 {
        if ds[n - 1].name == f {
            assert(with_lifted_group(fenv, ds, env, n)[f] == env + ds[n - 1].parameters);
        } else {
            lemma_with_lifted_group(fenv, ds, env, n - 1, f);
        }
    }
}

/// Whether `table` gives every function of `fenv` the parameters that `fenv` gives it.
pub open spec fn agrees(
    fenv: Map<Seq<char>, Seq<Seq<char>>>,
    table: Map<Seq<char>, Seq<Seq<char>>>,
) -> bool {
    forall|f: Seq<char>| #[trigger] fenv.contains_key(f) ==> table.contains_key(f) && table[f] == fenv[f]
}

/// The first pass of lifting leaves a scoped expression in order, and the body of
/// every declaration that it returns.
pub proof fn lemma_first_pass<A>(
    e: ExpV<A>,
    env: Seq<Seq<char>>,
    fenv: Map<Seq<char>, Seq<Seq<char>>>,
    lifted: Set<Seq<char>>,
    is_tail: bool,
    table: Map<Seq<char>, Seq<Seq<char>>>,
    strict: bool,
)
    requires
        lift_scoped(e, env, fenv),
        strict ==> e.prims_saturated(),
        agrees(fenv, table),
        every(lift_exp(e, env, lifted, is_tail).0, in_table(table)),
    ensures
        resolved_in(lift_exp(e, env, lifted, is_tail).1, env.to_set(), table, strict),
        every(lift_exp(e, env, lifted, is_tail).0, body_resolved(table, strict)),
    decreases e, 1nat,
{
    let vars = env.to_set();
    match e {
        ExpV::Num(..) | ExpV::Bool(..) | ExpV::Var(..) => {},
        ExpV::Prim(_, es, _) => {
            lemma_operands_pass(es, env, fenv, lifted, table, strict);
        },
        ExpV::Let { bindings, body, .. } => {
            lemma_let_pass(e, env, fenv, lifted, is_tail, table, strict);
        },
        ExpV::If { cond, thn, els, .. } => {
            let c = lift_exp(*cond, env, lifted, false);
            let t = lift_exp(*thn, env, lifted, is_tail);
            let f = lift_exp(*els, env, lifted, is_tail);
            lemma_every_add(c.0 + t.0, f.0, in_table(table));
            lemma_every_add(c.0, t.0, in_table(table));
            lemma_first_pass(*cond, env, fenv, lifted, false, table, strict);
            lemma_first_pass(*thn, env, fenv, lifted, is_tail, table, strict);
            lemma_first_pass(*els, env, fenv, lifted, is_tail, table, strict);
            lemma_every_add(c.0, t.0, body_resolved(table, strict));
            lemma_every_add(c.0 + t.0, f.0, body_resolved(table, strict));
        },
        ExpV::FunDefs { decls, body, .. } => {
            lemma_group_pass(e, env, fenv, lifted, is_tail, table, strict);
        },
        ExpV::Call(f, args, _) => {
            lemma_operands_pass(args, env, fenv, lifted, table, strict);
            let rs = lift_operands(args, env, lifted);
            assert(seconds(rs).len() == args.len());
            assert(fenv.contains_key(f));
            assert forall|k: int| 0 <= k < table[f].len() - args.len() implies vars.contains(
                #[trigger] table[f][k],
            ) by {
                assert(env.contains(fenv[f][k]));
            }
        },
        ExpV::InternalTailCall(..) | ExpV::ExternalCall { .. } => {},
    }
}

/// The first pass of lifting on a `Let`.
pub proof fn lemma_let_pass<A>(
    e: ExpV<A>,
    env: Seq<Seq<char>>,
    fenv: Map<Seq<char>, Seq<Seq<char>>>,
    lifted: Set<Seq<char>>,
    is_tail: bool,
    table: Map<Seq<char>, Seq<Seq<char>>>,
    strict: bool,
)
    requires
        e is Let,
        lift_scoped(e, env, fenv),
        strict ==> e.prims_saturated(),
        agrees(fenv, table),
        every(lift_exp(e, env, lifted, is_tail).0, in_table(table)),
    ensures
        resolved_in(lift_exp(e, env, lifted, is_tail).1, env.to_set(), table, strict),
        every(lift_exp(e, env, lifted, is_tail).0, body_resolved(table, strict)),
    decreases e, 0nat,
{
    let vars = env.to_set();
    let bindings = e->Let_bindings;
    let body = e->Let_body;
    let rs = lift_bindings(bindings, env, lifted);
    let names = binding_names(bindings);
    let inner = env_extend(env, names, bindings.len() as int);
    let b = lift_exp(*body, inner, lifted, is_tail);
    lemma_every_add(concat_all(firsts(rs)), b.0, in_table(table));
    lemma_every_concat(firsts(rs), rs.len() as int, in_table(table));
    assert(binding_names(rebind(bindings, rs)) =~= names);
    assert forall|i: int| 0 <= i < rs.len() implies resolved_in(
        (#[trigger] rebind(bindings, rs)[i]).1,
        vars.union(names.take(i).to_set()),
        table, strict) by {
        assert(every(firsts(rs)[i], in_table(table)));
        assert(lift_scoped(bindings[i].1, env_extend(env, names, i), fenv));
        assert(strict ==> bindings[i].1.prims_saturated());
        lemma_first_pass(bindings[i].1, env_extend(env, names, i), fenv, lifted, false, table, strict);
        lemma_env_extend_set(env, names, i);
    }
    assert forall|i: int| 0 <= i < rs.len() implies every(
        #[trigger] firsts(rs)[i],
        body_resolved(table, strict),
    ) by {
        assert(every(firsts(rs)[i], in_table(table)));
        assert(lift_scoped(bindings[i].1, env_extend(env, names, i), fenv));
        assert(strict ==> bindings[i].1.prims_saturated());
        lemma_first_pass(bindings[i].1, env_extend(env, names, i), fenv, lifted, false, table, strict);
    }
    lemma_every_concat(firsts(rs), rs.len() as int, body_resolved(table, strict));
    lemma_first_pass(*body, inner, fenv, lifted, is_tail, table, strict);
    lemma_env_extend_set(env, names, bindings.len() as int);
    assert(names.take(bindings.len() as int) =~= names);
    lemma_every_add(concat_all(firsts(rs)), b.0, body_resolved(table, strict));
}

/// The first pass of lifting on a group of functions.
pub proof fn lemma_group_pass<A>(
    e: ExpV<A>,
    env: Seq<Seq<char>>,
    fenv: Map<Seq<char>, Seq<Seq<char>>>,
    lifted: Set<Seq<char>>,
    is_tail: bool,
    table: Map<Seq<char>, Seq<Seq<char>>>,
    strict: bool,
)
    requires
        e is FunDefs,
        lift_scoped(e, env, fenv),
        strict ==> e.prims_saturated(),
        agrees(fenv, table),
        every(lift_exp(e, env, lifted, is_tail).0, in_table(table)),
    ensures
        resolved_in(lift_exp(e, env, lifted, is_tail).1, env.to_set(), table, strict),
        every(lift_exp(e, env, lifted, is_tail).0, body_resolved(table, strict)),
    decreases e, 0nat,
{
    let vars = env.to_set();
    let decls = e->FunDefs_decls;
    let body = e->FunDefs_body;
    let rs = lift_decls(decls, env, lifted);
    let parts = decl_parts(rs);
    let b = lift_exp(*body, env, lifted, is_tail);
    let inner_fenv = with_lifted_group(fenv, decls, env, decls.len() as int);
    lemma_every_add(concat_all(parts), b.0, in_table(table));
    lemma_every_concat(parts, rs.len() as int, in_table(table));
    assert forall|i: int| 0 <= i < rs.len() implies in_table(table)(#[trigger] rs[i].1) && every(
        rs[i].0,
        in_table(table),
    ) by {
        assert(every(parts[i], in_table(table)));
        lemma_every_add(seq![rs[i].1], rs[i].0, in_table(table));
        assert(seq![rs[i].1][0] == rs[i].1);
    }
    assert(agrees(inner_fenv, table)) by {
        assert forall|f: Seq<char>| #[trigger] inner_fenv.contains_key(f) implies table.contains_key(
            f,
        ) && table[f] == inner_fenv[f] by {
            lemma_with_lifted_group(fenv, decls, env, decls.len() as int, f);
            if !(fenv.contains_key(f) && inner_fenv[f] == fenv[f]) {
                let i = choose|i: int|
                    0 <= i < decls.len() && #[trigger] decls[i].name == f && inner_fenv[f] == env
                        + decls[i].parameters;
                assert(in_table(table)(rs[i].1));
            }
        }
    }
    assert forall|i: int| 0 <= i < rs.len() implies body_resolved(table, strict)(#[trigger] rs[i].1)
        && every(rs[i].0, body_resolved(table, strict)) by {
        let ps = decls[i].parameters;
        let inner_env = env_extend(env, ps, ps.len() as int);
        assert(lift_scoped(decls[i].body, inner_env, inner_fenv));
        assert(strict ==> decls[i].body.prims_saturated());
        assert(in_table(table)(rs[i].1));
        assert(every(rs[i].0, in_table(table)));
        assert(rs[i].0 == lift_exp(decls[i].body, inner_env, lifted, true).0);
        lemma_first_pass(decls[i].body, inner_env, inner_fenv, lifted, true, table, strict);
        lemma_env_extend_set(env, ps, ps.len() as int);
        assert(ps.take(ps.len() as int) =~= ps);
        lemma_add_to_set(env, ps);
    }
    assert forall|i: int| 0 <= i < parts.len() implies every(
        #[trigger] parts[i],
        body_resolved(table, strict),
    ) by {
        assert(body_resolved(table, strict)(rs[i].1));
        assert(seq![rs[i].1][0] == rs[i].1);
        assert(every(seq![rs[i].1], body_resolved(table, strict)));
        lemma_every_add(seq![rs[i].1], rs[i].0, body_resolved(table, strict));
    }
    lemma_every_concat(parts, rs.len() as int, body_resolved(table, strict));
    lemma_first_pass(*body, env, inner_fenv, lifted, is_tail, table, strict);
    lemma_every_add(concat_all(parts), b.0, body_resolved(table, strict));
    let kept = keep_decls(seconds(rs), rs.len() as int, lifted, false);
    assert(every(seconds(rs), body_resolved(table, strict))) by {
        assert forall|j: int| 0 <= j < seconds(rs).len() implies body_resolved(table, strict)(
            #[trigger] seconds(rs)[j],
        ) by {
            assert(body_resolved(table, strict)(rs[j].1));
        }
    }
    assert(every(seconds(rs), in_table(table))) by {
        assert forall|j: int| 0 <= j < seconds(rs).len() implies in_table(table)(
            #[trigger] seconds(rs)[j],
        ) by {
            assert(in_table(table)(rs[j].1));
        }
    }
    lemma_every_keep(seconds(rs), rs.len() as int, lifted, false, body_resolved(table, strict));
    lemma_every_keep(seconds(rs), rs.len() as int, lifted, false, in_table(table));
    if kept.len() > 0 {
        assert forall|j: int| 0 <= j < kept.len() implies table.contains_key(
            (#[trigger] kept[j]).name,
        ) && table[kept[j].name] == kept[j].parameters by {
            assert(in_table(table)(kept[j]));
        }
        assert forall|j: int| 0 <= j < kept.len() implies resolved_in(
            (#[trigger] kept[j]).body,
            kept[j].parameters.to_set(),
            table,
            strict,
        ) by {
            assert(body_resolved(table, strict)(kept[j]));
        }
    }
}

/// The first pass of lifting leaves each expression of a scoped list in order, and
/// the body of every declaration that it returns.
pub proof fn lemma_operands_pass<A>(
    es: Seq<ExpV<A>>,
    env: Seq<Seq<char>>,
    fenv: Map<Seq<char>, Seq<Seq<char>>>,
    lifted: Set<Seq<char>>,
    table: Map<Seq<char>, Seq<Seq<char>>>,
    strict: bool,
)
    requires
        forall|i: int| 0 <= i < es.len() ==> lift_scoped(#[trigger] es[i], env, fenv),
        strict ==> forall|i: int| 0 <= i < es.len() ==> (#[trigger] es[i]).prims_saturated(),
        agrees(fenv, table),
        every(concat_all(firsts(lift_operands(es, env, lifted))), in_table(table)),
    ensures
        forall|i: int|
            0 <= i < es.len() ==> resolved_in(
                #[trigger] seconds(lift_operands(es, env, lifted))[i],
                env.to_set(),
                table, strict),
        every(concat_all(firsts(lift_operands(es, env, lifted))), body_resolved(table, strict)),
    decreases es,
{
    let rs = lift_operands(es, env, lifted);
    lemma_every_concat(firsts(rs), rs.len() as int, in_table(table));
    assert forall|i: int| 0 <= i < es.len() implies resolved_in(
        #[trigger] seconds(rs)[i],
        env.to_set(),
        table, strict) by {
        assert(every(firsts(rs)[i], in_table(table)));
        assert(lift_scoped(es[i], env, fenv));
        assert(strict ==> es[i].prims_saturated());
        lemma_first_pass(es[i], env, fenv, lifted, false, table, strict);
    }
    assert forall|i: int| 0 <= i < rs.len() implies every(
        #[trigger] firsts(rs)[i],
        body_resolved(table, strict),
    ) by {
        assert(every(firsts(rs)[i], in_table(table)));
        assert(lift_scoped(es[i], env, fenv));
        assert(strict ==> es[i].prims_saturated());
        lemma_first_pass(es[i], env, fenv, lifted, false, table, strict);
    }
    lemma_every_concat(firsts(rs), rs.len() as int, body_resolved(table, strict));
}

/// An expression that can be lifted is written in the surface language.
pub proof fn lemma_scoped_is_surface<A>(
    e: ExpV<A>,
    env: Seq<Seq<char>>,
    fenv: Map<Seq<char>, Seq<Seq<char>>>,
)
    requires
        lift_scoped(e, env, fenv),
    ensures
        e.is_surface(),
    decreases e,
{
    match e {
        ExpV::Num(..) | ExpV::Bool(..) | ExpV::Var(..) => {},
        ExpV::Prim(_, es, _) => {
            assert forall|i: int| 0 <= i < es.len() implies (#[trigger] es[i]).is_surface() by {
                lemma_scoped_is_surface(es[i], env, fenv);
            }
        },
        ExpV::Let { bindings, body, .. } => {
            let names = binding_names(bindings);
            assert forall|i: int| 0 <= i < bindings.len() implies (
            #[trigger] bindings[i]).1.is_surface() by {
                lemma_scoped_is_surface(bindings[i].1, env_extend(env, names, i), fenv);
            }
            lemma_scoped_is_surface(*body, env_extend(env, names, bindings.len() as int), fenv);
        },
        ExpV::If { cond, thn, els, .. } => {
            lemma_scoped_is_surface(*cond, env, fenv);
            lemma_scoped_is_surface(*thn, env, fenv);
            lemma_scoped_is_surface(*els, env, fenv);
        },
        ExpV::FunDefs { decls, body, .. } => {
            let inner = with_lifted_group(fenv, decls, env, decls.len() as int);
            assert forall|i: int| 0 <= i < decls.len() implies (
            #[trigger] decls[i]).body.is_surface() by {
                lemma_scoped_is_surface(
                    decls[i].body,
                    env_extend(env, decls[i].parameters, decls[i].parameters.len() as int),
                    inner,
                );
            }
            lemma_scoped_is_surface(*body, env, inner);
        },
        ExpV::Call(_, args, _) => {
            assert forall|i: int| 0 <= i < args.len() implies (#[trigger] args[i]).is_surface() by {
                lemma_scoped_is_surface(args[i], env, fenv);
            }
        },
        ExpV::InternalTailCall(..) | ExpV::ExternalCall { .. } => {},
    }
}

/// In an expression that the first pass left in order, every call finds its function.
pub proof fn lemma_resolved_calls(
    e: ExpV<()>,
    vars: Set<Seq<char>>,
    table: Map<Seq<char>, Seq<Seq<char>>>,
    strict: bool,
)
    requires
        resolved_in(e, vars, table, strict),
    ensures
        calls_resolve(e, table),
    decreases e,
{
    match e {
        ExpV::Num(..) | ExpV::Bool(..) | ExpV::Var(..) | ExpV::Call(..) => {},
        ExpV::Prim(_, es, _) => {
            assert forall|i: int| 0 <= i < es.len() implies calls_resolve(#[trigger] es[i], table) by {
                lemma_resolved_calls(es[i], vars, table, strict);
            }
        },
        ExpV::Let { bindings, body, .. } => {
            let names = binding_names(bindings);
            assert forall|i: int| 0 <= i < bindings.len() implies calls_resolve(
                (#[trigger] bindings[i]).1,
                table,
            ) by {
                lemma_resolved_calls(
                    bindings[i].1,
                    vars.union(names.take(i).to_set()),
                    table,
                    strict,
                );
            }
            lemma_resolved_calls(*body, vars.union(names.to_set()), table, strict);
        },
        ExpV::If { cond, thn, els, .. } => {
            lemma_resolved_calls(*cond, vars, table, strict);
            lemma_resolved_calls(*thn, vars, table, strict);
            lemma_resolved_calls(*els, vars, table, strict);
        },
        ExpV::FunDefs { decls, body, .. } => {
            assert forall|i: int| 0 <= i < decls.len() implies calls_resolve(
                (#[trigger] decls[i]).body,
                table,
            ) by {
                lemma_resolved_calls(
                    decls[i].body,
                    decls[i].parameters.to_set(),
                    table,
                    strict,
                );
            }
            lemma_resolved_calls(*body, vars, table, strict);
        },
        ExpV::InternalTailCall(_, args, _) => {
            assert forall|i: int| 0 <= i < args.len() implies calls_resolve(
                #[trigger] args[i],
                table,
            ) by {
                lemma_resolved_calls(args[i], vars, table, strict);
            }
        },
        ExpV::ExternalCall { args, .. } => {
            assert forall|i: int| 0 <= i < args.len() implies calls_resolve(
                #[trigger] args[i],
                table,
            ) by {
                lemma_resolved_calls(args[i], vars, table, strict);
            }
        },
    }
}

/// The arguments of a completed call are closed where the call was in order.
pub proof fn lemma_completed_args(
    f: Seq<char>,
    args: Seq<ExpV<()>>,
    vars: Set<Seq<char>>,
    table: Map<Seq<char>, Seq<Seq<char>>>,
)
    requires
        table.contains_key(f),
        table[f].len() >= args.len(),
        forall|k: int| 0 <= k < table[f].len() - args.len() ==> vars.contains(#[trigger] table[f][k]),
        forall|i: int| 0 <= i < args.len() ==> resolved_in(#[trigger] args[i], vars, table, true),
    ensures
        forall|i: int|
            0 <= i < (captured_args(table, f, args.len()) + extend_all(args, table)).len()
                ==> lifted_ok(
                #[trigger] (captured_args(table, f, args.len()) + extend_all(args, table))[i],
                vars,
            ),
    decreases args,
{
    let head = captured_args(table, f, args.len());
    let tail = extend_all(args, table);
    assert forall|i: int| 0 <= i < (head + tail).len() implies lifted_ok(
        #[trigger] (head + tail)[i],
        vars,
    ) by {
        if i < head.len() {
            assert((head + tail)[i] == head[i]);
            assert(vars.contains(table[f][i]));
        } else {
            let j = i - head.len();
            assert((head + tail)[i] == tail[j]);
            assert(resolved_in(args[j], vars, table, true));
            lemma_completed(args[j], vars, table);
        }
    }
}

/// The second pass of lifting turns an expression that the first pass left in order
/// into a closed lifted expression.
pub proof fn lemma_completed(
    e: ExpV<()>,
    vars: Set<Seq<char>>,
    table: Map<Seq<char>, Seq<Seq<char>>>,
)
    requires
        resolved_in(e, vars, table, true),
    ensures
        lifted_ok(extend_calls(e, table), vars),
    decreases e,
{
    match e {
        ExpV::Num(..) | ExpV::Bool(..) | ExpV::Var(..) | ExpV::Call(..) => {},
        ExpV::Prim(_, es, _) => {
            let out = extend_all(es, table);
            assert forall|i: int| 0 <= i < out.len() implies lifted_ok(#[trigger] out[i], vars) by {
                assert(resolved_in(es[i], vars, table, true));
                lemma_completed(es[i], vars, table);
            }
        },
        ExpV::Let { bindings, body, .. } => {
            let names = binding_names(bindings);
            let out = extend_bindings(bindings, table);
            assert(binding_names(out) =~= names);
            assert forall|i: int| 0 <= i < out.len() implies lifted_ok(
                (#[trigger] out[i]).1,
                vars.union(names.take(i).to_set()),
            ) by {
                assert(resolved_in(bindings[i].1, vars.union(names.take(i).to_set()), table, true));
                lemma_completed(bindings[i].1, vars.union(names.take(i).to_set()), table);
            }
            lemma_completed(*body, vars.union(names.to_set()), table);
        },
        ExpV::If { cond, thn, els, .. } => {
            lemma_completed(*cond, vars, table);
            lemma_completed(*thn, vars, table);
            lemma_completed(*els, vars, table);
        },
        ExpV::FunDefs { decls, body, .. } => {
            let out = extend_decls(decls, table);
            assert forall|i: int| 0 <= i < out.len() implies lifted_ok(
                (#[trigger] out[i]).body,
                out[i].parameters.to_set(),
            ) by {
                assert(resolved_in(
                    decls[i].body,
                    decls[i].parameters.to_set(),
                    table,
                    true,
                ));
                lemma_completed(decls[i].body, decls[i].parameters.to_set(), table);
            }
            lemma_completed(*body, vars, table);
        },
        ExpV::InternalTailCall(f, args, _) => {
            lemma_completed_args(f, args, vars, table);
            let full = captured_args(table, f, args.len()) + extend_all(args, table);
            assert(extend_calls(e, table) == ExpV::InternalTailCall(f, full, ()));
            assert(forall|i: int| 0 <= i < full.len() ==> lifted_ok(#[trigger] full[i], vars));
        },
        ExpV::ExternalCall { fun_name, args, is_tail, .. } => {
            lemma_completed_args(fun_name, args, vars, table);
            let full = captured_args(table, fun_name, args.len()) + extend_all(args, table);
            assert(extend_calls(e, table) == ExpV::ExternalCall {
                fun_name: fun_name,
                args: full,
                is_tail: is_tail,
                ann: (),
            });
            assert(forall|i: int| 0 <= i < full.len() ==> lifted_ok(#[trigger] full[i], vars));
        },
    }
}

/// Whether the body of a declaration is closed where the parameters of the
/// declaration are in scope.
pub open spec fn body_closed() -> spec_fn(FunDeclV<ExpV<()>, ()>) -> bool {
    |d: FunDeclV<ExpV<()>, ()>| lifted_ok(d.body, d.parameters.to_set())
}

/// In a program that is ready for lifting, the first pass leaves the main expression
/// and the body of every function in order.
pub proof fn lemma_first_pass_prog<A>(p: ExpV<A>, strict: bool)
    requires
        lift_ready(p),
        strict ==> p.prims_saturated(),
    ensures
        resolved_in(first_pass(p).1, Set::empty(), first_table(p), strict),
        every(first_pass(p).0, body_resolved(first_table(p), strict)),
{
    let first = first_pass(p);
    let table = first_table(p);
    let env = Seq::<Seq<char>>::empty();
    lemma_scoped_is_surface(p, env, Map::empty());
    lemma_lift_names(p, env, lift_set(p), true);
    assert forall|k: int| 0 <= k < first.0.len() implies in_table(table)(#[trigger] first.0[k]) by {
        lemma_table_unique(first.0, first.0.len() as int, k);
    }
    lemma_first_pass(p, env, Map::empty(), lift_set(p), true, table, strict);
    assert(env.to_set() =~= Set::<Seq<char>>::empty());
}

/// A program that is ready for lifting can be lifted: every call finds its function
/// after the first pass.
pub proof fn lemma_ready_is_liftable<A>(p: ExpV<A>)
    requires
        lift_ready(p),
    ensures
        liftable(p),
{
    let first = first_pass(p);
    let table = first_table(p);
    lemma_scoped_is_surface(p, Seq::empty(), Map::empty());
    lemma_first_pass_prog(p, false);
    lemma_resolved_calls(first.1, Set::empty(), table, false);
    assert forall|i: int| 0 <= i < first.0.len() implies calls_resolve(
        (#[trigger] first.0[i]).body,
        table,
    ) by {
        assert(body_resolved(table, false)(first.0[i]));
        lemma_resolved_calls(first.0[i].body, first.0[i].parameters.to_set(), table, false);
    }
}

/// Lifting a program that is ready for it, and whose primitive operations have as
/// many operands as they take, gives a closed program: the main expression reads no
/// variable that it does not bind, and the body of a top-level function only its
/// parameters and what it binds.
pub proof fn lemma_lifted_closed<A>(p: ExpV<A>)
    requires
        lift_ready(p),
        p.prims_saturated(),
    ensures
        lifted_prog_ok(lift_prog(p).0, lift_prog(p).1),
{
    let first = first_pass(p);
    let table = first_table(p);
    lemma_first_pass_prog(p, true);
    lemma_completed(first.1, Set::empty(), table);
    let all = extend_decls(first.0, table);
    assert forall|i: int| 0 <= i < all.len() implies body_closed()(#[trigger] all[i]) by {
        assert(body_resolved(table, true)(first.0[i]));
        lemma_completed(first.0[i].body, first.0[i].parameters.to_set(), table);
    }
    lemma_every_keep(all, all.len() as int, lift_set(p), true, body_closed());
    let funs = lift_prog(p).0;
    assert forall|k: int| 0 <= k < funs.len() implies lifted_ok(
        (#[trigger] funs[k]).body,
        funs[k].parameters.to_set(),
    ) by {
        assert(body_closed()(funs[k]));
    }
}
} // verus!
