//! What holds of the names of a program between the passes: which variables and
//! functions are in scope where, and which functions a program declares.

use vstd::prelude::*;
use crate::lists::concat_all;
use crate::names::env_extend;
use crate::syntax::{ExpV, FunDeclV, binding_names};

verus! {

/// The names of the functions that each expression of a list declares.
pub open spec fn operand_declared<A>(es: Seq<ExpV<A>>) -> Seq<Seq<Seq<char>>>
    decreases es,
{
    Seq::new(
        es.len(),
        |i: int|
            if 0 <= i < es.len() {
                declared(es[i])
            } else {
                Seq::empty()
            },
    )
}

/// The names of the functions that each bound expression of a `Let` declares.
pub open spec fn binding_declared<A>(bs: Seq<(Seq<char>, ExpV<A>)>) -> Seq<Seq<Seq<char>>>
    decreases bs,
{
    Seq::new(
        bs.len(),
        |i: int|
            if 0 <= i < bs.len() {
                declared(bs[i].1)
            } else {
                Seq::empty()
            },
    )
}

/// For each declaration of a group, its name and the names of the functions that its
/// body declares.
pub open spec fn group_declared<A>(ds: Seq<FunDeclV<ExpV<A>, A>>) -> Seq<Seq<Seq<char>>>
    decreases ds,
{
    Seq::new(
        ds.len(),
        |i: int|
            if 0 <= i < ds.len() {
                seq![ds[i].name] + declared(ds[i].body)
            } else {
                Seq::empty()
            },
    )
}

/// The names of the functions that `e` declares, in the order in which the
/// declarations are met.
pub open spec fn declared<A>(e: ExpV<A>) -> Seq<Seq<char>>
    decreases e,
{
    match e {
        ExpV::Num(..) | ExpV::Bool(..) | ExpV::Var(..) => Seq::empty(),
        ExpV::Prim(_, es, _) => concat_all(operand_declared(es)),
        ExpV::Let { bindings, body, .. } => concat_all(binding_declared(bindings)) + declared(
            *body,
        ),
        ExpV::If { cond, thn, els, .. } => declared(*cond) + declared(*thn) + declared(*els),
        ExpV::FunDefs { decls, body, .. } => concat_all(group_declared(decls)) + declared(*body),
        ExpV::Call(_, args, _) => concat_all(operand_declared(args)),
        ExpV::InternalTailCall(_, args, _) => concat_all(operand_declared(args)),
        ExpV::ExternalCall { args, .. } => concat_all(operand_declared(args)),
    }
}

/// The parameters after lifting of the functions in scope, once the first `n`
/// declarations of a group that stands where `env` is in scope were added to `fenv`:
/// a function takes the variables of `env` in front of its own parameters.
pub open spec fn with_lifted_group<E, A>(
    fenv: Map<Seq<char>, Seq<Seq<char>>>,
    ds: Seq<FunDeclV<E, A>>,
    env: Seq<Seq<char>>,
    n: int,
) -> Map<Seq<char>, Seq<Seq<char>>>
    decreases n,
{
    if n <= 0 || n > ds.len() {
        fenv
    } else {
        with_lifted_group(fenv, ds, env, n - 1).insert(ds[n - 1].name, env + ds[n - 1].parameters)
    }
}

/// Whether `e` can be lifted where the variables `env` are in scope and `fenv` gives
/// the parameters after lifting of each function in scope: every variable is in
/// scope, and every call names a function in scope, gives it no more arguments than
/// it has parameters, and stands where the parameters that the call does not give
/// are variables in scope.
pub open spec fn lift_scoped<A>(
    e: ExpV<A>,
    env: Seq<Seq<char>>,
    fenv: Map<Seq<char>, Seq<Seq<char>>>,
) -> bool
    decreases e,
{
    match e {
        ExpV::Num(..) | ExpV::Bool(..) => true,
        ExpV::Var(x, _) => env.contains(x),
        ExpV::Prim(_, es, _) => forall|i: int|
            0 <= i < es.len() ==> lift_scoped(#[trigger] es[i], env, fenv),
        ExpV::Let { bindings, body, .. } => {
            &&& forall|i: int|
                0 <= i < bindings.len() ==> lift_scoped(
                    (#[trigger] bindings[i]).1,
                    env_extend(env, binding_names(bindings), i),
                    fenv,
                )
            &&& lift_scoped(
                *body,
                env_extend(env, binding_names(bindings), bindings.len() as int),
                fenv,
            )
        },
        ExpV::If { cond, thn, els, .. } => {
            &&& lift_scoped(*cond, env, fenv)
            &&& lift_scoped(*thn, env, fenv)
            &&& lift_scoped(*els, env, fenv)
        },
        ExpV::FunDefs { decls, body, .. } => {
            &&& forall|i: int|
                0 <= i < decls.len() ==> lift_scoped(
                    (#[trigger] decls[i]).body,
                    env_extend(env, decls[i].parameters, decls[i].parameters.len() as int),
                    with_lifted_group(fenv, decls, env, decls.len() as int),
                )
            &&& lift_scoped(*body, env, with_lifted_group(fenv, decls, env, decls.len() as int))
        },
        ExpV::Call(f, args, _) => {
            &&& fenv.contains_key(f)
            &&& fenv[f].len() >= args.len()
            &&& forall|k: int| 0 <= k < fenv[f].len() - args.len() ==> env.contains(#[trigger] fenv[f][k])
            &&& forall|i: int| 0 <= i < args.len() ==> lift_scoped(#[trigger] args[i], env, fenv)
        },
        ExpV::InternalTailCall(..) | ExpV::ExternalCall { .. } => false,
    }
}

/// Whether the whole program `p` can be lifted: it is scoped with nothing around it,
/// and declares no function name twice.
pub open spec fn lift_ready<A>(p: ExpV<A>) -> bool {
    &&& lift_scoped(p, Seq::empty(), Map::empty())
    &&& declared(p).no_duplicates()
}

/// Whether `e`, as the first pass of lifting leaves it, is in order where the
/// variables `vars` are in scope and `table` gives the parameters of every function:
/// every variable is in scope, and in the body of a function that is still declared
/// the parameters of the function alone; every call is classified, names a function of
/// `table`, gives it no more arguments than it has parameters, and stands where the
/// parameters that the call does not give are variables in scope; and every function
/// that is still declared has the parameters that `table` gives it. Where `strict`
/// holds, every primitive operation also has as many operands as it takes.
pub open spec fn resolved_in(
    e: ExpV<()>,
    vars: Set<Seq<char>>,
    table: Map<Seq<char>, Seq<Seq<char>>>,
    strict: bool,
) -> bool
    decreases e,
{
    match e {
        ExpV::Num(..) | ExpV::Bool(..) => true,
        ExpV::Var(x, _) => vars.contains(x),
        ExpV::Prim(p, es, _) => {
            &&& strict ==> es.len() == p.arity()
            &&& forall|i: int| 0 <= i < es.len() ==> resolved_in(#[trigger] es[i], vars, table, strict)
        },
        ExpV::Let { bindings, body, .. } => {
            &&& forall|i: int|
                0 <= i < bindings.len() ==> resolved_in(
                    (#[trigger] bindings[i]).1,
                    vars.union(binding_names(bindings).take(i).to_set()),
                    table,
                    strict,
                )
            &&& resolved_in(*body, vars.union(binding_names(bindings).to_set()), table, strict)
        },
        ExpV::If { cond, thn, els, .. } => {
            &&& resolved_in(*cond, vars, table, strict)
            &&& resolved_in(*thn, vars, table, strict)
            &&& resolved_in(*els, vars, table, strict)
        },
        ExpV::FunDefs { decls, body, .. } => {
            &&& forall|i: int|
                0 <= i < decls.len() ==> table.contains_key((#[trigger] decls[i]).name)
                    && table[decls[i].name] == decls[i].parameters
            &&& forall|i: int|
                0 <= i < decls.len() ==> resolved_in(
                    (#[trigger] decls[i]).body,
                    decls[i].parameters.to_set(),
                    table,
                    strict,
                )
            &&& resolved_in(*body, vars, table, strict)
        },
        ExpV::Call(..) => false,
        ExpV::InternalTailCall(f, args, _) => {
            &&& table.contains_key(f)
            &&& table[f].len() >= args.len()
            &&& forall|k: int|
                0 <= k < table[f].len() - args.len() ==> vars.contains(#[trigger] table[f][k])
            &&& forall|i: int| 0 <= i < args.len() ==> resolved_in(#[trigger] args[i], vars, table, strict)
        },
        ExpV::ExternalCall { fun_name, args, .. } => {
            &&& table.contains_key(fun_name)
            &&& table[fun_name].len() >= args.len()
            &&& forall|k: int|
                0 <= k < table[fun_name].len() - args.len() ==> vars.contains(
                    #[trigger] table[fun_name][k],
                )
            &&& forall|i: int| 0 <= i < args.len() ==> resolved_in(#[trigger] args[i], vars, table, strict)
        },
    }
}

/// Whether `e` is a lifted expression that is closed where the variables `vars` are
/// in scope: every variable it reads is in scope where it is read, the body of a
/// function reads its parameters alone, every call is classified, and every primitive
/// operation has as many operands as it takes.
pub open spec fn lifted_ok<A>(e: ExpV<A>, vars: Set<Seq<char>>) -> bool
    decreases e,
{
    match e {
        ExpV::Num(..) | ExpV::Bool(..) => true,
        ExpV::Var(x, _) => vars.contains(x),
        ExpV::Prim(p, es, _) => {
            &&& es.len() == p.arity()
            &&& forall|i: int| 0 <= i < es.len() ==> lifted_ok(#[trigger] es[i], vars)
        },
        ExpV::Let { bindings, body, .. } => {
            &&& forall|i: int|
                0 <= i < bindings.len() ==> lifted_ok(
                    (#[trigger] bindings[i]).1,
                    vars.union(binding_names(bindings).take(i).to_set()),
                )
            &&& lifted_ok(*body, vars.union(binding_names(bindings).to_set()))
        },
        ExpV::If { cond, thn, els, .. } => {
            &&& lifted_ok(*cond, vars)
            &&& lifted_ok(*thn, vars)
            &&& lifted_ok(*els, vars)
        },
        ExpV::FunDefs { decls, body, .. } => {
            &&& forall|i: int|
                0 <= i < decls.len() ==> lifted_ok(
                    (#[trigger] decls[i]).body,
                    decls[i].parameters.to_set(),
                )
            &&& lifted_ok(*body, vars)
        },
        ExpV::Call(..) => false,
        ExpV::InternalTailCall(_, args, _) => forall|i: int|
            0 <= i < args.len() ==> lifted_ok(#[trigger] args[i], vars),
        ExpV::ExternalCall { args, .. } => forall|i: int|
            0 <= i < args.len() ==> lifted_ok(#[trigger] args[i], vars),
    }
}

/// Whether a lifted program is closed: its main expression with no variable in
/// scope, and the body of each function with the parameters of the function in scope.
pub open spec fn lifted_prog_ok<A>(funs: Seq<FunDeclV<ExpV<A>, A>>, main: ExpV<A>) -> bool {
    &&& lifted_ok(main, Set::empty())
    &&& forall|k: int|
        0 <= k < funs.len() ==> lifted_ok((#[trigger] funs[k]).body, funs[k].parameters.to_set())
}
} // verus!
