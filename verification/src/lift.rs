//! Lambda lifting: the rewrite that moves the chosen functions to the top level, hands
//! every function the variables in scope at its declaration, and classifies each
//! call as internal or external.

use vstd::prelude::*;
use crate::classify::{lift_set, should_lift};
use crate::lift_proofs::lemma_ready_is_liftable;
use crate::lists::{concat_all, concat_upto, firsts, seconds};
use crate::names::{
    clone_names, contains_name, env_extend, insert_name, insert_names, name_set, names_of,
};
use crate::scope::lift_ready;
use crate::syntax::{
    Exp, ExpV, FunDecl, FunDeclV, binding_names, bindings_view, boxed_exps_view, decls_view,
    exp_view, exps_view, lemma_bindings_view_push, lemma_boxed_exps_view_push, lemma_decls_view_add,
    lemma_decls_view_push, lemma_exps_view_push,
};

verus! {

/// Among the first `n` declarations of `ds`, those whose name is in `lifted` (where
/// `want` holds) or is not (where it does not), in order.
pub open spec fn keep_decls<E, A>(
    ds: Seq<FunDeclV<E, A>>,
    n: int,
    lifted: Set<Seq<char>>,
    want: bool,
) -> Seq<FunDeclV<E, A>>
    decreases n,
{
    if n <= 0 || n > ds.len() {
        Seq::empty()
    } else if lifted.contains(ds[n - 1].name) == want {
        keep_decls(ds, n - 1, lifted, want).push(ds[n - 1])
    } else {
        keep_decls(ds, n - 1, lifted, want)
    }
}

/// What lifting makes of each expression of a list that stands in non-tail position.
pub open spec fn lift_operands<A>(
    es: Seq<ExpV<A>>,
    env: Seq<Seq<char>>,
    lifted: Set<Seq<char>>,
) -> Seq<(Seq<FunDeclV<ExpV<()>, ()>>, ExpV<()>)>
    decreases es,
{
    Seq::new(
        es.len(),
        |i: int|
            if 0 <= i < es.len() {
                lift_exp(es[i], env, lifted, false)
            } else {
                arbitrary()
            },
    )
}

/// What lifting makes of each bound expression of a `Let`: binding `i` sees `env` and
/// the names bound before it.
pub open spec fn lift_bindings<A>(
    bs: Seq<(Seq<char>, ExpV<A>)>,
    env: Seq<Seq<char>>,
    lifted: Set<Seq<char>>,
) -> Seq<(Seq<FunDeclV<ExpV<()>, ()>>, ExpV<()>)>
    decreases bs,
{
    Seq::new(
        bs.len(),
        |i: int|
            if 0 <= i < bs.len() {
                lift_exp(bs[i].1, env_extend(env, binding_names(bs), i), lifted, false)
            } else {
                arbitrary()
            },
    )
}

/// What lifting makes of each declaration of a group: the declarations found inside
/// its body, and the declaration itself, which takes the variables of `env` in front
/// of its own parameters.
pub open spec fn lift_decls<A>(
    ds: Seq<FunDeclV<ExpV<A>, A>>,
    env: Seq<Seq<char>>,
    lifted: Set<Seq<char>>,
) -> Seq<(Seq<FunDeclV<ExpV<()>, ()>>, FunDeclV<ExpV<()>, ()>)>
    decreases ds,
{
    Seq::new(
        ds.len(),
        |i: int|
            if 0 <= i < ds.len() {
                let inner = lift_exp(
                    ds[i].body,
                    env_extend(env, ds[i].parameters, ds[i].parameters.len() as int),
                    lifted,
                    true,
                );
                (
                    inner.0,
                    FunDeclV {
                        name: ds[i].name,
                        parameters: env + ds[i].parameters,
                        body: inner.1,
                        ann: (),
                    },
                )
            } else {
                arbitrary()
            },
    )
}

/// Each lifted declaration of a group, followed by the declarations found inside it.
pub open spec fn decl_parts(
    rs: Seq<(Seq<FunDeclV<ExpV<()>, ()>>, FunDeclV<ExpV<()>, ()>)>,
) -> Seq<Seq<FunDeclV<ExpV<()>, ()>>> {
    Seq::new(rs.len(), |i: int| seq![rs[i].1] + rs[i].0)
}

/// The bindings of a `Let` with their bound expressions replaced by the lifted ones.
pub open spec fn rebind<A>(
    bs: Seq<(Seq<char>, ExpV<A>)>,
    rs: Seq<(Seq<FunDeclV<ExpV<()>, ()>>, ExpV<()>)>,
) -> Seq<(Seq<char>, ExpV<()>)> {
    Seq::new(bs.len(), |i: int| (bs[i].0, rs[i].1))
}

/// The first pass of lifting on `e`, where `env` holds the variables in scope, in the
/// order in which they were bound, and `is_tail` says whether `e` stands in tail
/// position. The result is every declaration found in `e`, each with the variables in
/// scope at its declaration in front of its parameters, and `e` itself with each call
/// classified and with only those declarations left in place that are not in `lifted`.
pub open spec fn lift_exp<A>(
    e: ExpV<A>,
    env: Seq<Seq<char>>,
    lifted: Set<Seq<char>>,
    is_tail: bool,
) -> (Seq<FunDeclV<ExpV<()>, ()>>, ExpV<()>)
    decreases e,
{
    match e {
        ExpV::Num(n, _) => (Seq::empty(), ExpV::Num(n, ())),
        ExpV::Bool(b, _) => (Seq::empty(), ExpV::Bool(b, ())),
        ExpV::Var(x, _) => (Seq::empty(), ExpV::Var(x, ())),
        ExpV::Prim(p, es, _) => {
            let rs = lift_operands(es, env, lifted);
            (concat_all(firsts(rs)), ExpV::Prim(p, seconds(rs), ()))
        },
        ExpV::Let { bindings, body, .. } => {
            let rs = lift_bindings(bindings, env, lifted);
            let b = lift_exp(
                *body,
                env_extend(env, binding_names(bindings), bindings.len() as int),
                lifted,
                is_tail,
            );
            (
                concat_all(firsts(rs)) + b.0,
                ExpV::Let { bindings: rebind(bindings, rs), body: Box::new(b.1), ann: () },
            )
        },
        ExpV::If { cond, thn, els, .. } => {
            let c = lift_exp(*cond, env, lifted, false);
            let t = lift_exp(*thn, env, lifted, is_tail);
            let f = lift_exp(*els, env, lifted, is_tail);
            (
                c.0 + t.0 + f.0,
                ExpV::If { cond: Box::new(c.1), thn: Box::new(t.1), els: Box::new(f.1), ann: () },
            )
        },
        ExpV::FunDefs { decls, body, .. } => {
            let rs = lift_decls(decls, env, lifted);
            let b = lift_exp(*body, env, lifted, is_tail);
            let kept = keep_decls(seconds(rs), rs.len() as int, lifted, false);
            (
                concat_all(decl_parts(rs)) + b.0,
                if kept.len() > 0 {
                    ExpV::FunDefs { decls: kept, body: Box::new(b.1), ann: () }
                } else {
                    b.1
                },
            )
        },
        ExpV::Call(f, args, _) => {
            let rs = lift_operands(args, env, lifted);
            (
                concat_all(firsts(rs)),
                if lifted.contains(f) {
                    ExpV::ExternalCall { fun_name: f, args: seconds(rs), is_tail: is_tail, ann: () }
                } else {
                    ExpV::InternalTailCall(f, seconds(rs), ())
                },
            )
        },
        ExpV::InternalTailCall(..) | ExpV::ExternalCall { .. } => (
            Seq::empty(),
            ExpV::Bool(false, ()),
        ),
    }
}

/// A copy of an expression.
#[verifier::loop_isolation(false)]
pub fn copy_exp(e: &Exp<()>) -> (r: Exp<()>)
    ensures
        r@ == e@,
    decreases e,
{
    proof {
        reveal_with_fuel(exp_view, 2);
    }
    match e {
        Exp::Num(n, _) => Exp::Num(*n, ()),
        Exp::Bool(b, _) => Exp::Bool(*b, ()),
        Exp::Var(x, _) => Exp::Var(x.clone(), ()),
        Exp::Prim(p, es, _) => {
            let mut out: Vec<Box<Exp<()>>> = Vec::new();
            let mut i: usize = 0;
            while i < es.len()
                invariant
                    i <= es.len(),
                    boxed_exps_view(out@) == boxed_exps_view(es@).take(i as int),
                decreases es.len() - i,
            {
                let c = Box::new(copy_exp(&es[i]));
                proof {
                    lemma_boxed_exps_view_push(out@, c);
                    assert(boxed_exps_view(es@).take(i + 1) =~= boxed_exps_view(es@).take(
                        i as int,
                    ).push(es[i as int]@));
                }
                out.push(c);
                i += 1;
            }
            assert(boxed_exps_view(es@).take(es.len() as int) =~= boxed_exps_view(es@));
            Exp::Prim(*p, out, ())
        },
        Exp::Let { bindings, body, .. } => {
            let mut out: Vec<(String, Exp<()>)> = Vec::new();
            let mut i: usize = 0;
            while i < bindings.len()
                invariant
                    i <= bindings.len(),
                    bindings_view(out@) == bindings_view(bindings@).take(i as int),
                decreases bindings.len() - i,
            {
                let c = (bindings[i].0.clone(), copy_exp(&bindings[i].1));
                proof {
                    lemma_bindings_view_push(out@, c);
                    assert(bindings_view(bindings@).take(i + 1) =~= bindings_view(bindings@).take(
                        i as int,
                    ).push((bindings[i as int].0@, bindings[i as int].1@)));
                }
                out.push(c);
                i += 1;
            }
            assert(bindings_view(bindings@).take(bindings.len() as int) =~= bindings_view(
                bindings@,
            ));
            Exp::Let { bindings: out, body: Box::new(copy_exp(body)), ann: () }
        },
        Exp::If { cond, thn, els, .. } => Exp::If {
            cond: Box::new(copy_exp(cond)),
            thn: Box::new(copy_exp(thn)),
            els: Box::new(copy_exp(els)),
            ann: (),
        },
        Exp::FunDefs { decls, body, .. } => {
            let mut out: Vec<FunDecl<Exp<()>, ()>> = Vec::new();
            let mut i: usize = 0;
            while i < decls.len()
                invariant
                    i <= decls.len(),
                    decls_view(out@) == decls_view(decls@).take(i as int),
                decreases decls.len() - i,
            {
                let c = FunDecl {
                    name: decls[i].name.clone(),
                    parameters: clone_names(&decls[i].parameters),
                    body: copy_exp(&decls[i].body),
                    ann: (),
                };
                proof {
                    lemma_decls_view_push(out@, c);
                    assert(decls_view(decls@).take(i + 1) =~= decls_view(decls@).take(
                        i as int,
                    ).push(decls[i as int]@));
                }
                out.push(c);
                i += 1;
            }
            assert(decls_view(decls@).take(decls.len() as int) =~= decls_view(decls@));
            Exp::FunDefs { decls: out, body: Box::new(copy_exp(body)), ann: () }
        },
        Exp::Call(f, args, _) => Exp::Call(f.clone(), copy_exps(args), ()),
        Exp::InternalTailCall(f, args, _) => Exp::InternalTailCall(f.clone(), copy_exps(args), ()),
        Exp::ExternalCall { fun_name, args, is_tail, .. } => Exp::ExternalCall {
            fun_name: fun_name.clone(),
            args: copy_exps(args),
            is_tail: *is_tail,
            ann: (),
        },
    }
}

/// A copy of a list of expressions.
pub fn copy_exps(es: &Vec<Exp<()>>) -> (r: Vec<Exp<()>>)
    ensures
        exps_view(r@) == exps_view(es@),
    decreases es,
{
    let mut out: Vec<Exp<()>> = Vec::new();
    let mut i: usize = 0;
    while i < es.len()
        invariant
            i <= es.len(),
            exps_view(out@) == exps_view(es@).take(i as int),
        decreases es.len() - i,
    {
        let c = copy_exp(&es[i]);
        proof {
            lemma_exps_view_push(out@, c);
            assert(exps_view(es@).take(i + 1) =~= exps_view(es@).take(i as int).push(es[i as int]@));
        }
        out.push(c);
        i += 1;
    }
    assert(exps_view(es@).take(es.len() as int) =~= exps_view(es@));
    out
}

fn lift_pass<A>(e: &Exp<A>, env: &Vec<String>, lifted: &Vec<String>, is_tail: bool) -> (r: (
    Vec<FunDecl<Exp<()>, ()>>,
    Exp<()>,
))
    requires
        e@.is_surface(),
    ensures
        decls_view(r.0@) == lift_exp(e@, names_of(env@), name_set(lifted@), is_tail).0,
        r.1@ == lift_exp(e@, names_of(env@), name_set(lifted@), is_tail).1,
    decreases e,
{
    let mut all: Vec<FunDecl<Exp<()>, ()>> = Vec::new();
    assert(decls_view(all@) =~= Seq::empty());
    match e {
        Exp::Num(n, _) => (all, Exp::Num(*n, ())),
        Exp::Bool(b, _) => (all, Exp::Bool(*b, ())),
        Exp::Var(x, _) => (all, Exp::Var(x.clone(), ())),
        Exp::Prim(p, es, _) => {
            assert(e@->Prim_1 == boxed_exps_view(es@));
            let (ds, out) = lift_boxed(es, env, lifted);
            (ds, Exp::Prim(*p, out, ()))
        },
        Exp::Let { bindings, body, .. } => {
            assert(e@->Let_bindings == bindings_view(bindings@));
            let (mut ds, out, cur) = lift_let(bindings, env, lifted);
            let (mut bd, x) = lift_pass(body, &cur, lifted, is_tail);
            proof {
                lemma_decls_view_add(ds@, bd@);
            }
            ds.append(&mut bd);
            (ds, Exp::Let { bindings: out, body: Box::new(x), ann: () })
        },
        Exp::If { cond, thn, els, .. } => {
            let (mut cd, c) = lift_pass(cond, env, lifted, false);
            let (mut td, t) = lift_pass(thn, env, lifted, is_tail);
            let (mut fd, f) = lift_pass(els, env, lifted, is_tail);
            proof {
                lemma_decls_view_add(cd@, td@);
                lemma_decls_view_add(cd@ + td@, fd@);
            }
            cd.append(&mut td);
            cd.append(&mut fd);
            (cd, Exp::If { cond: Box::new(c), thn: Box::new(t), els: Box::new(f), ann: () })
        },
        Exp::FunDefs { decls, body, .. } => {
            assert(e@->FunDefs_decls == decls_view(decls@));
            let (mut ds, kept) = lift_group(decls, env, lifted);
            let (mut bd, x) = lift_pass(body, env, lifted, is_tail);
            proof {
                lemma_decls_view_add(ds@, bd@);
            }
            ds.append(&mut bd);
            if kept.len() > 0 {
                (ds, Exp::FunDefs { decls: kept, body: Box::new(x), ann: () })
            } else {
                (ds, x)
            }
        },
        Exp::Call(f, args, _) => {
            assert(e@->Call_1 == exps_view(args@));
            let (ds, out) = lift_args(args, env, lifted);
            if contains_name(lifted, f) {
                (ds, Exp::ExternalCall { fun_name: f.clone(), args: out, is_tail: is_tail, ann: () })
            } else {
                (ds, Exp::InternalTailCall(f.clone(), out, ()))
            }
        },
        Exp::InternalTailCall(..) => {
            assert(false);
            (all, Exp::Bool(false, ()))
        },
        Exp::ExternalCall { .. } => {
            assert(false);
            (all, Exp::Bool(false, ()))
        },
    }
}

fn lift_boxed<A>(es: &Vec<Box<Exp<A>>>, env: &Vec<String>, lifted: &Vec<String>) -> (r: (
    Vec<FunDecl<Exp<()>, ()>>,
    Vec<Box<Exp<()>>>,
))
    requires
        forall|i: int|
            0 <= i < boxed_exps_view(es@).len() ==> (#[trigger] boxed_exps_view(
                es@,
            )[i]).is_surface(),
    ensures
        decls_view(r.0@) == concat_all(
            firsts(lift_operands(boxed_exps_view(es@), names_of(env@), name_set(lifted@))),
        ),
        boxed_exps_view(r.1@) == seconds(
            lift_operands(boxed_exps_view(es@), names_of(env@), name_set(lifted@)),
        ),
    decreases es,
{
    let ghost rs = lift_operands(boxed_exps_view(es@), names_of(env@), name_set(lifted@));
    let mut all: Vec<FunDecl<Exp<()>, ()>> = Vec::new();
    let mut out: Vec<Box<Exp<()>>> = Vec::new();
    assert(decls_view(all@) =~= Seq::empty());
    assert(boxed_exps_view(out@) =~= seconds(rs).take(0));
    let mut i: usize = 0;
    while i < es.len()
        invariant
            i <= es.len(),
            rs == lift_operands(boxed_exps_view(es@), names_of(env@), name_set(lifted@)),
            forall|i: int| 0 <= i < es.len() ==> (#[trigger] boxed_exps_view(es@)[i]).is_surface(),
            decls_view(all@) == concat_upto(firsts(rs), i as int),
            boxed_exps_view(out@) == seconds(rs).take(i as int),
        decreases es.len() - i,
    {
        assert(boxed_exps_view(es@)[i as int] == es[i as int]@);
        let (mut ds, x) = lift_pass(&es[i], env, lifted, false);
        let bx = Box::new(x);
        proof {
            lemma_decls_view_add(all@, ds@);
            lemma_boxed_exps_view_push(out@, bx);
            assert(seconds(rs).take(i + 1) =~= seconds(rs).take(i as int).push(rs[i as int].1));
        }
        all.append(&mut ds);
        out.push(bx);
        i += 1;
    }
    assert(seconds(rs).take(es.len() as int) =~= seconds(rs));
    (all, out)
}

fn lift_args<A>(es: &Vec<Exp<A>>, env: &Vec<String>, lifted: &Vec<String>) -> (r: (
    Vec<FunDecl<Exp<()>, ()>>,
    Vec<Exp<()>>,
))
    requires
        forall|i: int|
            0 <= i < exps_view(es@).len() ==> (#[trigger] exps_view(es@)[i]).is_surface(),
    ensures
        decls_view(r.0@) == concat_all(
            firsts(lift_operands(exps_view(es@), names_of(env@), name_set(lifted@))),
        ),
        exps_view(r.1@) == seconds(lift_operands(exps_view(es@), names_of(env@), name_set(lifted@))),
    decreases es,
{
    let ghost rs = lift_operands(exps_view(es@), names_of(env@), name_set(lifted@));
    let mut all: Vec<FunDecl<Exp<()>, ()>> = Vec::new();
    let mut out: Vec<Exp<()>> = Vec::new();
    assert(decls_view(all@) =~= Seq::empty());
    assert(exps_view(out@) =~= seconds(rs).take(0));
    let mut i: usize = 0;
    while i < es.len()
        invariant
            i <= es.len(),
            rs == lift_operands(exps_view(es@), names_of(env@), name_set(lifted@)),
            forall|i: int| 0 <= i < es.len() ==> (#[trigger] exps_view(es@)[i]).is_surface(),
            decls_view(all@) == concat_upto(firsts(rs), i as int),
            exps_view(out@) == seconds(rs).take(i as int),
        decreases es.len() - i,
    {
        assert(exps_view(es@)[i as int] == es[i as int]@);
        let (mut ds, x) = lift_pass(&es[i], env, lifted, false);
        proof {
            lemma_decls_view_add(all@, ds@);
            lemma_exps_view_push(out@, x);
            assert(seconds(rs).take(i + 1) =~= seconds(rs).take(i as int).push(rs[i as int].1));
        }
        all.append(&mut ds);
        out.push(x);
        i += 1;
    }
    assert(seconds(rs).take(es.len() as int) =~= seconds(rs));
    (all, out)
}

fn lift_let<A>(bindings: &Vec<(String, Exp<A>)>, env: &Vec<String>, lifted: &Vec<String>) -> (r:
    (Vec<FunDecl<Exp<()>, ()>>, Vec<(String, Exp<()>)>, Vec<String>))
    requires
        forall|i: int|
            0 <= i < bindings_view(bindings@).len() ==> (#[trigger] bindings_view(
                bindings@,
            )[i]).1.is_surface(),
    ensures
        decls_view(r.0@) == concat_all(
            firsts(lift_bindings(bindings_view(bindings@), names_of(env@), name_set(lifted@))),
        ),
        bindings_view(r.1@) == rebind(
            bindings_view(bindings@),
            lift_bindings(bindings_view(bindings@), names_of(env@), name_set(lifted@)),
        ),
        names_of(r.2@) == env_extend(
            names_of(env@),
            binding_names(bindings_view(bindings@)),
            bindings.len() as int,
        ),
    decreases bindings,
{
    let ghost bs = bindings_view(bindings@);
    let ghost rs = lift_bindings(bs, names_of(env@), name_set(lifted@));
    let mut all: Vec<FunDecl<Exp<()>, ()>> = Vec::new();
    let mut out: Vec<(String, Exp<()>)> = Vec::new();
    let mut cur: Vec<String> = clone_names(env);
    assert(decls_view(all@) =~= Seq::empty());
    assert(bindings_view(out@) =~= rebind(bs, rs).take(0));
    let mut i: usize = 0;
    while i < bindings.len()
        invariant
            i <= bindings.len(),
            bs == bindings_view(bindings@),
            rs == lift_bindings(bs, names_of(env@), name_set(lifted@)),
            forall|i: int| 0 <= i < bindings.len() ==> (#[trigger] bs[i]).1.is_surface(),
            decls_view(all@) == concat_upto(firsts(rs), i as int),
            bindings_view(out@) == rebind(bs, rs).take(i as int),
            names_of(cur@) == env_extend(names_of(env@), binding_names(bs), i as int),
        decreases bindings.len() - i,
    {
        assert(bs[i as int].1 == bindings[i as int].1@);
        assert(bs[i as int].0 == bindings[i as int].0@);
        let (mut ds, x) = lift_pass(&bindings[i].1, &cur, lifted, false);
        let b = (bindings[i].0.clone(), x);
        proof {
            lemma_decls_view_add(all@, ds@);
            lemma_bindings_view_push(out@, b);
            assert(rebind(bs, rs).take(i + 1) =~= rebind(bs, rs).take(i as int).push(
                (bs[i as int].0, rs[i as int].1),
            ));
        }
        all.append(&mut ds);
        out.push(b);
        insert_name(&mut cur, &bindings[i].0);
        i += 1;
    }
    assert(rebind(bs, rs).take(bindings.len() as int) =~= rebind(bs, rs));
    (all, out, cur)
}

fn lift_group<A>(decls: &Vec<FunDecl<Exp<A>, A>>, env: &Vec<String>, lifted: &Vec<String>) -> (r:
    (Vec<FunDecl<Exp<()>, ()>>, Vec<FunDecl<Exp<()>, ()>>))
    requires
        forall|i: int|
            0 <= i < decls_view(decls@).len() ==> (#[trigger] decls_view(
                decls@,
            )[i]).body.is_surface(),
    ensures
        decls_view(r.0@) == concat_all(
            decl_parts(lift_decls(decls_view(decls@), names_of(env@), name_set(lifted@))),
        ),
        decls_view(r.1@) == keep_decls(
            seconds(lift_decls(decls_view(decls@), names_of(env@), name_set(lifted@))),
            decls.len() as int,
            name_set(lifted@),
            false,
        ),
    decreases decls,
{
    let ghost dv = decls_view(decls@);
    let ghost envv = names_of(env@);
    let ghost lset = name_set(lifted@);
    let ghost rs = lift_decls(dv, envv, lset);
    let mut all: Vec<FunDecl<Exp<()>, ()>> = Vec::new();
    let mut kept: Vec<FunDecl<Exp<()>, ()>> = Vec::new();
    assert(decls_view(all@) =~= Seq::empty());
    assert(decls_view(kept@) =~= Seq::empty());
    let mut i: usize = 0;
    while i < decls.len()
        invariant
            i <= decls.len(),
            dv == decls_view(decls@),
            envv == names_of(env@),
            lset == name_set(lifted@),
            rs == lift_decls(dv, envv, lset),
            forall|i: int| 0 <= i < decls.len() ==> (#[trigger] dv[i]).body.is_surface(),
            decls_view(all@) == concat_upto(decl_parts(rs), i as int),
            decls_view(kept@) == keep_decls(seconds(rs), i as int, lset, false),
        decreases decls.len() - i,
    {
        let d = &decls[i];
        assert(dv[i as int].body == d.body@);
        assert(dv[i as int].name == d.name@);
        assert(dv[i as int].parameters == names_of(d.parameters@));
        let mut inner_env: Vec<String> = clone_names(env);
        insert_names(&mut inner_env, &d.parameters);
        let (mut inside, body_i) = lift_pass(&d.body, &inner_env, lifted, true);
        let mut params: Vec<String> = clone_names(env);
        let mut own: Vec<String> = clone_names(&d.parameters);
        params.append(&mut own);
        assert(names_of(params@) =~= envv + names_of(d.parameters@));
        if !contains_name(lifted, &d.name) {
            let c = FunDecl {
                name: d.name.clone(),
                parameters: clone_names(&params),
                body: copy_exp(&body_i),
                ann: (),
            };
            proof {
                lemma_decls_view_push(kept@, c);
            }
            kept.push(c);
        }
        let nd = FunDecl { name: d.name.clone(), parameters: params, body: body_i, ann: () };
        proof {
            assert(nd@ == rs[i as int].1);
            lemma_decls_view_push(all@, nd);
            lemma_decls_view_add(all@.push(nd), inside@);
            assert(decls_view(all@).push(nd@) + decls_view(inside@) =~= decls_view(all@) + (
            seq![rs[i as int].1] + rs[i as int].0));
        }
        all.push(nd);
        all.append(&mut inside);
        i += 1;
    }
    (all, kept)
}

/// The parameters that the first `n` declarations of `ds` give to each name; where a
/// name is declared more than once, the last declaration counts.
pub open spec fn param_table<E, A>(ds: Seq<FunDeclV<E, A>>, n: int) -> Map<Seq<char>, Seq<Seq<char>>>
    decreases n,
{
    if n <= 0 || n > ds.len() {
        Map::empty()
    } else {
        param_table(ds, n - 1).insert(ds[n - 1].name, ds[n - 1].parameters)
    }
}

/// The arguments that a call of `f` with `given` arguments of its own lacks: the
/// leading parameters of `f`, as variables.
pub open spec fn captured_args(
    table: Map<Seq<char>, Seq<Seq<char>>>,
    f: Seq<char>,
    given: nat,
) -> Seq<ExpV<()>> {
    Seq::new((table[f].len() - given) as nat, |i: int| ExpV::Var(table[f][i], ()))
}

/// Each expression of a list with its calls completed.
pub open spec fn extend_all(es: Seq<ExpV<()>>, table: Map<Seq<char>, Seq<Seq<char>>>) -> Seq<
    ExpV<()>,
>
    decreases es,
{
    Seq::new(
        es.len(),
        |i: int|
            if 0 <= i < es.len() {
                extend_calls(es[i], table)
            } else {
                arbitrary()
            },
    )
}

/// Each binding of a `Let` with the calls in its bound expression completed.
pub open spec fn extend_bindings(
    bs: Seq<(Seq<char>, ExpV<()>)>,
    table: Map<Seq<char>, Seq<Seq<char>>>,
) -> Seq<(Seq<char>, ExpV<()>)>
    decreases bs,
{
    Seq::new(
        bs.len(),
        |i: int|
            if 0 <= i < bs.len() {
                (bs[i].0, extend_calls(bs[i].1, table))
            } else {
                arbitrary()
            },
    )
}

/// Each declaration with the calls in its body completed.
pub open spec fn extend_decls(
    ds: Seq<FunDeclV<ExpV<()>, ()>>,
    table: Map<Seq<char>, Seq<Seq<char>>>,
) -> Seq<FunDeclV<ExpV<()>, ()>>
    decreases ds,
{
    Seq::new(
        ds.len(),
        |i: int|
            if 0 <= i < ds.len() {
                FunDeclV {
                    name: ds[i].name,
                    parameters: ds[i].parameters,
                    body: extend_calls(ds[i].body, table),
                    ann: (),
                }
            } else {
                arbitrary()
            },
    )
}

/// The second pass of lifting: every call gets, in front of its own arguments, the
/// variables that the first pass put in front of the callee's parameters.
pub open spec fn extend_calls(e: ExpV<()>, table: Map<Seq<char>, Seq<Seq<char>>>) -> ExpV<()>
    decreases e,
{
    match e {
        ExpV::Num(..) | ExpV::Bool(..) | ExpV::Var(..) | ExpV::Call(..) => e,
        ExpV::Prim(p, es, _) => ExpV::Prim(p, extend_all(es, table), ()),
        ExpV::Let { bindings, body, .. } => ExpV::Let {
            bindings: extend_bindings(bindings, table),
            body: Box::new(extend_calls(*body, table)),
            ann: (),
        },
        ExpV::If { cond, thn, els, .. } => ExpV::If {
            cond: Box::new(extend_calls(*cond, table)),
            thn: Box::new(extend_calls(*thn, table)),
            els: Box::new(extend_calls(*els, table)),
            ann: (),
        },
        ExpV::FunDefs { decls, body, .. } => ExpV::FunDefs {
            decls: extend_decls(decls, table),
            body: Box::new(extend_calls(*body, table)),
            ann: (),
        },
        ExpV::InternalTailCall(f, args, _) => ExpV::InternalTailCall(
            f,
            captured_args(table, f, args.len()) + extend_all(args, table),
            (),
        ),
        ExpV::ExternalCall { fun_name, args, is_tail, .. } => ExpV::ExternalCall {
            fun_name: fun_name,
            args: captured_args(table, fun_name, args.len()) + extend_all(args, table),
            is_tail: is_tail,
            ann: (),
        },
    }
}

/// Whether every call in `e` is classified and names a function of `table` that has
/// at least as many parameters as the call has arguments.
pub open spec fn calls_resolve(e: ExpV<()>, table: Map<Seq<char>, Seq<Seq<char>>>) -> bool
    decreases e,
{
    match e {
        ExpV::Num(..) | ExpV::Bool(..) | ExpV::Var(..) => true,
        ExpV::Call(..) => false,
        ExpV::Prim(_, es, _) => forall|i: int|
            0 <= i < es.len() ==> calls_resolve(#[trigger] es[i], table),
        ExpV::Let { bindings, body, .. } => {
            &&& forall|i: int|
                0 <= i < bindings.len() ==> calls_resolve((#[trigger] bindings[i]).1, table)
            &&& calls_resolve(*body, table)
        },
        ExpV::If { cond, thn, els, .. } => calls_resolve(*cond, table) && calls_resolve(*thn, table)
            && calls_resolve(*els, table),
        ExpV::FunDefs { decls, body, .. } => {
            &&& forall|i: int|
                0 <= i < decls.len() ==> calls_resolve((#[trigger] decls[i]).body, table)
            &&& calls_resolve(*body, table)
        },
        ExpV::InternalTailCall(f, args, _) => {
            &&& table.contains_key(f)
            &&& table[f].len() >= args.len()
            &&& forall|i: int| 0 <= i < args.len() ==> calls_resolve(#[trigger] args[i], table)
        },
        ExpV::ExternalCall { fun_name, args, .. } => {
            &&& table.contains_key(fun_name)
            &&& table[fun_name].len() >= args.len()
            &&& forall|i: int| 0 <= i < args.len() ==> calls_resolve(#[trigger] args[i], table)
        },
    }
}

/// The first pass of lifting on a whole program: no variable is in scope, and the
/// program stands in tail position.
pub open spec fn first_pass<A>(p: ExpV<A>) -> (Seq<FunDeclV<ExpV<()>, ()>>, ExpV<()>) {
    lift_exp(p, Seq::empty(), lift_set(p), true)
}

/// The parameters of every function of `p` after the first pass.
pub open spec fn first_table<A>(p: ExpV<A>) -> Map<Seq<char>, Seq<Seq<char>>> {
    param_table(first_pass(p).0, first_pass(p).0.len() as int)
}

/// What lifting makes of the program `p`: the functions moved to the top level, and the
/// main expression with the other functions left in place.
pub open spec fn lift_prog<A>(p: ExpV<A>) -> (Seq<FunDeclV<ExpV<()>, ()>>, ExpV<()>) {
    (
        keep_decls(
            extend_decls(first_pass(p).0, first_table(p)),
            first_pass(p).0.len() as int,
            lift_set(p),
            true,
        ),
        extend_calls(first_pass(p).1, first_table(p)),
    )
}

/// Whether every call of `p` finds its function after the first pass, with at least as
/// many parameters as the call has arguments.
pub open spec fn liftable<A>(p: ExpV<A>) -> bool {
    &&& p.is_surface()
    &&& calls_resolve(first_pass(p).1, first_table(p))
    &&& forall|i: int|
        0 <= i < first_pass(p).0.len() ==> calls_resolve(
            (#[trigger] first_pass(p).0[i]).body,
            first_table(p),
        )
}

/// The index in `all` of the last declaration of `f`, if there is one.
fn find_decl(all: &Vec<FunDecl<Exp<()>, ()>>, f: &String) -> (r: Option<usize>)
    ensures
        match r {
            Some(k) => {
                &&& k < all.len()
                &&& param_table(decls_view(all@), all.len() as int).contains_key(f@)
                &&& param_table(decls_view(all@), all.len() as int)[f@] == names_of(
                    all[k as int].parameters@,
                )
            },
            None => !param_table(decls_view(all@), all.len() as int).contains_key(f@),
        },
{
    let ghost ds = decls_view(all@);
    let ghost full = param_table(ds, all.len() as int);
    let mut k: usize = all.len();
    while k > 0
        invariant
            k <= all.len(),
            ds == decls_view(all@),
            full == param_table(ds, all.len() as int),
            full.contains_key(f@) == param_table(ds, k as int).contains_key(f@),
            full.contains_key(f@) ==> full[f@] == param_table(ds, k as int)[f@],
        decreases k,
    {
        k -= 1;
        assert(ds[k as int].name == all[k as int].name@);
        assert(ds[k as int].parameters == names_of(all[k as int].parameters@));
        if all[k].name == *f {
            return Some(k);
        }
    }
    None
}

fn captured_vars(params: &Vec<String>, given: usize) -> (r: Vec<Exp<()>>)
    requires
        given <= params.len(),
    ensures
        exps_view(r@) == Seq::new(
            (params.len() - given) as nat,
            |i: int| ExpV::Var(names_of(params@)[i], ()),
        ),
{
    let n: usize = params.len() - given;
    let mut out: Vec<Exp<()>> = Vec::new();
    let mut i: usize = 0;
    while i < n
        invariant
            i <= n,
            n == params.len() - given,
            exps_view(out@) == Seq::new(i as nat, |j: int| ExpV::Var(names_of(params@)[j], ())),
        decreases n - i,
    {
        let v = Exp::Var(params[i].clone(), ());
        proof {
            lemma_exps_view_push(out@, v);
            assert(exps_view(out@).push(v@) =~= Seq::new(
                (i + 1) as nat,
                |j: int| ExpV::Var(names_of(params@)[j], ()),
            ));
        }
        out.push(v);
        i += 1;
    }
    out
}

fn complete_exp(e: &Exp<()>, all: &Vec<FunDecl<Exp<()>, ()>>) -> (r: Exp<()>)
    requires
        calls_resolve(e@, param_table(decls_view(all@), all.len() as int)),
    ensures
        r@ == extend_calls(e@, param_table(decls_view(all@), all.len() as int)),
    decreases e,
{
    let ghost table = param_table(decls_view(all@), all.len() as int);
    match e {
        Exp::Num(n, _) => Exp::Num(*n, ()),
        Exp::Bool(b, _) => Exp::Bool(*b, ()),
        Exp::Var(x, _) => Exp::Var(x.clone(), ()),
        Exp::Prim(p, es, _) => {
            assert(e@->Prim_1 == boxed_exps_view(es@));
            Exp::Prim(*p, complete_boxed(es, all), ())
        },
        Exp::Let { bindings, body, .. } => {
            assert(e@->Let_bindings == bindings_view(bindings@));
            let out = complete_bindings(bindings, all);
            Exp::Let { bindings: out, body: Box::new(complete_exp(body, all)), ann: () }
        },
        Exp::If { cond, thn, els, .. } => Exp::If {
            cond: Box::new(complete_exp(cond, all)),
            thn: Box::new(complete_exp(thn, all)),
            els: Box::new(complete_exp(els, all)),
            ann: (),
        },
        Exp::FunDefs { decls, body, .. } => {
            assert(e@->FunDefs_decls == decls_view(decls@));
            let out = complete_decls(decls, all);
            Exp::FunDefs { decls: out, body: Box::new(complete_exp(body, all)), ann: () }
        },
        Exp::Call(..) => {
            assert(false);
            Exp::Bool(false, ())
        },
        Exp::InternalTailCall(f, args, _) => {
            assert(e@->InternalTailCall_1 == exps_view(args@));
            let out = complete_call(f, args, all);
            Exp::InternalTailCall(f.clone(), out, ())
        },
        Exp::ExternalCall { fun_name, args, is_tail, .. } => {
            assert(e@->ExternalCall_args == exps_view(args@));
            let out = complete_call(fun_name, args, all);
            Exp::ExternalCall { fun_name: fun_name.clone(), args: out, is_tail: *is_tail, ann: () }
        },
    }
}

fn complete_call(f: &String, args: &Vec<Exp<()>>, all: &Vec<FunDecl<Exp<()>, ()>>) -> (r: Vec<
    Exp<()>,
>)
    requires
        param_table(decls_view(all@), all.len() as int).contains_key(f@),
        param_table(decls_view(all@), all.len() as int)[f@].len() >= exps_view(args@).len(),
        forall|i: int|
            0 <= i < exps_view(args@).len() ==> calls_resolve(
                #[trigger] exps_view(args@)[i],
                param_table(decls_view(all@), all.len() as int),
            ),
    ensures
        exps_view(r@) == captured_args(
            param_table(decls_view(all@), all.len() as int),
            f@,
            exps_view(args@).len(),
        ) + extend_all(exps_view(args@), param_table(decls_view(all@), all.len() as int)),
    decreases args,
{
    let ghost table = param_table(decls_view(all@), all.len() as int);
    let found = find_decl(all, f);
    let k: usize = found.unwrap();
    let mut out: Vec<Exp<()>> = captured_vars(&all[k].parameters, args.len());
    assert(exps_view(out@) =~= captured_args(table, f@, exps_view(args@).len()));
    let ghost head = exps_view(out@);
    let ghost tail = extend_all(exps_view(args@), table);
    assert(exps_view(out@) =~= head + tail.take(0));
    let mut i: usize = 0;
    while i < args.len()
        invariant
            i <= args.len(),
            table == param_table(decls_view(all@), all.len() as int),
            tail == extend_all(exps_view(args@), table),
            forall|i: int|
                0 <= i < exps_view(args@).len() ==> calls_resolve(
                    #[trigger] exps_view(args@)[i],
                    table,
                ),
            exps_view(out@) == head + tail.take(i as int),
        decreases args.len() - i,
    {
        assert(exps_view(args@)[i as int] == args[i as int]@);
        let x = complete_exp(&args[i], all);
        proof {
            lemma_exps_view_push(out@, x);
            assert((head + tail.take(i as int)).push(x@) =~= head + tail.take(i + 1));
        }
        out.push(x);
        i += 1;
    }
    assert(tail.take(args.len() as int) =~= tail);
    out
}

fn complete_boxed(es: &Vec<Box<Exp<()>>>, all: &Vec<FunDecl<Exp<()>, ()>>) -> (r: Vec<
    Box<Exp<()>>,
>)
    requires
        forall|i: int|
            0 <= i < boxed_exps_view(es@).len() ==> calls_resolve(
                #[trigger] boxed_exps_view(es@)[i],
                param_table(decls_view(all@), all.len() as int),
            ),
    ensures
        boxed_exps_view(r@) == extend_all(
            boxed_exps_view(es@),
            param_table(decls_view(all@), all.len() as int),
        ),
    decreases es,
{
    let ghost table = param_table(decls_view(all@), all.len() as int);
    let ghost goal = extend_all(boxed_exps_view(es@), table);
    let mut out: Vec<Box<Exp<()>>> = Vec::new();
    assert(boxed_exps_view(out@) =~= goal.take(0));
    let mut i: usize = 0;
    while i < es.len()
        invariant
            i <= es.len(),
            table == param_table(decls_view(all@), all.len() as int),
            goal == extend_all(boxed_exps_view(es@), table),
            forall|i: int|
                0 <= i < boxed_exps_view(es@).len() ==> calls_resolve(
                    #[trigger] boxed_exps_view(es@)[i],
                    table,
                ),
            boxed_exps_view(out@) == goal.take(i as int),
        decreases es.len() - i,
    {
        assert(boxed_exps_view(es@)[i as int] == es[i as int]@);
        let x = Box::new(complete_exp(&es[i], all));
        proof {
            lemma_boxed_exps_view_push(out@, x);
            assert(goal.take(i as int).push((*x)@) =~= goal.take(i + 1));
        }
        out.push(x);
        i += 1;
    }
    assert(goal.take(es.len() as int) =~= goal);
    out
}

fn complete_bindings(bs: &Vec<(String, Exp<()>)>, all: &Vec<FunDecl<Exp<()>, ()>>) -> (r: Vec<
    (String, Exp<()>),
>)
    requires
        forall|i: int|
            0 <= i < bindings_view(bs@).len() ==> calls_resolve(
                (#[trigger] bindings_view(bs@)[i]).1,
                param_table(decls_view(all@), all.len() as int),
            ),
    ensures
        bindings_view(r@) == extend_bindings(
            bindings_view(bs@),
            param_table(decls_view(all@), all.len() as int),
        ),
    decreases bs,
{
    let ghost table = param_table(decls_view(all@), all.len() as int);
    let ghost goal = extend_bindings(bindings_view(bs@), table);
    let mut out: Vec<(String, Exp<()>)> = Vec::new();
    assert(bindings_view(out@) =~= goal.take(0));
    let mut i: usize = 0;
    while i < bs.len()
        invariant
            i <= bs.len(),
            table == param_table(decls_view(all@), all.len() as int),
            goal == extend_bindings(bindings_view(bs@), table),
            forall|i: int|
                0 <= i < bindings_view(bs@).len() ==> calls_resolve(
                    (#[trigger] bindings_view(bs@)[i]).1,
                    table,
                ),
            bindings_view(out@) == goal.take(i as int),
        decreases bs.len() - i,
    {
        assert(bindings_view(bs@)[i as int].1 == bs[i as int].1@);
        assert(bindings_view(bs@)[i as int].0 == bs[i as int].0@);
        let x = (bs[i].0.clone(), complete_exp(&bs[i].1, all));
        proof {
            lemma_bindings_view_push(out@, x);
            assert(goal.take(i as int).push((x.0@, x.1@)) =~= goal.take(i + 1));
        }
        out.push(x);
        i += 1;
    }
    assert(goal.take(bs.len() as int) =~= goal);
    out
}

fn complete_decls(ds: &Vec<FunDecl<Exp<()>, ()>>, all: &Vec<FunDecl<Exp<()>, ()>>) -> (r: Vec<
    FunDecl<Exp<()>, ()>,
>)
    requires
        forall|i: int|
            0 <= i < decls_view(ds@).len() ==> calls_resolve(
                (#[trigger] decls_view(ds@)[i]).body,
                param_table(decls_view(all@), all.len() as int),
            ),
    ensures
        decls_view(r@) == extend_decls(
            decls_view(ds@),
            param_table(decls_view(all@), all.len() as int),
        ),
    decreases ds,
{
    let ghost table = param_table(decls_view(all@), all.len() as int);
    let ghost goal = extend_decls(decls_view(ds@), table);
    let mut out: Vec<FunDecl<Exp<()>, ()>> = Vec::new();
    assert(decls_view(out@) =~= goal.take(0));
    let mut i: usize = 0;
    while i < ds.len()
        invariant
            i <= ds.len(),
            table == param_table(decls_view(all@), all.len() as int),
            goal == extend_decls(decls_view(ds@), table),
            forall|i: int|
                0 <= i < decls_view(ds@).len() ==> calls_resolve(
                    (#[trigger] decls_view(ds@)[i]).body,
                    table,
                ),
            decls_view(out@) == goal.take(i as int),
        decreases ds.len() - i,
    {
        assert(decls_view(ds@)[i as int].body == ds[i as int].body@);
        assert(decls_view(ds@)[i as int].name == ds[i as int].name@);
        assert(decls_view(ds@)[i as int].parameters == names_of(ds[i as int].parameters@));
        let x = FunDecl {
            name: ds[i].name.clone(),
            parameters: clone_names(&ds[i].parameters),
            body: complete_exp(&ds[i].body, all),
            ann: (),
        };
        proof {
            lemma_decls_view_push(out@, x);
            assert(goal.take(i as int).push(x@) =~= goal.take(i + 1));
        }
        out.push(x);
        i += 1;
    }
    assert(goal.take(ds.len() as int) =~= goal);
    out
}

/// Lifts the functions of `p` that have to be lifted: returns the top-level functions
/// and the main expression.
pub fn lambda_lift<A>(p: &Exp<A>) -> (r: (Vec<FunDecl<Exp<()>, ()>>, Exp<()>))
    requires
        lift_ready(p@),
    ensures
        decls_view(r.0@) == lift_prog(p@).0,
        r.1@ == lift_prog(p@).1,
{
    proof {
        lemma_ready_is_liftable(p@);
    }
    let lifted: Vec<String> = should_lift(p);
    let env: Vec<String> = Vec::new();
    assert(names_of(env@) =~= Seq::<Seq<char>>::empty());
    let (all, main) = lift_pass(p, &env, &lifted, true);
    let ghost ds = decls_view(all@);
    let ghost table = param_table(ds, all.len() as int);
    let ghost goal = extend_decls(ds, table);
    let ghost lset = name_set(lifted@);
    let extended_main: Exp<()> = complete_exp(&main, &all);
    let mut globals: Vec<FunDecl<Exp<()>, ()>> = Vec::new();
    assert(decls_view(globals@) =~= Seq::empty());
    let mut i: usize = 0;
    while i < all.len()
        invariant
            i <= all.len(),
            ds == decls_view(all@),
            table == param_table(ds, all.len() as int),
            goal == extend_decls(ds, table),
            lset == name_set(lifted@),
            forall|i: int| 0 <= i < ds.len() ==> calls_resolve((#[trigger] ds[i]).body, table),
            decls_view(globals@) == keep_decls(goal, i as int, lset, true),
        decreases all.len() - i,
    {
        assert(ds[i as int].body == all[i as int].body@);
        assert(ds[i as int].name == all[i as int].name@);
        assert(ds[i as int].parameters == names_of(all[i as int].parameters@));
        if contains_name(&lifted, &all[i].name) {
            let g = FunDecl {
                name: all[i].name.clone(),
                parameters: clone_names(&all[i].parameters),
                body: complete_exp(&all[i].body, &all),
                ann: (),
            };
            proof {
                lemma_decls_view_push(globals@, g);
            }
            globals.push(g);
        }
        i += 1;
    }
    (globals, extended_main)
}} // verus!
