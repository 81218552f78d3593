//! What lifting promises of the calls in its result: how they are classified, where
//! they stand, and that what they name is there.

use vstd::prelude::*;
use crate::classify::{binding_calls, decl_calls, lift_set, non_tail_calls, operand_calls};
use crate::lift::{
    captured_args, decl_parts, extend_all, extend_bindings, extend_calls, extend_decls, first_pass,
    first_table, keep_decls, lift_bindings, lift_decls, lift_exp, lift_operands, lift_prog,
    param_table, rebind,
};
use crate::lift_proofs::{
    body_resolved, lemma_every_keep, lemma_first_pass_prog, lemma_lift_names,
    lemma_scoped_is_surface, lemma_table_unique,
};
use crate::lists::{
    concat_all, every, firsts, lemma_add_within, lemma_concat_within, lemma_every_add,
    lemma_every_concat, lemma_part_of, lemma_union_member, seconds, union_all, within,
};
use crate::names::env_extend;
use crate::scope::{
    binding_declared, declared, group_declared, lift_ready, operand_declared, resolved_in,
};
use crate::syntax::{ExpV, FunDeclV, binding_names, group_names};

verus! {

/// Whether the calls of `e` are classified as lifting classifies them, where `e`
/// stands in tail position exactly if `is_tail` holds: no call is left unclassified;
/// an internal tail call stands in tail position and names a function that is not in
/// `lifted`; an external call names a function in `lifted`, and is marked as a tail
/// call only where it stands in tail position.
pub open spec fn classified<A>(e: ExpV<A>, lifted: Set<Seq<char>>, is_tail: bool) -> bool
    decreases e,
{
    match e {
        ExpV::Num(..) | ExpV::Bool(..) | ExpV::Var(..) => true,
        ExpV::Prim(_, es, _) => forall|i: int|
            0 <= i < es.len() ==> classified(#[trigger] es[i], lifted, false),
        ExpV::Let { bindings, body, .. } => {
            &&& forall|i: int|
                0 <= i < bindings.len() ==> classified((#[trigger] bindings[i]).1, lifted, false)
            &&& classified(*body, lifted, is_tail)
        },
        ExpV::If { cond, thn, els, .. } => {
            &&& classified(*cond, lifted, false)
            &&& classified(*thn, lifted, is_tail)
            &&& classified(*els, lifted, is_tail)
        },
        ExpV::FunDefs { decls, body, .. } => {
            &&& forall|i: int|
                0 <= i < decls.len() ==> classified((#[trigger] decls[i]).body, lifted, true)
            &&& classified(*body, lifted, is_tail)
        },
        ExpV::Call(..) => false,
        ExpV::InternalTailCall(f, args, _) => {
            &&& is_tail
            &&& !lifted.contains(f)
            &&& forall|i: int| 0 <= i < args.len() ==> classified(#[trigger] args[i], lifted, false)
        },
        ExpV::ExternalCall { fun_name, args, is_tail: marked, .. } => {
            &&& marked ==> is_tail
            &&& lifted.contains(fun_name)
            &&& forall|i: int| 0 <= i < args.len() ==> classified(#[trigger] args[i], lifted, false)
        },
    }
}

/// Whether the body of a declaration is classified; a body stands in tail position.
pub open spec fn body_classified(lifted: Set<Seq<char>>) -> spec_fn(FunDeclV<ExpV<()>, ()>) -> bool {
    |d: FunDeclV<ExpV<()>, ()>| classified(d.body, lifted, true)
}

/// The first pass of lifting classifies every call, where every function that is
/// called from a non-tail position is in `lifted`.
pub proof fn lemma_first_pass_classified<A>(
    e: ExpV<A>,
    env: Seq<Seq<char>>,
    lifted: Set<Seq<char>>,
    is_tail: bool,
)
    requires
        e.is_surface(),
        non_tail_calls(e, is_tail).subset_of(lifted),
    ensures
        classified(lift_exp(e, env, lifted, is_tail).1, lifted, is_tail),
        every(lift_exp(e, env, lifted, is_tail).0, body_classified(lifted)),
    decreases e, 1nat,
{
    let q = body_classified(lifted);
    match e {
        ExpV::Num(..) | ExpV::Bool(..) | ExpV::Var(..) => {},
        ExpV::Prim(_, es, _) => {
            lemma_operands_classified(es, env, lifted);
        },
        ExpV::Let { bindings, body, .. } => {
            let rs = lift_bindings(bindings, env, lifted);
            let names = binding_names(bindings);
            let sets = binding_calls(bindings);
            let out = rebind(bindings, rs);
            assert forall|i: int| 0 <= i < rs.len() implies classified(
                (#[trigger] out[i]).1,
                lifted,
                false,
            ) by {
                lemma_union_member(sets, sets.len() as int, i);
                lemma_first_pass_classified(bindings[i].1, env_extend(env, names, i), lifted, false);
            }
            assert forall|i: int| 0 <= i < rs.len() implies every(#[trigger] firsts(rs)[i], q) by {
                lemma_union_member(sets, sets.len() as int, i);
                lemma_first_pass_classified(bindings[i].1, env_extend(env, names, i), lifted, false);
            }
            lemma_every_concat(firsts(rs), rs.len() as int, q);
            let inner = env_extend(env, names, bindings.len() as int);
            lemma_first_pass_classified(*body, inner, lifted, is_tail);
            lemma_every_add(concat_all(firsts(rs)), lift_exp(*body, inner, lifted, is_tail).0, q);
        },
        ExpV::If { cond, thn, els, .. } => {
            lemma_first_pass_classified(*cond, env, lifted, false);
            lemma_first_pass_classified(*thn, env, lifted, is_tail);
            lemma_first_pass_classified(*els, env, lifted, is_tail);
            let c = lift_exp(*cond, env, lifted, false);
            let t = lift_exp(*thn, env, lifted, is_tail);
            let f = lift_exp(*els, env, lifted, is_tail);
            lemma_every_add(c.0, t.0, q);
            lemma_every_add(c.0 + t.0, f.0, q);
        },
        ExpV::FunDefs { decls, body, .. } => {
            let rs = lift_decls(decls, env, lifted);
            let parts = decl_parts(rs);
            let sets = decl_calls(decls);
            assert forall|i: int| 0 <= i < rs.len() implies q(#[trigger] rs[i].1) && every(
                rs[i].0,
                q,
            ) by {
                lemma_union_member(sets, sets.len() as int, i);
                lemma_first_pass_classified(
                    decls[i].body,
                    env_extend(env, decls[i].parameters, decls[i].parameters.len() as int),
                    lifted,
                    true,
                );
            }
            assert forall|i: int| 0 <= i < parts.len() implies every(#[trigger] parts[i], q) by {
                assert(q(rs[i].1));
                assert(seq![rs[i].1][0] == rs[i].1);
                assert(every(seq![rs[i].1], q));
                lemma_every_add(seq![rs[i].1], rs[i].0, q);
            }
            lemma_every_concat(parts, rs.len() as int, q);
            lemma_first_pass_classified(*body, env, lifted, is_tail);
            let b = lift_exp(*body, env, lifted, is_tail);
            lemma_every_add(concat_all(parts), b.0, q);
            assert(every(seconds(rs), q)) by {
                assert forall|j: int| 0 <= j < seconds(rs).len() implies q(#[trigger] seconds(rs)[j]) by {
                    assert(q(rs[j].1));
                }
            }
            lemma_every_keep(seconds(rs), rs.len() as int, lifted, false, q);
            let kept = keep_decls(seconds(rs), rs.len() as int, lifted, false);
            if kept.len() > 0 {
                assert forall|j: int| 0 <= j < kept.len() implies classified(
                    (#[trigger] kept[j]).body,
                    lifted,
                    true,
                ) by {
                    assert(q(kept[j]));
                }
            }
        },
        ExpV::Call(f, args, _) => {
            assert(union_all(operand_calls(args)).subset_of(non_tail_calls(e, is_tail)));
            lemma_operands_classified(args, env, lifted);
            if !is_tail {
                assert(non_tail_calls(e, is_tail).contains(f));
            }
            let rs = lift_operands(args, env, lifted);
            let out = seconds(rs);
            assert(forall|i: int| 0 <= i < out.len() ==> classified(#[trigger] out[i], lifted, false));
        },
        ExpV::InternalTailCall(..) | ExpV::ExternalCall { .. } => {},
    }
}

/// The first pass of lifting classifies every call in a list of expressions that
/// stand in non-tail position.
pub proof fn lemma_operands_classified<A>(es: Seq<ExpV<A>>, env: Seq<Seq<char>>, lifted: Set<Seq<char>>)
    requires
        forall|i: int| 0 <= i < es.len() ==> (#[trigger] es[i]).is_surface(),
        union_all(operand_calls(es)).subset_of(lifted),
    ensures
        forall|i: int|
            0 <= i < es.len() ==> classified(
                #[trigger] seconds(lift_operands(es, env, lifted))[i],
                lifted,
                false,
            ),
        every(concat_all(firsts(lift_operands(es, env, lifted))), body_classified(lifted)),
    decreases es,
{
    let q = body_classified(lifted);
    let rs = lift_operands(es, env, lifted);
    let sets = operand_calls(es);
    assert forall|i: int| 0 <= i < es.len() implies classified(
        #[trigger] seconds(rs)[i],
        lifted,
        false,
    ) by {
        lemma_union_member(sets, sets.len() as int, i);
        assert(es[i].is_surface());
        lemma_first_pass_classified(es[i], env, lifted, false);
    }
    assert forall|i: int| 0 <= i < rs.len() implies every(#[trigger] firsts(rs)[i], q) by {
        lemma_union_member(sets, sets.len() as int, i);
        assert(es[i].is_surface());
        lemma_first_pass_classified(es[i], env, lifted, false);
    }
    lemma_every_concat(firsts(rs), rs.len() as int, q);
}

/// The second pass of lifting keeps the classification of every call.
pub proof fn lemma_extend_classified(
    e: ExpV<()>,
    table: Map<Seq<char>, Seq<Seq<char>>>,
    lifted: Set<Seq<char>>,
    is_tail: bool,
)
    requires
        classified(e, lifted, is_tail),
    ensures
        classified(extend_calls(e, table), lifted, is_tail),
    decreases e,
{
    match e {
        ExpV::Num(..) | ExpV::Bool(..) | ExpV::Var(..) | ExpV::Call(..) => {},
        ExpV::Prim(_, es, _) => {
            let out = extend_all(es, table);
            assert forall|i: int| 0 <= i < out.len() implies classified(
                #[trigger] out[i],
                lifted,
                false,
            ) by {
                assert(classified(es[i], lifted, false));
                lemma_extend_classified(es[i], table, lifted, false);
            }
        },
        ExpV::Let { bindings, body, .. } => {
            let out = extend_bindings(bindings, table);
            assert forall|i: int| 0 <= i < out.len() implies classified(
                (#[trigger] out[i]).1,
                lifted,
                false,
            ) by {
                assert(classified(bindings[i].1, lifted, false));
                lemma_extend_classified(bindings[i].1, table, lifted, false);
            }
            lemma_extend_classified(*body, table, lifted, is_tail);
        },
        ExpV::If { cond, thn, els, .. } => {
            lemma_extend_classified(*cond, table, lifted, false);
            lemma_extend_classified(*thn, table, lifted, is_tail);
            lemma_extend_classified(*els, table, lifted, is_tail);
        },
        ExpV::FunDefs { decls, body, .. } => {
            let out = extend_decls(decls, table);
            assert forall|i: int| 0 <= i < out.len() implies classified(
                (#[trigger] out[i]).body,
                lifted,
                true,
            ) by {
                assert(classified(decls[i].body, lifted, true));
                lemma_extend_classified(decls[i].body, table, lifted, true);
            }
            lemma_extend_classified(*body, table, lifted, is_tail);
        },
        ExpV::InternalTailCall(f, args, _) => {
            let full = captured_args(table, f, args.len()) + extend_all(args, table);
            lemma_extended_args_classified(f, args, table, lifted);
            assert(extend_calls(e, table) == ExpV::InternalTailCall(f, full, ()));
            assert(forall|i: int| 0 <= i < full.len() ==> classified(#[trigger] full[i], lifted, false));
        },
        ExpV::ExternalCall { fun_name, args, is_tail: marked, .. } => {
            let full = captured_args(table, fun_name, args.len()) + extend_all(args, table);
            lemma_extended_args_classified(fun_name, args, table, lifted);
            assert(extend_calls(e, table) == ExpV::ExternalCall {
                fun_name: fun_name,
                args: full,
                is_tail: marked,
                ann: (),
            });
            assert(forall|i: int| 0 <= i < full.len() ==> classified(#[trigger] full[i], lifted, false));
        },
    }
}

/// The arguments of a completed call are classified where those of the call were.
pub proof fn lemma_extended_args_classified(
    f: Seq<char>,
    args: Seq<ExpV<()>>,
    table: Map<Seq<char>, Seq<Seq<char>>>,
    lifted: Set<Seq<char>>,
)
    requires
        forall|i: int| 0 <= i < args.len() ==> classified(#[trigger] args[i], lifted, false),
    ensures
        forall|i: int|
            0 <= i < (captured_args(table, f, args.len()) + extend_all(args, table)).len()
                ==> classified(
                #[trigger] (captured_args(table, f, args.len()) + extend_all(args, table))[i],
                lifted,
                false,
            ),
    decreases args,
{
    let head = captured_args(table, f, args.len());
    let tail = extend_all(args, table);
    assert forall|i: int| 0 <= i < (head + tail).len() implies classified(
        #[trigger] (head + tail)[i],
        lifted,
        false,
    ) by {
        if i < head.len() {
            assert((head + tail)[i] == head[i]);
        } else {
            let j = i - head.len();
            assert((head + tail)[i] == tail[j]);
            assert(classified(args[j], lifted, false));
            lemma_extend_classified(args[j], table, lifted, false);
        }
    }
}

/// After lifting, no call is left unclassified, no internal tail call stands in a
/// non-tail position, every internal tail call names a function that was not lifted,
/// and every external call names a function that was.
pub proof fn lemma_lift_classifies<A>(p: ExpV<A>)
    requires
        p.is_surface(),
    ensures
        classified(lift_prog(p).1, lift_set(p), true),
        forall|k: int|
            0 <= k < lift_prog(p).0.len() ==> classified(
                (#[trigger] lift_prog(p).0[k]).body,
                lift_set(p),
                true,
            ),
{
    let lifted = lift_set(p);
    let q = body_classified(lifted);
    let first = first_pass(p);
    let table = first_table(p);
    lemma_first_pass_classified(p, Seq::empty(), lifted, true);
    lemma_extend_classified(first.1, table, lifted, true);
    let all = extend_decls(first.0, table);
    assert forall|i: int| 0 <= i < all.len() implies q(#[trigger] all[i]) by {
        assert(q(first.0[i]));
        lemma_extend_classified(first.0[i].body, table, lifted, true);
    }
    lemma_every_keep(all, all.len() as int, lifted, true, q);
    let funs = lift_prog(p).0;
    assert forall|k: int| 0 <= k < funs.len() implies classified(
        (#[trigger] funs[k]).body,
        lifted,
        true,
    ) by {
        assert(q(funs[k]));
    }
}

/// A declaration among the first `n` of a list is kept where its name is wanted.
pub proof fn lemma_keep_contains<E, A>(
    ds: Seq<FunDeclV<E, A>>,
    n: int,
    lifted: Set<Seq<char>>,
    want: bool,
    i: int,
)
    requires
        0 <= i < n <= ds.len(),
        lifted.contains(ds[i].name) == want,
    ensures
        keep_decls(ds, n, lifted, want).contains(ds[i]),
    decreases n,
{
    let kept = keep_decls(ds, n, lifted, want);
    if i < n - 1 {
        lemma_keep_contains(ds, n - 1, lifted, want, i);
        let before = keep_decls(ds, n - 1, lifted, want);
        let k = choose|k: int| 0 <= k < before.len() && before[k] == ds[i];
        assert(kept[k] == ds[i]);
    } else {
        assert(kept[kept.len() - 1] == ds[i]);
    }
}

/// Whether the function named `x` has a place after lifting: it is in `lifted`, or
/// it is still declared in the expression that declares `labels`, or in the body of
/// a declaration of `ds` that is in `lifted`.
pub open spec fn placed(
    lifted: Set<Seq<char>>,
    labels: Seq<Seq<char>>,
    ds: Seq<FunDeclV<ExpV<()>, ()>>,
) -> spec_fn(Seq<char>) -> bool {
    |x: Seq<char>|
        lifted.contains(x) || labels.contains(x) || exists|d: FunDeclV<ExpV<()>, ()>|
            #[trigger] ds.contains(d) && lifted.contains(d.name) && declared(d.body).contains(x)
}

/// A function that has a place has one where more is declared.
pub proof fn lemma_placed_more(
    lifted: Set<Seq<char>>,
    labels: Seq<Seq<char>>,
    ds: Seq<FunDeclV<ExpV<()>, ()>>,
    labels2: Seq<Seq<char>>,
    ds2: Seq<FunDeclV<ExpV<()>, ()>>,
    names: Seq<Seq<char>>,
)
    requires
        every(names, placed(lifted, labels, ds)),
        within(labels, labels2),
        within(ds, ds2),
    ensures
        every(names, placed(lifted, labels2, ds2)),
{
    assert forall|j: int| 0 <= j < names.len() implies placed(lifted, labels2, ds2)(
        #[trigger] names[j],
    ) by {
        let x = names[j];
        assert(placed(lifted, labels, ds)(x));
        if lifted.contains(x) {
        } else if labels.contains(x) {
            assert(labels2.contains(x));
        } else {
            let d = choose|d: FunDeclV<ExpV<()>, ()>|
                #[trigger] ds.contains(d) && lifted.contains(d.name) && declared(d.body).contains(x);
            assert(ds2.contains(d));
        }
    }
}

/// After the first pass of lifting, every function that the expressions of a list
/// declare has a place.
pub proof fn lemma_operands_placed<A>(es: Seq<ExpV<A>>, env: Seq<Seq<char>>, lifted: Set<Seq<char>>)
    requires
        forall|i: int| 0 <= i < es.len() ==> (#[trigger] es[i]).is_surface(),
    ensures
        every(
            concat_all(operand_declared(es)),
            placed(
                lifted,
                concat_all(operand_declared(seconds(lift_operands(es, env, lifted)))),
                concat_all(firsts(lift_operands(es, env, lifted))),
            ),
        ),
    decreases es,
{
    let rs = lift_operands(es, env, lifted);
    let labels = concat_all(operand_declared(seconds(rs)));
    let ds = concat_all(firsts(rs));
    let q = placed(lifted, labels, ds);
    assert forall|i: int| 0 <= i < es.len() implies every(#[trigger] operand_declared(es)[i], q) by {
        assert(es[i].is_surface());
        lemma_first_pass_placed(es[i], env, lifted, false);
        lemma_concat_within(operand_declared(seconds(rs)), es.len() as int, i);
        lemma_concat_within(firsts(rs), es.len() as int, i);
        lemma_placed_more(lifted, declared(rs[i].1), rs[i].0, labels, ds, declared(es[i]));
    }
    lemma_every_concat(operand_declared(es), es.len() as int, q);
}

/// After the first pass of lifting, every function that an expression declares has
/// a place.
pub proof fn lemma_first_pass_placed<A>(
    e: ExpV<A>,
    env: Seq<Seq<char>>,
    lifted: Set<Seq<char>>,
    is_tail: bool,
)
    requires
        e.is_surface(),
    ensures
        every(
            declared(e),
            placed(
                lifted,
                declared(lift_exp(e, env, lifted, is_tail).1),
                lift_exp(e, env, lifted, is_tail).0,
            ),
        ),
    decreases e, 1nat,
{
    let out = lift_exp(e, env, lifted, is_tail);
    let q = placed(lifted, declared(out.1), out.0);
    match e {
        ExpV::Num(..) | ExpV::Bool(..) | ExpV::Var(..) => {},
        ExpV::Prim(op, es, _) => {
            lemma_operands_placed(es, env, lifted);
            assert(out.1 == ExpV::Prim(op, seconds(lift_operands(es, env, lifted)), ()));
        },
        ExpV::Let { bindings, body, .. } => {
            let rs = lift_bindings(bindings, env, lifted);
            let names = binding_names(bindings);
            let inner = env_extend(env, names, bindings.len() as int);
            let b = lift_exp(*body, inner, lifted, is_tail);
            let new_bindings = rebind(bindings, rs);
            let parts = binding_declared(new_bindings);
            assert(declared(out.1) == concat_all(parts) + declared(b.1));
            lemma_add_within(concat_all(parts), declared(b.1));
            lemma_add_within(concat_all(firsts(rs)), b.0);
            assert forall|i: int| 0 <= i < bindings.len() implies every(
                #[trigger] binding_declared(bindings)[i],
                q,
            ) by {
                assert(bindings[i].1.is_surface());
                lemma_first_pass_placed(bindings[i].1, env_extend(env, names, i), lifted, false);
                lemma_concat_within(parts, bindings.len() as int, i);
                lemma_concat_within(firsts(rs), bindings.len() as int, i);
                assert(parts[i] == declared(rs[i].1));
                lemma_placed_more(
                    lifted,
                    declared(rs[i].1),
                    rs[i].0,
                    declared(out.1),
                    out.0,
                    declared(bindings[i].1),
                );
            }
            lemma_every_concat(binding_declared(bindings), bindings.len() as int, q);
            lemma_first_pass_placed(*body, inner, lifted, is_tail);
            lemma_placed_more(lifted, declared(b.1), b.0, declared(out.1), out.0, declared(*body));
            lemma_every_add(concat_all(binding_declared(bindings)), declared(*body), q);
        },
        ExpV::If { cond, thn, els, .. } => {
            let c = lift_exp(*cond, env, lifted, false);
            let t = lift_exp(*thn, env, lifted, is_tail);
            let f = lift_exp(*els, env, lifted, is_tail);
            lemma_first_pass_placed(*cond, env, lifted, false);
            lemma_first_pass_placed(*thn, env, lifted, is_tail);
            lemma_first_pass_placed(*els, env, lifted, is_tail);
            assert(declared(out.1) == declared(c.1) + declared(t.1) + declared(f.1));
            lemma_add_within(declared(c.1), declared(t.1));
            lemma_add_within(declared(c.1) + declared(t.1), declared(f.1));
            lemma_add_within(c.0, t.0);
            lemma_add_within(c.0 + t.0, f.0);
            lemma_placed_more(lifted, declared(c.1), c.0, declared(out.1), out.0, declared(*cond));
            lemma_placed_more(lifted, declared(t.1), t.0, declared(out.1), out.0, declared(*thn));
            lemma_placed_more(lifted, declared(f.1), f.0, declared(out.1), out.0, declared(*els));
            lemma_every_add(declared(*cond), declared(*thn), q);
            lemma_every_add(declared(*cond) + declared(*thn), declared(*els), q);
        },
        ExpV::FunDefs { .. } => {
            lemma_group_placed(e, env, lifted, is_tail);
        },
        ExpV::Call(f, args, _) => {
            lemma_operands_placed(args, env, lifted);
            let rs = lift_operands(args, env, lifted);
            if lifted.contains(f) {
                assert(out.1 == ExpV::ExternalCall {
                    fun_name: f,
                    args: seconds(rs),
                    is_tail: is_tail,
                    ann: (),
                });
            } else {
                assert(out.1 == ExpV::InternalTailCall(f, seconds(rs), ()));
            }
        },
        ExpV::InternalTailCall(..) | ExpV::ExternalCall { .. } => {},
    }
}

/// After the first pass of lifting, every function that a group declares, or that is
/// declared inside it, has a place.
pub proof fn lemma_group_placed<A>(
    e: ExpV<A>,
    env: Seq<Seq<char>>,
    lifted: Set<Seq<char>>,
    is_tail: bool,
)
    requires
        e is FunDefs,
        e.is_surface(),
    ensures
        every(
            declared(e),
            placed(
                lifted,
                declared(lift_exp(e, env, lifted, is_tail).1),
                lift_exp(e, env, lifted, is_tail).0,
            ),
        ),
    decreases e, 0nat,
{
    let out = lift_exp(e, env, lifted, is_tail);
    let q = placed(lifted, declared(out.1), out.0);
    let decls = e->FunDefs_decls;
    let body = e->FunDefs_body;
    let n = decls.len() as int;
    let rs = lift_decls(decls, env, lifted);
    let parts = decl_parts(rs);
    let b = lift_exp(*body, env, lifted, is_tail);
    let kept = keep_decls(seconds(rs), n, lifted, false);
    lemma_add_within(concat_all(parts), b.0);
    if kept.len() > 0 {
        assert(declared(out.1) == concat_all(group_declared(kept)) + declared(b.1));
        lemma_add_within(concat_all(group_declared(kept)), declared(b.1));
    }
    assert forall|i: int| 0 <= i < n implies every(#[trigger] group_declared(decls)[i], q) by {
        let inner_env = env_extend(env, decls[i].parameters, decls[i].parameters.len() as int);
        let inner = lift_exp(decls[i].body, inner_env, lifted, true);
        assert(decls[i].body.is_surface());
        lemma_first_pass_placed(decls[i].body, inner_env, lifted, true);
        lemma_concat_within(parts, n, i);
        assert(parts[i] == seq![rs[i].1] + rs[i].0);
        lemma_add_within(seq![rs[i].1], rs[i].0);
        assert(seq![rs[i].1][0] == rs[i].1);
        assert(seq![rs[i].1].contains(rs[i].1));
        assert(parts[i].contains(rs[i].1));
        assert(concat_all(parts).contains(rs[i].1));
        assert(out.0.contains(rs[i].1));
        let names_i = seq![decls[i].name] + declared(decls[i].body);
        assert(group_declared(decls)[i] == names_i);
        if lifted.contains(decls[i].name) {
            assert forall|j: int| 0 <= j < names_i.len() implies q(#[trigger] names_i[j]) by {
                let x = names_i[j];
                if j == 0 {
                    assert(x == decls[i].name);
                } else {
                    assert(x == declared(decls[i].body)[j - 1]);
                    assert(placed(lifted, declared(inner.1), inner.0)(x));
                    if lifted.contains(x) {
                    } else if declared(inner.1).contains(x) {
                        assert(rs[i].1.body == inner.1);
                        assert(out.0.contains(rs[i].1) && lifted.contains(rs[i].1.name) && declared(
                            rs[i].1.body,
                        ).contains(x));
                    } else {
                        let d = choose|d: FunDeclV<ExpV<()>, ()>|
                            #[trigger] inner.0.contains(d) && lifted.contains(d.name) && declared(
                                d.body,
                            ).contains(x);
                        assert(rs[i].0 == inner.0);
                        assert(parts[i].contains(d));
                        assert(concat_all(parts).contains(d));
                        assert(out.0.contains(d));
                    }
                }
            }
        } else {
            assert(seconds(rs)[i] == rs[i].1);
            lemma_keep_contains(seconds(rs), n, lifted, false, i);
            let k = choose|k: int| 0 <= k < kept.len() && kept[k] == rs[i].1;
            lemma_concat_within(group_declared(kept), kept.len() as int, k);
            let kept_names = seq![kept[k].name] + declared(kept[k].body);
            assert(group_declared(kept)[k] == kept_names);
            lemma_add_within(seq![kept[k].name], declared(kept[k].body));
            assert forall|j: int| 0 <= j < names_i.len() implies q(#[trigger] names_i[j]) by {
                let x = names_i[j];
                if j == 0 {
                    assert(x == decls[i].name);
                    assert(seq![kept[k].name][0] == x);
                    assert(seq![kept[k].name].contains(x));
                    assert(kept_names.contains(x));
                    assert(concat_all(group_declared(kept)).contains(x));
                    assert(declared(out.1).contains(x));
                } else {
                    assert(x == declared(decls[i].body)[j - 1]);
                    assert(placed(lifted, declared(inner.1), inner.0)(x));
                    if lifted.contains(x) {
                    } else if declared(inner.1).contains(x) {
                        assert(kept[k].body == inner.1);
                        assert(kept_names.contains(x));
                        assert(concat_all(group_declared(kept)).contains(x));
                        assert(declared(out.1).contains(x));
                    } else {
                        let d = choose|d: FunDeclV<ExpV<()>, ()>|
                            #[trigger] inner.0.contains(d) && lifted.contains(d.name) && declared(
                                d.body,
                            ).contains(x);
                        assert(rs[i].0 == inner.0);
                        assert(parts[i].contains(d));
                        assert(concat_all(parts).contains(d));
                        assert(out.0.contains(d));
                    }
                }
            }
        }
    }
    lemma_every_concat(group_declared(decls), n, q);
    lemma_first_pass_placed(*body, env, lifted, is_tail);
    lemma_placed_more(lifted, declared(b.1), b.0, declared(out.1), out.0, declared(*body));
    lemma_every_add(concat_all(group_declared(decls)), declared(*body), q);
}

/// Whether every call of `e` is classified and names what is there: an internal
/// tail call a member of `locals`, an external call a member of `globals`.
pub open spec fn targets_in<A>(e: ExpV<A>, locals: Set<Seq<char>>, globals: Set<Seq<char>>) -> bool
    decreases e,
{
    match e {
        ExpV::Num(..) | ExpV::Bool(..) | ExpV::Var(..) => true,
        ExpV::Prim(_, es, _) => forall|i: int|
            0 <= i < es.len() ==> targets_in(#[trigger] es[i], locals, globals),
        ExpV::Let { bindings, body, .. } => {
            &&& forall|i: int|
                0 <= i < bindings.len() ==> targets_in((#[trigger] bindings[i]).1, locals, globals)
            &&& targets_in(*body, locals, globals)
        },
        ExpV::If { cond, thn, els, .. } => {
            &&& targets_in(*cond, locals, globals)
            &&& targets_in(*thn, locals, globals)
            &&& targets_in(*els, locals, globals)
        },
        ExpV::FunDefs { decls, body, .. } => {
            &&& forall|i: int|
                0 <= i < decls.len() ==> targets_in((#[trigger] decls[i]).body, locals, globals)
            &&& targets_in(*body, locals, globals)
        },
        ExpV::Call(..) => false,
        ExpV::InternalTailCall(f, args, _) => {
            &&& locals.contains(f)
            &&& forall|i: int| 0 <= i < args.len() ==> targets_in(#[trigger] args[i], locals, globals)
        },
        ExpV::ExternalCall { fun_name, args, .. } => {
            &&& globals.contains(fun_name)
            &&& forall|i: int| 0 <= i < args.len() ==> targets_in(#[trigger] args[i], locals, globals)
        },
    }
}

/// The functions that are still declared inside a lifted program: in its main
/// expression, or in the body of one of its top-level functions.
pub open spec fn local_labels<A>(funs: Seq<FunDeclV<ExpV<A>, A>>, main: ExpV<A>) -> Set<Seq<char>> {
    Set::new(
        |x: Seq<char>|
            declared(main).contains(x) || exists|k: int|
                0 <= k < funs.len() && declared(#[trigger] funs[k].body).contains(x),
    )
}

/// The second pass of lifting, on an expression that the first pass left in order
/// and classified, leaves every internal tail call with the name of a function of
/// the table that is not in `lifted`, and every external call with the name of one
/// that is.
pub proof fn lemma_extend_targets(
    e: ExpV<()>,
    vars: Set<Seq<char>>,
    table: Map<Seq<char>, Seq<Seq<char>>>,
    lifted: Set<Seq<char>>,
    is_tail: bool,
)
    requires
        resolved_in(e, vars, table, false),
        classified(e, lifted, is_tail),
    ensures
        targets_in(
            extend_calls(e, table),
            table.dom().difference(lifted),
            table.dom().intersect(lifted),
        ),
    decreases e,
{
    let locals = table.dom().difference(lifted);
    let globals = table.dom().intersect(lifted);
    match e {
        ExpV::Num(..) | ExpV::Bool(..) | ExpV::Var(..) | ExpV::Call(..) => {},
        ExpV::Prim(_, es, _) => {
            let out = extend_all(es, table);
            assert forall|i: int| 0 <= i < out.len() implies targets_in(
                #[trigger] out[i],
                locals,
                globals,
            ) by {
                assert(resolved_in(es[i], vars, table, false));
                assert(classified(es[i], lifted, false));
                lemma_extend_targets(es[i], vars, table, lifted, false);
            }
        },
        ExpV::Let { bindings, body, .. } => {
            let names = binding_names(bindings);
            let out = extend_bindings(bindings, table);
            assert forall|i: int| 0 <= i < out.len() implies targets_in(
                (#[trigger] out[i]).1,
                locals,
                globals,
            ) by {
                assert(resolved_in(bindings[i].1, vars.union(names.take(i).to_set()), table, false));
                assert(classified(bindings[i].1, lifted, false));
                lemma_extend_targets(
                    bindings[i].1,
                    vars.union(names.take(i).to_set()),
                    table,
                    lifted,
                    false,
                );
            }
            lemma_extend_targets(*body, vars.union(names.to_set()), table, lifted, is_tail);
        },
        ExpV::If { cond, thn, els, .. } => {
            lemma_extend_targets(*cond, vars, table, lifted, false);
            lemma_extend_targets(*thn, vars, table, lifted, is_tail);
            lemma_extend_targets(*els, vars, table, lifted, is_tail);
        },
        ExpV::FunDefs { decls, body, .. } => {
            let out = extend_decls(decls, table);
            assert forall|i: int| 0 <= i < out.len() implies targets_in(
                (#[trigger] out[i]).body,
                locals,
                globals,
            ) by {
                assert(resolved_in(
                    decls[i].body,
                    decls[i].parameters.to_set(),
                    table,
                    false,
                ));
                assert(classified(decls[i].body, lifted, true));
                lemma_extend_targets(
                    decls[i].body,
                    decls[i].parameters.to_set(),
                    table,
                    lifted,
                    true,
                );
            }
            lemma_extend_targets(*body, vars, table, lifted, is_tail);
        },
        ExpV::InternalTailCall(f, args, _) => {
            let full = captured_args(table, f, args.len()) + extend_all(args, table);
            lemma_extended_args_targets(f, args, vars, table, lifted);
            assert(extend_calls(e, table) == ExpV::InternalTailCall(f, full, ()));
            assert(forall|i: int| 0 <= i < full.len() ==> targets_in(#[trigger] full[i], locals, globals));
        },
        ExpV::ExternalCall { fun_name, args, is_tail: marked, .. } => {
            let full = captured_args(table, fun_name, args.len()) + extend_all(args, table);
            lemma_extended_args_targets(fun_name, args, vars, table, lifted);
            assert(extend_calls(e, table) == ExpV::ExternalCall {
                fun_name: fun_name,
                args: full,
                is_tail: marked,
                ann: (),
            });
            assert(forall|i: int| 0 <= i < full.len() ==> targets_in(#[trigger] full[i], locals, globals));
        },
    }
}

/// The arguments of a completed call name what is there where those of the call
/// were in order and classified.
pub proof fn lemma_extended_args_targets(
    f: Seq<char>,
    args: Seq<ExpV<()>>,
    vars: Set<Seq<char>>,
    table: Map<Seq<char>, Seq<Seq<char>>>,
    lifted: Set<Seq<char>>,
)
    requires
        forall|i: int| 0 <= i < args.len() ==> resolved_in(#[trigger] args[i], vars, table, false),
        forall|i: int| 0 <= i < args.len() ==> classified(#[trigger] args[i], lifted, false),
    ensures
        forall|i: int|
            0 <= i < (captured_args(table, f, args.len()) + extend_all(args, table)).len()
                ==> targets_in(
                #[trigger] (captured_args(table, f, args.len()) + extend_all(args, table))[i],
                table.dom().difference(lifted),
                table.dom().intersect(lifted),
            ),
    decreases args,
{
    let head = captured_args(table, f, args.len());
    let tail = extend_all(args, table);
    assert forall|i: int| 0 <= i < (head + tail).len() implies targets_in(
        #[trigger] (head + tail)[i],
        table.dom().difference(lifted),
        table.dom().intersect(lifted),
    ) by {
        if i < head.len() {
            assert((head + tail)[i] == head[i]);
        } else {
            let j = i - head.len();
            assert((head + tail)[i] == tail[j]);
            assert(resolved_in(args[j], vars, table, false));
            assert(classified(args[j], lifted, false));
            lemma_extend_targets(args[j], vars, table, lifted, false);
        }
    }
}

/// Calls that name what is there name what is there where more is.
pub proof fn lemma_targets_more<A>(
    e: ExpV<A>,
    locals: Set<Seq<char>>,
    globals: Set<Seq<char>>,
    locals2: Set<Seq<char>>,
    globals2: Set<Seq<char>>,
)
    requires
        targets_in(e, locals, globals),
        locals.subset_of(locals2),
        globals.subset_of(globals2),
    ensures
        targets_in(e, locals2, globals2),
    decreases e,
{
    match e {
        ExpV::Num(..) | ExpV::Bool(..) | ExpV::Var(..) | ExpV::Call(..) => {},
        ExpV::Prim(_, es, _) => {
            assert forall|i: int| 0 <= i < es.len() implies targets_in(
                #[trigger] es[i],
                locals2,
                globals2,
            ) by {
                lemma_targets_more(es[i], locals, globals, locals2, globals2);
            }
        },
        ExpV::Let { bindings, body, .. } => {
            assert forall|i: int| 0 <= i < bindings.len() implies targets_in(
                (#[trigger] bindings[i]).1,
                locals2,
                globals2,
            ) by {
                lemma_targets_more(bindings[i].1, locals, globals, locals2, globals2);
            }
            lemma_targets_more(*body, locals, globals, locals2, globals2);
        },
        ExpV::If { cond, thn, els, .. } => {
            lemma_targets_more(*cond, locals, globals, locals2, globals2);
            lemma_targets_more(*thn, locals, globals, locals2, globals2);
            lemma_targets_more(*els, locals, globals, locals2, globals2);
        },
        ExpV::FunDefs { decls, body, .. } => {
            assert forall|i: int| 0 <= i < decls.len() implies targets_in(
                (#[trigger] decls[i]).body,
                locals2,
                globals2,
            ) by {
                lemma_targets_more(decls[i].body, locals, globals, locals2, globals2);
            }
            lemma_targets_more(*body, locals, globals, locals2, globals2);
        },
        ExpV::InternalTailCall(_, args, _) => {
            assert forall|i: int| 0 <= i < args.len() implies targets_in(
                #[trigger] args[i],
                locals2,
                globals2,
            ) by {
                lemma_targets_more(args[i], locals, globals, locals2, globals2);
            }
        },
        ExpV::ExternalCall { args, .. } => {
            assert forall|i: int| 0 <= i < args.len() implies targets_in(
                #[trigger] args[i],
                locals2,
                globals2,
            ) by {
                lemma_targets_more(args[i], locals, globals, locals2, globals2);
            }
        },
    }
}

/// The second pass of lifting keeps every declaration in place.
pub proof fn lemma_extend_keeps_declared(e: ExpV<()>, table: Map<Seq<char>, Seq<Seq<char>>>)
    ensures
        within(declared(e), declared(extend_calls(e, table))),
    decreases e,
{
    let out = extend_calls(e, table);
    match e {
        ExpV::Num(..) | ExpV::Bool(..) | ExpV::Var(..) | ExpV::Call(..) => {},
        ExpV::Prim(op, es, _) => {
            lemma_extend_all_keeps(es, extend_all(es, table), 0, table);
            assert(out == ExpV::Prim(op, extend_all(es, table), ()));
        },
        ExpV::Let { bindings, body, .. } => {
            let after = extend_bindings(bindings, table);
            let a = binding_declared(bindings);
            let b = binding_declared(after);
            let n = bindings.len() as int;
            lemma_extend_keeps_declared(*body, table);
            let tail = declared(extend_calls(*body, table));
            assert(declared(out) == concat_all(b) + tail);
            lemma_add_within(concat_all(a), declared(*body));
            lemma_add_within(concat_all(b), tail);
            assert forall|x: Seq<char>| declared(e).contains(x) implies #[trigger] declared(
                out,
            ).contains(x) by {
                let k = choose|k: int| 0 <= k < declared(e).len() && declared(e)[k] == x;
                if k < concat_all(a).len() {
                    assert(concat_all(a)[k] == x);
                    lemma_part_of(a, n, x);
                    let i = choose|i: int| 0 <= i < n && (#[trigger] a[i]).contains(x);
                    lemma_extend_keeps_declared(bindings[i].1, table);
                    assert(b[i].contains(x));
                    lemma_concat_within(b, n, i);
                    assert(concat_all(b).contains(x));
                } else {
                    assert(declared(*body)[k - concat_all(a).len()] == x);
                    assert(declared(*body).contains(x));
                    assert(tail.contains(x));
                }
            }
        },
        ExpV::If { cond, thn, els, .. } => {
            lemma_extend_keeps_declared(*cond, table);
            lemma_extend_keeps_declared(*thn, table);
            lemma_extend_keeps_declared(*els, table);
            let c = declared(*cond);
            let t = declared(*thn);
            let f = declared(*els);
            let c2 = declared(extend_calls(*cond, table));
            let t2 = declared(extend_calls(*thn, table));
            let f2 = declared(extend_calls(*els, table));
            lemma_add_within(c2, t2);
            lemma_add_within(c2 + t2, f2);
            assert forall|x: Seq<char>| declared(e).contains(x) implies #[trigger] declared(
                out,
            ).contains(x) by {
                let k = choose|k: int| 0 <= k < declared(e).len() && declared(e)[k] == x;
                if k < c.len() {
                    assert(c[k] == x);
                    assert(c2.contains(x));
                    assert((c2 + t2).contains(x));
                } else if k < c.len() + t.len() {
                    assert(t[k - c.len()] == x);
                    assert(t2.contains(x));
                    assert((c2 + t2).contains(x));
                } else {
                    assert(f[k - c.len() - t.len()] == x);
                    assert(f2.contains(x));
                }
            }
        },
        ExpV::FunDefs { decls, body, .. } => {
            let after = extend_decls(decls, table);
            let a = group_declared(decls);
            let b = group_declared(after);
            let n = decls.len() as int;
            lemma_extend_keeps_declared(*body, table);
            let tail = declared(extend_calls(*body, table));
            assert(declared(out) == concat_all(b) + tail);
            lemma_add_within(concat_all(b), tail);
            assert forall|x: Seq<char>| declared(e).contains(x) implies #[trigger] declared(
                out,
            ).contains(x) by {
                let k = choose|k: int| 0 <= k < declared(e).len() && declared(e)[k] == x;
                if k < concat_all(a).len() {
                    assert(concat_all(a)[k] == x);
                    lemma_part_of(a, n, x);
                    let i = choose|i: int| 0 <= i < n && (#[trigger] a[i]).contains(x);
                    lemma_extend_keeps_declared(decls[i].body, table);
                    let j = choose|j: int| 0 <= j < a[i].len() && a[i][j] == x;
                    if j == 0 {
                        assert(b[i][0] == x);
                    } else {
                        assert(declared(decls[i].body)[j - 1] == x);
                        assert(declared(decls[i].body).contains(x));
                        let inner = declared(extend_calls(decls[i].body, table));
                        assert(inner.contains(x));
                        let m = choose|m: int| 0 <= m < inner.len() && inner[m] == x;
                        assert(b[i][m + 1] == x);
                    }
                    assert(b[i].contains(x));
                    lemma_concat_within(b, n, i);
                    assert(concat_all(b).contains(x));
                } else {
                    assert(declared(*body)[k - concat_all(a).len()] == x);
                    assert(declared(*body).contains(x));
                    assert(tail.contains(x));
                }
            }
        },
        ExpV::InternalTailCall(f, args, _) => {
            let head = captured_args(table, f, args.len());
            lemma_extend_all_keeps(args, head + extend_all(args, table), head.len() as int, table);
            assert(out == ExpV::InternalTailCall(f, head + extend_all(args, table), ()));
        },
        ExpV::ExternalCall { fun_name, args, is_tail, .. } => {
            let head = captured_args(table, fun_name, args.len());
            lemma_extend_all_keeps(args, head + extend_all(args, table), head.len() as int, table);
            assert(out == ExpV::ExternalCall {
                fun_name: fun_name,
                args: head + extend_all(args, table),
                is_tail: is_tail,
                ann: (),
            });
        },
    }
}

/// What the expressions of a list declare is still declared in the list of their
/// completed forms, wherever that list stands in a longer one.
pub proof fn lemma_extend_all_keeps(
    es: Seq<ExpV<()>>,
    full: Seq<ExpV<()>>,
    skip: int,
    table: Map<Seq<char>, Seq<Seq<char>>>,
)
    requires
        0 <= skip,
        full.len() == skip + es.len(),
        forall|i: int| 0 <= i < es.len() ==> full[skip + i] == #[trigger] extend_all(es, table)[i],
    ensures
        within(concat_all(operand_declared(es)), concat_all(operand_declared(full))),
    decreases es,
{
    let a = operand_declared(es);
    let b = operand_declared(full);
    assert forall|x: Seq<char>| concat_all(a).contains(x) implies #[trigger] concat_all(b).contains(
        x,
    ) by {
        lemma_part_of(a, es.len() as int, x);
        let i = choose|i: int| 0 <= i < es.len() && (#[trigger] a[i]).contains(x);
        lemma_extend_keeps_declared(es[i], table);
        assert(full[skip + i] == extend_all(es, table)[i]);
        assert(b[skip + i].contains(x));
        lemma_concat_within(b, full.len() as int, skip + i);
    }
}

/// A function of the table is declared by one of the declarations.
pub proof fn lemma_table_member<E, A>(ds: Seq<FunDeclV<E, A>>, n: int, f: Seq<char>)
    requires
        0 <= n <= ds.len(),
        param_table(ds, n).contains_key(f),
    ensures
        exists|k: int| 0 <= k < n && (#[trigger] ds[k]).name == f,
    decreases n,
{
    if n > 0 {
        if ds[n - 1].name != f {
            lemma_table_member(ds, n - 1, f);
            let k = choose|k: int| 0 <= k < n - 1 && (#[trigger] ds[k]).name == f;
            assert(0 <= k < n && ds[k].name == f);
        }
    }
}

/// After lifting a program that is ready for it, every call names what is there:
/// an external call a top-level function, and an internal tail call a function that
/// is still declared inside the main expression or inside the body of a top-level
/// function.
pub proof fn lemma_lift_targets<A>(p: ExpV<A>)
    requires
        lift_ready(p),
    ensures
        targets_in(
            lift_prog(p).1,
            local_labels(lift_prog(p).0, lift_prog(p).1),
            group_names(lift_prog(p).0).to_set(),
        ),
        forall|k: int|
            0 <= k < lift_prog(p).0.len() ==> targets_in(
                (#[trigger] lift_prog(p).0[k]).body,
                local_labels(lift_prog(p).0, lift_prog(p).1),
                group_names(lift_prog(p).0).to_set(),
            ),
{
    let lifted = lift_set(p);
    let first = first_pass(p);
    let table = first_table(p);
    let all = extend_decls(first.0, table);
    let n = first.0.len() as int;
    let funs = lift_prog(p).0;
    let main = lift_prog(p).1;
    let locals = local_labels(funs, main);
    let globals = group_names(funs).to_set();
    let env = Seq::<Seq<char>>::empty();
    lemma_scoped_is_surface(p, env, Map::empty());
    lemma_first_pass_prog(p, false);
    lemma_first_pass_classified(p, env, lifted, true);
    lemma_first_pass_placed(p, env, lifted, true);
    lemma_lift_names(p, env, lifted, true);
    lemma_extend_keeps_declared(first.1, table);
    assert forall|f: Seq<char>| table.dom().intersect(lifted).contains(f) implies globals.contains(
        f,
    ) by {
        lemma_table_member(first.0, n, f);
        let k = choose|k: int| 0 <= k < n && (#[trigger] first.0[k]).name == f;
        assert(all[k].name == f);
        lemma_keep_contains(all, n, lifted, true, k);
        let j = choose|j: int| 0 <= j < funs.len() && funs[j] == all[k];
        assert(group_names(funs)[j] == f);
    }
    assert forall|f: Seq<char>| table.dom().difference(lifted).contains(f) implies locals.contains(
        f,
    ) by {
        lemma_table_member(first.0, n, f);
        let k = choose|k: int| 0 <= k < n && (#[trigger] first.0[k]).name == f;
        assert(group_names(first.0)[k] == f);
        assert(declared(p)[k] == f);
        assert(placed(lifted, declared(first.1), first.0)(declared(p)[k]));
        if declared(first.1).contains(f) {
            assert(declared(main).contains(f));
        } else {
            let d = choose|d: FunDeclV<ExpV<()>, ()>|
                #[trigger] first.0.contains(d) && lifted.contains(d.name) && declared(
                    d.body,
                ).contains(f);
            let i = choose|i: int| 0 <= i < n && first.0[i] == d;
            assert(all[i].name == d.name);
            lemma_keep_contains(all, n, lifted, true, i);
            let j = choose|j: int| 0 <= j < funs.len() && funs[j] == all[i];
            lemma_extend_keeps_declared(d.body, table);
            assert(declared(funs[j].body).contains(f));
        }
    }
    lemma_extend_targets(first.1, Set::empty(), table, lifted, true);
    lemma_targets_more(
        main,
        table.dom().difference(lifted),
        table.dom().intersect(lifted),
        locals,
        globals,
    );
    let q = |d: FunDeclV<ExpV<()>, ()>| targets_in(d.body, locals, globals);
    assert forall|i: int| 0 <= i < all.len() implies q(#[trigger] all[i]) by {
        assert(body_resolved(table, false)(first.0[i]));
        assert(body_classified(lifted)(first.0[i]));
        lemma_extend_targets(first.0[i].body, first.0[i].parameters.to_set(), table, lifted, true);
        lemma_targets_more(
            all[i].body,
            table.dom().difference(lifted),
            table.dom().intersect(lifted),
            locals,
            globals,
        );
    }
    lemma_every_keep(all, n, lifted, true, q);
    assert forall|k: int| 0 <= k < funs.len() implies targets_in(
        (#[trigger] funs[k]).body,
        locals,
        globals,
    ) by {
        assert(q(funs[k]));
    }
}

/// Whether every call of `e` gives the function it names as many arguments as
/// `table` gives the function parameters, and every function that is declared in
/// `e` has the parameters that `table` gives it.
pub open spec fn arities_match<A>(e: ExpV<A>, table: Map<Seq<char>, Seq<Seq<char>>>) -> bool
    decreases e,
{
    match e {
        ExpV::Num(..) | ExpV::Bool(..) | ExpV::Var(..) => true,
        ExpV::Prim(_, es, _) => forall|i: int|
            0 <= i < es.len() ==> arities_match(#[trigger] es[i], table),
        ExpV::Let { bindings, body, .. } => {
            &&& forall|i: int|
                0 <= i < bindings.len() ==> arities_match((#[trigger] bindings[i]).1, table)
            &&& arities_match(*body, table)
        },
        ExpV::If { cond, thn, els, .. } => {
            &&& arities_match(*cond, table)
            &&& arities_match(*thn, table)
            &&& arities_match(*els, table)
        },
        ExpV::FunDefs { decls, body, .. } => {
            &&& forall|i: int|
                0 <= i < decls.len() ==> table.contains_key((#[trigger] decls[i]).name)
                    && table[decls[i].name] == decls[i].parameters
            &&& forall|i: int|
                0 <= i < decls.len() ==> arities_match((#[trigger] decls[i]).body, table)
            &&& arities_match(*body, table)
        },
        ExpV::Call(..) => false,
        ExpV::InternalTailCall(f, args, _) => {
            &&& table.contains_key(f)
            &&& table[f].len() == args.len()
            &&& forall|i: int| 0 <= i < args.len() ==> arities_match(#[trigger] args[i], table)
        },
        ExpV::ExternalCall { fun_name, args, .. } => {
            &&& table.contains_key(fun_name)
            &&& table[fun_name].len() == args.len()
            &&& forall|i: int| 0 <= i < args.len() ==> arities_match(#[trigger] args[i], table)
        },
    }
}

/// The second pass of lifting gives every call as many arguments as the function it
/// names has parameters.
pub proof fn lemma_extend_arities(
    e: ExpV<()>,
    vars: Set<Seq<char>>,
    table: Map<Seq<char>, Seq<Seq<char>>>,
)
    requires
        resolved_in(e, vars, table, false),
    ensures
        arities_match(extend_calls(e, table), table),
    decreases e,
{
    match e {
        ExpV::Num(..) | ExpV::Bool(..) | ExpV::Var(..) | ExpV::Call(..) => {},
        ExpV::Prim(_, es, _) => {
            let out = extend_all(es, table);
            assert forall|i: int| 0 <= i < out.len() implies arities_match(
                #[trigger] out[i],
                table,
            ) by {
                assert(resolved_in(es[i], vars, table, false));
                lemma_extend_arities(es[i], vars, table);
            }
        },
        ExpV::Let { bindings, body, .. } => {
            let names = binding_names(bindings);
            let out = extend_bindings(bindings, table);
            assert forall|i: int| 0 <= i < out.len() implies arities_match(
                (#[trigger] out[i]).1,
                table,
            ) by {
                assert(resolved_in(bindings[i].1, vars.union(names.take(i).to_set()), table, false));
                lemma_extend_arities(bindings[i].1, vars.union(names.take(i).to_set()), table);
            }
            lemma_extend_arities(*body, vars.union(names.to_set()), table);
        },
        ExpV::If { cond, thn, els, .. } => {
            lemma_extend_arities(*cond, vars, table);
            lemma_extend_arities(*thn, vars, table);
            lemma_extend_arities(*els, vars, table);
        },
        ExpV::FunDefs { decls, body, .. } => {
            let out = extend_decls(decls, table);
            assert forall|i: int| 0 <= i < out.len() implies table.contains_key(
                (#[trigger] out[i]).name,
            ) && table[out[i].name] == out[i].parameters by {
                assert(table.contains_key(decls[i].name));
            }
            assert forall|i: int| 0 <= i < out.len() implies arities_match(
                (#[trigger] out[i]).body,
                table,
            ) by {
                assert(resolved_in(
                    decls[i].body,
                    decls[i].parameters.to_set(),
                    table,
                    false,
                ));
                lemma_extend_arities(decls[i].body, decls[i].parameters.to_set(), table);
            }
            lemma_extend_arities(*body, vars, table);
        },
        ExpV::InternalTailCall(f, args, _) => {
            let full = captured_args(table, f, args.len()) + extend_all(args, table);
            lemma_extended_args_arities(f, args, vars, table);
            assert(extend_calls(e, table) == ExpV::InternalTailCall(f, full, ()));
            assert(full.len() == table[f].len());
            assert(forall|i: int| 0 <= i < full.len() ==> arities_match(#[trigger] full[i], table));
        },
        ExpV::ExternalCall { fun_name, args, is_tail, .. } => {
            let full = captured_args(table, fun_name, args.len()) + extend_all(args, table);
            lemma_extended_args_arities(fun_name, args, vars, table);
            assert(extend_calls(e, table) == ExpV::ExternalCall {
                fun_name: fun_name,
                args: full,
                is_tail: is_tail,
                ann: (),
            });
            assert(full.len() == table[fun_name].len());
            assert(forall|i: int| 0 <= i < full.len() ==> arities_match(#[trigger] full[i], table));
        },
    }
}

/// In the arguments of a completed call, every call has as many arguments as the
/// function it names has parameters.
pub proof fn lemma_extended_args_arities(
    f: Seq<char>,
    args: Seq<ExpV<()>>,
    vars: Set<Seq<char>>,
    table: Map<Seq<char>, Seq<Seq<char>>>,
)
    requires
        forall|i: int| 0 <= i < args.len() ==> resolved_in(#[trigger] args[i], vars, table, false),
    ensures
        forall|i: int|
            0 <= i < (captured_args(table, f, args.len()) + extend_all(args, table)).len()
                ==> arities_match(
                #[trigger] (captured_args(table, f, args.len()) + extend_all(args, table))[i],
                table,
            ),
    decreases args,
{
    let head = captured_args(table, f, args.len());
    let tail = extend_all(args, table);
    assert forall|i: int| 0 <= i < (head + tail).len() implies arities_match(
        #[trigger] (head + tail)[i],
        table,
    ) by {
        if i < head.len() {
            assert((head + tail)[i] == head[i]);
        } else {
            let j = i - head.len();
            assert((head + tail)[i] == tail[j]);
            assert(resolved_in(args[j], vars, table, false));
            lemma_extend_arities(args[j], vars, table);
        }
    }
}

/// After lifting a program that is ready for it, every call gives the function it
/// names as many arguments as the function has parameters, the captured variables
/// included, and every function has the parameters that lifting gave it: a
/// top-level function and a function that is still declared inside alike.
pub proof fn lemma_lift_arities<A>(p: ExpV<A>)
    requires
        lift_ready(p),
    ensures
        arities_match(lift_prog(p).1, first_table(p)),
        forall|k: int|
            0 <= k < lift_prog(p).0.len() ==> arities_match(
                (#[trigger] lift_prog(p).0[k]).body,
                first_table(p),
            ),
        forall|k: int|
            0 <= k < lift_prog(p).0.len() ==> first_table(p).contains_key(
                (#[trigger] lift_prog(p).0[k]).name,
            ) && first_table(p)[lift_prog(p).0[k].name] == lift_prog(p).0[k].parameters,
{
    let lifted = lift_set(p);
    let first = first_pass(p);
    let table = first_table(p);
    let all = extend_decls(first.0, table);
    let n = first.0.len() as int;
    let funs = lift_prog(p).0;
    lemma_first_pass_prog(p, false);
    lemma_extend_arities(first.1, Set::empty(), table);
    lemma_scoped_is_surface(p, Seq::empty(), Map::empty());
    lemma_lift_names(p, Seq::empty(), lifted, true);
    let q = |d: FunDeclV<ExpV<()>, ()>|
        arities_match(d.body, table) && table.contains_key(d.name) && table[d.name] == d.parameters;
    assert forall|i: int| 0 <= i < all.len() implies q(#[trigger] all[i]) by {
        assert(body_resolved(table, false)(first.0[i]));
        lemma_extend_arities(first.0[i].body, first.0[i].parameters.to_set(), table);
        lemma_table_unique(first.0, n, i);
    }
    lemma_every_keep(all, n, lifted, true, q);
    assert forall|k: int| 0 <= k < funs.len() implies arities_match(
        (#[trigger] funs[k]).body,
        table,
    ) && table.contains_key(funs[k].name) && table[funs[k].name] == funs[k].parameters by {
        assert(q(funs[k]));
    }
}

/// The declarations that are kept have the names that are wanted among those of the
/// list, each once where the list has each name once.
pub proof fn lemma_keep_names<E, A>(
    ds: Seq<FunDeclV<E, A>>,
    n: int,
    lifted: Set<Seq<char>>,
    want: bool,
)
    requires
        0 <= n <= ds.len(),
        group_names(ds).no_duplicates(),
    ensures
        group_names(keep_decls(ds, n, lifted, want)).no_duplicates(),
        forall|f: Seq<char>| #[trigger]
            group_names(keep_decls(ds, n, lifted, want)).contains(f) <==> lifted.contains(f)
                == want && exists|i: int| 0 <= i < n && #[trigger] ds[i].name == f,
    decreases n,
{
    let kept = keep_decls(ds, n, lifted, want);
    let names = group_names(kept);
    if n > 0 {
        lemma_keep_names(ds, n - 1, lifted, want);
        let before = keep_decls(ds, n - 1, lifted, want);
        let last = ds[n - 1];
        if lifted.contains(last.name) == want {
            assert(names =~= group_names(before).push(last.name));
            assert(!group_names(before).contains(last.name)) by {
                if group_names(before).contains(last.name) {
                    let i = choose|i: int| 0 <= i < n - 1 && #[trigger] ds[i].name == last.name;
                    assert(group_names(ds)[i] == group_names(ds)[n - 1]);
                }
            }
            assert forall|f: Seq<char>| #[trigger] names.contains(f) <==> lifted.contains(f) == want
                && exists|i: int| 0 <= i < n && #[trigger] ds[i].name == f by {
                if names.contains(f) {
                    let k = choose|k: int| 0 <= k < names.len() && names[k] == f;
                    if k < before.len() {
                        assert(group_names(before)[k] == f);
                        assert(group_names(before).contains(f));
                        let i = choose|i: int| 0 <= i < n - 1 && #[trigger] ds[i].name == f;
                        assert(0 <= i < n && ds[i].name == f);
                    } else {
                        assert(ds[n - 1].name == f);
                    }
                }
                if lifted.contains(f) == want && exists|i: int|
                    0 <= i < n && #[trigger] ds[i].name == f {
                    let i = choose|i: int| 0 <= i < n && #[trigger] ds[i].name == f;
                    if i < n - 1 {
                        assert(group_names(before).contains(f));
                        let k = choose|k: int|
                            0 <= k < group_names(before).len() && group_names(before)[k] == f;
                        assert(names[k] == f);
                    } else {
                        assert(names[names.len() - 1] == f);
                    }
                }
            }
        } else {
            assert forall|f: Seq<char>| #[trigger] names.contains(f) <==> lifted.contains(f) == want
                && exists|i: int| 0 <= i < n && #[trigger] ds[i].name == f by {
                if names.contains(f) {
                    let i = choose|i: int| 0 <= i < n - 1 && #[trigger] ds[i].name == f;
                    assert(0 <= i < n && ds[i].name == f);
                }
                if lifted.contains(f) == want && exists|i: int|
                    0 <= i < n && #[trigger] ds[i].name == f {
                    let i = choose|i: int| 0 <= i < n && #[trigger] ds[i].name == f;
                    assert(i < n - 1);
                }
            }
        }
    } else {
        assert(names =~= Seq::<Seq<char>>::empty());
    }
}

/// After lifting a program that is ready for it, the top-level functions have
/// pairwise distinct names, and they are the functions that the program declares
/// and that are to be lifted.
pub proof fn lemma_lifted_functions<A>(p: ExpV<A>)
    requires
        lift_ready(p),
    ensures
        group_names(lift_prog(p).0).no_duplicates(),
        forall|f: Seq<char>| #[trigger]
            group_names(lift_prog(p).0).contains(f) <==> lift_set(p).contains(f) && declared(
                p,
            ).contains(f),
{
    let lifted = lift_set(p);
    let first = first_pass(p);
    let table = first_table(p);
    let all = extend_decls(first.0, table);
    let n = first.0.len() as int;
    lemma_scoped_is_surface(p, Seq::empty(), Map::empty());
    lemma_lift_names(p, Seq::empty(), lifted, true);
    assert(group_names(all) =~= group_names(first.0));
    lemma_keep_names(all, n, lifted, true);
    let names = group_names(lift_prog(p).0);
    assert forall|f: Seq<char>| #[trigger] names.contains(f) <==> lifted.contains(f) && declared(
        p,
    ).contains(f) by {
        if exists|i: int| 0 <= i < n && #[trigger] all[i].name == f {
            let i = choose|i: int| 0 <= i < n && #[trigger] all[i].name == f;
            assert(group_names(all)[i] == f);
        }
        if declared(p).contains(f) {
            let i = choose|i: int| 0 <= i < declared(p).len() && declared(p)[i] == f;
            assert(all[i].name == f);
        }
    }
}

} // verus!
