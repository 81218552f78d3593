//! Why code can be generated for the sequential form of a closed lifted program.

use vstd::prelude::*;
use crate::codegen::{code_ready, frame_fits, imm_bound, prog_ready};
use crate::lists::total;
use crate::scope::{lifted_ok, lifted_prog_ok};
use crate::sequential::{
    arg_name, arg_vars, fold_lets, if_name, prim1_name, prim2_first_name, prim2_second_name,
    seq_args, seq_bindings, seq_decls, seq_exp, seq_prog_spec,
};
use crate::syntax::{ExpV, FunDeclV, ImmExpV, SeqExpV, binding_names};
use crate::tag::{seq_decl_nodes, seq_nodes, tag_seq_decls, tag_seq_spec, tag_sprog_spec};

verus! {

/// Code that can be generated where some variables are in scope can be generated
/// where more are.
pub proof fn lemma_code_ready_weaken<A>(e: SeqExpV<A>, vars: Set<Seq<char>>, more: Set<Seq<char>>)
    requires
        code_ready(e, vars),
        vars.subset_of(more),
    ensures
        code_ready(e, more),
    decreases e,
{
    match e {
        SeqExpV::Imm(..) => {},
        SeqExpV::Prim(_, is, _) => {
            assert forall|k: int| 0 <= k < is.len() implies imm_bound(#[trigger] is[k], more) by {
                assert(imm_bound(is[k], vars));
            }
        },
        SeqExpV::Let { var, bound_exp, body, .. } => {
            lemma_code_ready_weaken(*bound_exp, vars, more);
            lemma_code_ready_weaken(*body, vars.insert(var), more.insert(var));
        },
        SeqExpV::If { thn, els, .. } => {
            lemma_code_ready_weaken(*thn, vars, more);
            lemma_code_ready_weaken(*els, vars, more);
        },
        SeqExpV::FunDefs { body, .. } => {
            lemma_code_ready_weaken(*body, vars, more);
        },
        SeqExpV::InternalTailCall(_, args, _) => {
            assert forall|k: int| 0 <= k < args.len() implies imm_bound(#[trigger] args[k], more) by {
                assert(imm_bound(args[k], vars));
            }
        },
        SeqExpV::ExternalCall { args, .. } => {
            assert forall|k: int| 0 <= k < args.len() implies imm_bound(#[trigger] args[k], more) by {
                assert(imm_bound(args[k], vars));
            }
        },
    }
}

/// The names that a list of pairs binds, in order.
pub open spec fn pair_names(pairs: Seq<(Seq<char>, SeqExpV<()>)>) -> Seq<Seq<char>> {
    Seq::new(pairs.len(), |i: int| pairs[i].0)
}

/// Code can be generated for lets folded around an expression where it can be
/// generated for each bound expression with the names bound before it in scope, and
/// for the expression with all the names in scope.
pub proof fn lemma_fold_lets_ready(
    pairs: Seq<(Seq<char>, SeqExpV<()>)>,
    i: int,
    tail: SeqExpV<()>,
    vars: Set<Seq<char>>,
)
    requires
        0 <= i <= pairs.len(),
        forall|j: int|
            0 <= j < pairs.len() ==> code_ready(
                (#[trigger] pairs[j]).1,
                vars.union(pair_names(pairs).take(j).to_set()),
            ),
        code_ready(tail, vars.union(pair_names(pairs).to_set())),
    ensures
        code_ready(fold_lets(pairs, i, tail), vars.union(pair_names(pairs).take(i).to_set())),
    decreases pairs.len() - i,
{
    let names = pair_names(pairs);
    if i < pairs.len() {
        lemma_fold_lets_ready(pairs, i + 1, tail, vars);
        assert(names.take(i + 1) =~= names.take(i).push(names[i]));
        names.take(i).lemma_push_to_set_commute(names[i]);
        assert(vars.union(names.take(i).to_set()).insert(pairs[i].0) =~= vars.union(
            names.take(i + 1).to_set(),
        ));
        assert(code_ready(pairs[i].1, vars.union(names.take(i).to_set())));
    } else {
        assert(names.take(i) =~= names);
    }
}

/// Code can be generated for the sequential form of a call whose arguments are
/// closed lifted expressions.
pub proof fn lemma_seq_call_ready(
    args: Seq<ExpV<u32>>,
    t: u32,
    call: SeqExpV<()>,
    vars: Set<Seq<char>>,
)
    requires
        forall|i: int| 0 <= i < args.len() ==> lifted_ok(#[trigger] args[i], vars),
        (call is InternalTailCall && call->InternalTailCall_1 == arg_vars(t, args.len())) || (
        call is ExternalCall && call->ExternalCall_args == arg_vars(t, args.len())),
    ensures
        code_ready(fold_lets(seq_args(args, t), 0, call), vars),
    decreases args,
{
    let pairs = seq_args(args, t);
    let names = pair_names(pairs);
    assert forall|j: int| 0 <= j < pairs.len() implies code_ready(
        (#[trigger] pairs[j]).1,
        vars.union(names.take(j).to_set()),
    ) by {
        assert(lifted_ok(args[j], vars));
        lemma_seq_ready(args[j], vars);
        lemma_code_ready_weaken(seq_exp(args[j]), vars, vars.union(names.take(j).to_set()));
    }
    let operands = arg_vars(t, args.len());
    assert forall|k: int| 0 <= k < operands.len() implies imm_bound(
        #[trigger] operands[k],
        vars.union(names.to_set()),
    ) by {
        assert(names[k] == arg_name(t, k as nat));
        assert(names.to_set().contains(names[k]));
    }
    lemma_fold_lets_ready(pairs, 0, call, vars);
    assert(names.take(0).to_set() =~= Set::<Seq<char>>::empty());
    assert(vars.union(names.take(0).to_set()) =~= vars);
}

/// Code can be generated for the sequential form of a closed lifted expression, with
/// the same variables in scope.
pub proof fn lemma_seq_ready(e: ExpV<u32>, vars: Set<Seq<char>>)
    requires
        lifted_ok(e, vars),
    ensures
        code_ready(seq_exp(e), vars),
    decreases e,
{
    match e {
        ExpV::Num(..) | ExpV::Bool(..) | ExpV::Var(..) | ExpV::Call(..) => {},
        ExpV::Prim(p, es, t) => {
            if p.unary() {
                lemma_seq_ready(es[0], vars);
                let operands = seq![ImmExpV::Var(prim1_name(t))];
                assert(imm_bound(operands[0], vars.insert(prim1_name(t))));
                assert(code_ready(SeqExpV::Prim(p, operands, ()), vars.insert(prim1_name(t))));
            } else {
                lemma_seq_ready(es[0], vars);
                lemma_seq_ready(es[1], vars);
                let n1 = prim2_first_name(t);
                let n2 = prim2_second_name(t);
                lemma_code_ready_weaken(seq_exp(es[1]), vars, vars.insert(n1));
                let operands = seq![ImmExpV::Var(n1), ImmExpV::Var(n2)];
                assert(imm_bound(operands[0], vars.insert(n1).insert(n2)));
                assert(imm_bound(operands[1], vars.insert(n1).insert(n2)));
                let inner = SeqExpV::Prim(p, operands, ());
                assert(code_ready(inner, vars.insert(n1).insert(n2)));
                let middle = SeqExpV::Let {
                    var: n2,
                    bound_exp: Box::new(seq_exp(es[1])),
                    body: Box::new(inner),
                    ann: (),
                };
                assert(code_ready(middle, vars.insert(n1)));
            }
        },
        ExpV::Let { bindings, body, .. } => {
            let pairs = seq_bindings(bindings);
            let names = binding_names(bindings);
            assert(pair_names(pairs) =~= names);
            assert forall|j: int| 0 <= j < pairs.len() implies code_ready(
                (#[trigger] pairs[j]).1,
                vars.union(names.take(j).to_set()),
            ) by {
                assert(lifted_ok(bindings[j].1, vars.union(names.take(j).to_set())));
                lemma_seq_ready(bindings[j].1, vars.union(names.take(j).to_set()));
            }
            lemma_seq_ready(*body, vars.union(names.to_set()));
            lemma_fold_lets_ready(pairs, 0, seq_exp(*body), vars);
            assert(names.take(0).to_set() =~= Set::<Seq<char>>::empty());
            assert(vars.union(names.take(0).to_set()) =~= vars);
        },
        ExpV::If { cond, thn, els, ann } => {
            lemma_seq_ready(*cond, vars);
            lemma_seq_ready(*thn, vars);
            lemma_seq_ready(*els, vars);
            lemma_code_ready_weaken(seq_exp(*thn), vars, vars.insert(if_name(ann)));
            lemma_code_ready_weaken(seq_exp(*els), vars, vars.insert(if_name(ann)));
            let inner = SeqExpV::If {
                cond: ImmExpV::Var(if_name(ann)),
                thn: Box::new(seq_exp(*thn)),
                els: Box::new(seq_exp(*els)),
                ann: (),
            };
            assert(code_ready(inner, vars.insert(if_name(ann))));
        },
        ExpV::FunDefs { decls, body, .. } => {
            let out = seq_decls(decls);
            assert forall|k: int| 0 <= k < out.len() implies code_ready(
                (#[trigger] out[k]).body,
                out[k].parameters.to_set(),
            ) by {
                assert(lifted_ok(decls[k].body, decls[k].parameters.to_set()));
                lemma_seq_ready(decls[k].body, decls[k].parameters.to_set());
            }
            lemma_seq_ready(*body, vars);
        },
        ExpV::InternalTailCall(f, args, t) => {
            lemma_seq_call_ready(
                args,
                t,
                SeqExpV::InternalTailCall(f, arg_vars(t, args.len()), ()),
                vars,
            );
        },
        ExpV::ExternalCall { fun_name, args, is_tail, ann } => {
            lemma_seq_call_ready(
                args,
                ann,
                SeqExpV::ExternalCall {
                    fun_name: fun_name,
                    args: arg_vars(ann, args.len()),
                    is_tail: is_tail,
                    ann: (),
                },
                vars,
            );
        },
    }
}

/// Tagging keeps code that can be generated.
pub proof fn lemma_tag_seq_ready<A>(e: SeqExpV<A>, t: nat, vars: Set<Seq<char>>)
    requires
        code_ready(e, vars),
    ensures
        code_ready(tag_seq_spec(e, t), vars),
    decreases e,
{
    match e {
        SeqExpV::Let { var, bound_exp, body, .. } => {
            lemma_tag_seq_ready(*bound_exp, t + 1, vars);
            lemma_tag_seq_ready(*body, t + 1 + seq_nodes(*bound_exp), vars.insert(var));
        },
        SeqExpV::If { thn, els, .. } => {
            lemma_tag_seq_ready(*thn, t + 1, vars);
            lemma_tag_seq_ready(*els, t + 1 + seq_nodes(*thn), vars);
        },
        SeqExpV::FunDefs { decls, body, .. } => {
            let out = tag_seq_decls(decls, t + 1);
            assert forall|k: int| 0 <= k < out.len() implies code_ready(
                (#[trigger] out[k]).body,
                out[k].parameters.to_set(),
            ) by {
                assert(code_ready(decls[k].body, decls[k].parameters.to_set()));
                lemma_tag_seq_ready(
                    decls[k].body,
                    t + 1 + total(seq_decl_nodes(decls), k),
                    decls[k].parameters.to_set(),
                );
            }
            lemma_tag_seq_ready(
                *body,
                t + 1 + total(seq_decl_nodes(decls), decls.len() as int),
                vars,
            );
        },
        _ => {},
    }
}

/// Code can be generated for the sequential form, tagged anew, of a closed lifted
/// program whose frames are small enough.
pub proof fn lemma_program_ready(funs: Seq<FunDeclV<ExpV<u32>, u32>>, main: ExpV<u32>)
    requires
        lifted_prog_ok(funs, main),
        frame_fits(tag_sprog_spec(seq_prog_spec(funs, main)).main, 0),
        forall|k: int|
            0 <= k < funs.len() ==> frame_fits(
                (#[trigger] tag_sprog_spec(seq_prog_spec(funs, main)).funs[k]).body,
                tag_sprog_spec(seq_prog_spec(funs, main)).funs[k].parameters.len(),
            ),
    ensures
        prog_ready(tag_sprog_spec(seq_prog_spec(funs, main))),
{
    let sp = seq_prog_spec(funs, main);
    let out = tag_sprog_spec(sp);
    lemma_seq_ready(main, Set::empty());
    lemma_tag_seq_ready(
        sp.main,
        1 + total(seq_decl_nodes(sp.funs), sp.funs.len() as int),
        Set::empty(),
    );
    assert forall|k: int| 0 <= k < out.funs.len() implies code_ready(
        (#[trigger] out.funs[k]).body,
        out.funs[k].parameters.to_set(),
    ) by {
        assert(lifted_ok(funs[k].body, funs[k].parameters.to_set()));
        lemma_seq_ready(funs[k].body, funs[k].parameters.to_set());
        lemma_tag_seq_ready(
            sp.funs[k].body,
            1 + total(seq_decl_nodes(sp.funs), k),
            funs[k].parameters.to_set(),
        );
    }
}

/// Whether every operand in `e` has a name: the operands of every primitive
/// operation, the arguments of every call, and the condition of every `If` are
/// variables, so that everything that is computed is bound by a `Let` first.
pub open spec fn operands_named<A>(e: SeqExpV<A>) -> bool
    decreases e,
{
    match e {
        SeqExpV::Imm(..) => true,
        SeqExpV::Prim(_, is, _) => forall|k: int| 0 <= k < is.len() ==> (#[trigger] is[k]) is Var,
        SeqExpV::Let { bound_exp, body, .. } => operands_named(*bound_exp) && operands_named(*body),
        SeqExpV::If { cond, thn, els, .. } => cond is Var && operands_named(*thn) && operands_named(
            *els,
        ),
        SeqExpV::FunDefs { decls, body, .. } => {
            &&& forall|k: int| 0 <= k < decls.len() ==> operands_named((#[trigger] decls[k]).body)
            &&& operands_named(*body)
        },
        SeqExpV::InternalTailCall(_, args, _) => forall|k: int|
            0 <= k < args.len() ==> (#[trigger] args[k]) is Var,
        SeqExpV::ExternalCall { args, .. } => forall|k: int|
            0 <= k < args.len() ==> (#[trigger] args[k]) is Var,
    }
}

/// Lets folded around an expression name every operand where the bound expressions
/// and the expression do.
pub proof fn lemma_fold_lets_named(pairs: Seq<(Seq<char>, SeqExpV<()>)>, i: int, tail: SeqExpV<()>)
    requires
        0 <= i <= pairs.len(),
        forall|j: int| 0 <= j < pairs.len() ==> operands_named((#[trigger] pairs[j]).1),
        operands_named(tail),
    ensures
        operands_named(fold_lets(pairs, i, tail)),
    decreases pairs.len() - i,
{
    if i < pairs.len() {
        lemma_fold_lets_named(pairs, i + 1, tail);
        assert(operands_named(pairs[i].1));
    }
}

/// After sequentialization every operand has a name: no operation, call or `If` is
/// applied to anything but a variable.
pub proof fn lemma_seq_operands_named(e: ExpV<u32>)
    requires
        e.calls_classified(),
        e.prims_saturated(),
    ensures
        operands_named(seq_exp(e)),
    decreases e,
{
    match e {
        ExpV::Num(..) | ExpV::Bool(..) | ExpV::Var(..) | ExpV::Call(..) => {},
        ExpV::Prim(p, es, t) => {
            if p.unary() {
                lemma_seq_operands_named(es[0]);
                let operands = seq![ImmExpV::Var(prim1_name(t))];
                assert(operands_named(SeqExpV::Prim(p, operands, ())));
            } else {
                lemma_seq_operands_named(es[0]);
                lemma_seq_operands_named(es[1]);
                let operands = seq![
                    ImmExpV::Var(prim2_first_name(t)),
                    ImmExpV::Var(prim2_second_name(t)),
                ];
                let inner = SeqExpV::Prim(p, operands, ());
                assert(operands_named(inner));
                let middle = SeqExpV::Let {
                    var: prim2_second_name(t),
                    bound_exp: Box::new(seq_exp(es[1])),
                    body: Box::new(inner),
                    ann: (),
                };
                assert(operands_named(middle));
            }
        },
        ExpV::Let { bindings, body, .. } => {
            let pairs = seq_bindings(bindings);
            assert forall|j: int| 0 <= j < pairs.len() implies operands_named(
                (#[trigger] pairs[j]).1,
            ) by {
                lemma_seq_operands_named(bindings[j].1);
            }
            lemma_seq_operands_named(*body);
            lemma_fold_lets_named(pairs, 0, seq_exp(*body));
        },
        ExpV::If { cond, thn, els, ann } => {
            lemma_seq_operands_named(*cond);
            lemma_seq_operands_named(*thn);
            lemma_seq_operands_named(*els);
            let inner = SeqExpV::If {
                cond: ImmExpV::Var(if_name(ann)),
                thn: Box::new(seq_exp(*thn)),
                els: Box::new(seq_exp(*els)),
                ann: (),
            };
            assert(operands_named(inner));
        },
        ExpV::FunDefs { decls, body, .. } => {
            let out = seq_decls(decls);
            assert forall|k: int| 0 <= k < out.len() implies operands_named(
                (#[trigger] out[k]).body,
            ) by {
                lemma_seq_operands_named(decls[k].body);
            }
            lemma_seq_operands_named(*body);
        },
        ExpV::InternalTailCall(f, args, t) => {
            let pairs = seq_args(args, t);
            assert forall|j: int| 0 <= j < pairs.len() implies operands_named(
                (#[trigger] pairs[j]).1,
            ) by {
                lemma_seq_operands_named(args[j]);
            }
            let call = SeqExpV::InternalTailCall(f, arg_vars(t, args.len()), ());
            assert(operands_named(call));
            lemma_fold_lets_named(pairs, 0, call);
        },
        ExpV::ExternalCall { fun_name, args, is_tail, ann } => {
            let pairs = seq_args(args, ann);
            assert forall|j: int| 0 <= j < pairs.len() implies operands_named(
                (#[trigger] pairs[j]).1,
            ) by {
                lemma_seq_operands_named(args[j]);
            }
            let call = SeqExpV::ExternalCall {
                fun_name: fun_name,
                args: arg_vars(ann, args.len()),
                is_tail: is_tail,
                ann: (),
            };
            assert(operands_named(call));
            lemma_fold_lets_named(pairs, 0, call);
        },
    }
}

} // verus!
