//! Sequentialization: every intermediate result gets a name of its own, so that
//! operators and calls are applied to immediate operands only.

use vstd::prelude::*;
use crate::names::{clone_names, names_of};
use crate::syntax::{
    Exp, ExpV, FunDecl, FunDeclV, ImmExp, ImmExpV, SeqExp, SeqExpV, SeqProg, SeqProgV,
    bindings_view, boxed_exps_view, decls_view, exps_view, imms_view, lemma_imms_view_push,
    lemma_seq_decls_view_push, seq_decls_view,
};
use crate::text::{decimal, push_decimal};

verus! {

/// The name that holds the operand of the unary operation tagged `t`.
pub open spec fn prim1_name(t: u32) -> Seq<char> {
    "#prim1_"@ + decimal(t as nat)
}

/// The name that holds the first operand of the binary operation tagged `t`.
pub open spec fn prim2_first_name(t: u32) -> Seq<char> {
    "#prim2_1_"@ + decimal(t as nat)
}

/// The name that holds the second operand of the binary operation tagged `t`.
pub open spec fn prim2_second_name(t: u32) -> Seq<char> {
    "#prim2_2_"@ + decimal(t as nat)
}

/// The name that holds the condition of the `If` tagged `t`.
pub open spec fn if_name(t: u32) -> Seq<char> {
    "#if_cond_"@ + decimal(t as nat)
}

/// The name that holds argument `i` of the call tagged `t`.
pub open spec fn arg_name(t: u32, i: nat) -> Seq<char> {
    "#function_"@ + decimal(t as nat) + "_arg_"@ + decimal(i)
}

/// The lets that bind `pairs[i]`, `pairs[i + 1]`, and so on, around `tail`.
pub open spec fn fold_lets(pairs: Seq<(Seq<char>, SeqExpV<()>)>, i: int, tail: SeqExpV<()>) -> SeqExpV<
    (),
>
    decreases pairs.len() - i,
{
    if i < 0 || i >= pairs.len() {
        tail
    } else {
        SeqExpV::Let {
            var: pairs[i].0,
            bound_exp: Box::new(pairs[i].1),
            body: Box::new(fold_lets(pairs, i + 1, tail)),
            ann: (),
        }
    }
}

/// Each binding of a `Let`, with its bound expression in sequential form.
pub open spec fn seq_bindings(bs: Seq<(Seq<char>, ExpV<u32>)>) -> Seq<(Seq<char>, SeqExpV<()>)>
    decreases bs,
{
    Seq::new(
        bs.len(),
        |i: int|
            if 0 <= i < bs.len() {
                (bs[i].0, seq_exp(bs[i].1))
            } else {
                arbitrary()
            },
    )
}

/// Each argument of the call tagged `t` in sequential form, with the name that holds it.
pub open spec fn seq_args(args: Seq<ExpV<u32>>, t: u32) -> Seq<(Seq<char>, SeqExpV<()>)>
    decreases args,
{
    Seq::new(
        args.len(),
        |i: int|
            if 0 <= i < args.len() {
                (arg_name(t, i as nat), seq_exp(args[i]))
            } else {
                arbitrary()
            },
    )
}

/// The names that hold the `n` arguments of the call tagged `t`, as operands.
pub open spec fn arg_vars(t: u32, n: nat) -> Seq<ImmExpV> {
    Seq::new(n, |i: int| ImmExpV::Var(arg_name(t, i as nat)))
}

/// Each declaration with its body in sequential form.
pub open spec fn seq_decls(ds: Seq<FunDeclV<ExpV<u32>, u32>>) -> Seq<FunDeclV<SeqExpV<()>, ()>>
    decreases ds,
{
    Seq::new(
        ds.len(),
        |i: int|
            if 0 <= i < ds.len() {
                FunDeclV {
                    name: ds[i].name,
                    parameters: ds[i].parameters,
                    body: seq_exp(ds[i].body),
                    ann: (),
                }
            } else {
                arbitrary()
            },
    )
}

/// The sequential form of `e`. The names it introduces are made from the tags of `e`.
pub open spec fn seq_exp(e: ExpV<u32>) -> SeqExpV<()>
    decreases e,
{
    match e {
        ExpV::Num(n, _) => SeqExpV::Imm(ImmExpV::Num(n), ()),
        ExpV::Bool(b, _) => SeqExpV::Imm(ImmExpV::Bool(b), ()),
        ExpV::Var(x, _) => SeqExpV::Imm(ImmExpV::Var(x), ()),
        ExpV::Prim(p, es, t) => {
            if p.unary() && es.len() >= 1 {
                SeqExpV::Let {
                    var: prim1_name(t),
                    bound_exp: Box::new(seq_exp(es[0])),
                    body: Box::new(SeqExpV::Prim(p, seq![ImmExpV::Var(prim1_name(t))], ())),
                    ann: (),
                }
            } else if !p.unary() && es.len() >= 2 {
                SeqExpV::Let {
                    var: prim2_first_name(t),
                    bound_exp: Box::new(seq_exp(es[0])),
                    body: Box::new(
                        SeqExpV::Let {
                            var: prim2_second_name(t),
                            bound_exp: Box::new(seq_exp(es[1])),
                            body: Box::new(
                                SeqExpV::Prim(
                                    p,
                                    seq![
                                        ImmExpV::Var(prim2_first_name(t)),
                                        ImmExpV::Var(prim2_second_name(t)),
                                    ],
                                    (),
                                ),
                            ),
                            ann: (),
                        },
                    ),
                    ann: (),
                }
            } else {
                SeqExpV::Prim(p, Seq::empty(), ())
            }
        },
        ExpV::Let { bindings, body, .. } => fold_lets(seq_bindings(bindings), 0, seq_exp(*body)),
        ExpV::If { cond, thn, els, ann } => SeqExpV::Let {
            var: if_name(ann),
            bound_exp: Box::new(seq_exp(*cond)),
            body: Box::new(
                SeqExpV::If {
                    cond: ImmExpV::Var(if_name(ann)),
                    thn: Box::new(seq_exp(*thn)),
                    els: Box::new(seq_exp(*els)),
                    ann: (),
                },
            ),
            ann: (),
        },
        ExpV::FunDefs { decls, body, .. } => SeqExpV::FunDefs {
            decls: seq_decls(decls),
            body: Box::new(seq_exp(*body)),
            ann: (),
        },
        ExpV::Call(f, args, _) => SeqExpV::InternalTailCall(f, Seq::empty(), ()),
        ExpV::InternalTailCall(f, args, t) => fold_lets(
            seq_args(args, t),
            0,
            SeqExpV::InternalTailCall(f, arg_vars(t, args.len()), ()),
        ),
        ExpV::ExternalCall { fun_name, args, is_tail, ann } => fold_lets(
            seq_args(args, ann),
            0,
            SeqExpV::ExternalCall {
                fun_name: fun_name,
                args: arg_vars(ann, args.len()),
                is_tail: is_tail,
                ann: (),
            },
        ),
    }
}

/// The sequential form of a program: of each top-level function and of the main
/// expression.
pub open spec fn seq_prog_spec(decls: Seq<FunDeclV<ExpV<u32>, u32>>, main: ExpV<u32>) -> SeqProgV<
    (),
> {
    SeqProgV { funs: seq_decls(decls), main: seq_exp(main), ann: () }
}

fn numbered(head: &str, t: u32) -> (r: String)
    ensures
        r@ == head@ + decimal(t as nat),
{
    let mut out: String = String::from_str(head);
    push_decimal(&mut out, t as u64);
    out
}

fn arg_name_string(t: u32, i: usize) -> (r: String)
    ensures
        r@ == arg_name(t, i as nat),
{
    let mut out: String = String::from_str("#function_");
    push_decimal(&mut out, t as u64);
    out.append("_arg_");
    push_decimal(&mut out, i as u64);
    out
}

/// Rewrites `e` into sequential form.
pub fn sequentialize(e: &Exp<u32>) -> (r: SeqExp<()>)
    requires
        e@.calls_classified(),
        e@.prims_saturated(),
    ensures
        r@ == seq_exp(e@),
    decreases e,
{
    match e {
        Exp::Num(n, _) => SeqExp::Imm(ImmExp::Num(*n), ()),
        Exp::Bool(b, _) => SeqExp::Imm(ImmExp::Bool(*b), ()),
        Exp::Var(x, _) => SeqExp::Imm(ImmExp::Var(x.clone()), ()),
        Exp::Prim(p, es, t) => {
            assert(e@->Prim_1 == boxed_exps_view(es@));
            if p.is_unary() {
                assert(boxed_exps_view(es@)[0] == es[0]@);
                let first = sequentialize(&es[0]);
                let name = numbered("#prim1_", *t);
                let mut operands: Vec<ImmExp> = Vec::new();
                operands.push(ImmExp::Var(name.clone()));
                assert(imms_view(operands@) =~= seq![ImmExpV::Var(prim1_name(*t))]);
                let inner = SeqExp::Prim(*p, operands, ());
                assert(inner@ == SeqExpV::Prim(*p, seq![ImmExpV::Var(prim1_name(*t))], ()));
                SeqExp::Let { var: name, bound_exp: Box::new(first), body: Box::new(inner), ann: () }
            } else {
                assert(boxed_exps_view(es@)[0] == es[0]@);
                assert(boxed_exps_view(es@)[1] == es[1]@);
                let first = sequentialize(&es[0]);
                let second = sequentialize(&es[1]);
                let name1 = numbered("#prim2_1_", *t);
                let name2 = numbered("#prim2_2_", *t);
                let mut operands: Vec<ImmExp> = Vec::new();
                operands.push(ImmExp::Var(name1.clone()));
                operands.push(ImmExp::Var(name2.clone()));
                assert(imms_view(operands@) =~= seq![
                    ImmExpV::Var(prim2_first_name(*t)),
                    ImmExpV::Var(prim2_second_name(*t)),
                ]);
                let inner = SeqExp::Prim(*p, operands, ());
                assert(inner@ == SeqExpV::Prim(
                    *p,
                    seq![ImmExpV::Var(prim2_first_name(*t)), ImmExpV::Var(prim2_second_name(*t))],
                    (),
                ));
                let middle = SeqExp::Let {
                    var: name2,
                    bound_exp: Box::new(second),
                    body: Box::new(inner),
                    ann: (),
                };
                assert(middle@ == SeqExpV::Let {
                    var: prim2_second_name(*t),
                    bound_exp: Box::new(second@),
                    body: Box::new(inner@),
                    ann: (),
                });
                SeqExp::Let { var: name1, bound_exp: Box::new(first), body: Box::new(middle), ann: () }
            }
        },
        Exp::Let { bindings, body, .. } => {
            assert(e@->Let_bindings == bindings_view(bindings@));
            let tail = sequentialize(body);
            sequentialize_bindings(bindings, tail)
        },
        Exp::If { cond, thn, els, ann } => {
            let c = sequentialize(cond);
            let t = sequentialize(thn);
            let f = sequentialize(els);
            let name = numbered("#if_cond_", *ann);
            let inner = SeqExp::If {
                cond: ImmExp::Var(name.clone()),
                thn: Box::new(t),
                els: Box::new(f),
                ann: (),
            };
            assert(inner@ == SeqExpV::If {
                cond: ImmExpV::Var(if_name(*ann)),
                thn: Box::new(t@),
                els: Box::new(f@),
                ann: (),
            });
            SeqExp::Let { var: name, bound_exp: Box::new(c), body: Box::new(inner), ann: () }
        },
        Exp::FunDefs { decls, body, .. } => {
            assert(e@->FunDefs_decls == decls_view(decls@));
            let ds = sequentialize_decls(decls);
            SeqExp::FunDefs { decls: ds, body: Box::new(sequentialize(body)), ann: () }
        },
        Exp::Call(..) => {
            assert(false);
            SeqExp::Imm(ImmExp::Bool(false), ())
        },
        Exp::InternalTailCall(f, args, t) => {
            assert(e@->InternalTailCall_1 == exps_view(args@));
            let call = SeqExp::InternalTailCall(f.clone(), arg_operands(*t, args.len()), ());
            assert(call@ == SeqExpV::InternalTailCall(f@, arg_vars(*t, args.len() as nat), ()));
            sequentialize_args(args, *t, call)
        },
        Exp::ExternalCall { fun_name, args, is_tail, ann } => {
            assert(e@->ExternalCall_args == exps_view(args@));
            let call = SeqExp::ExternalCall {
                fun_name: fun_name.clone(),
                args: arg_operands(*ann, args.len()),
                is_tail: *is_tail,
                ann: (),
            };
            assert(call@ == SeqExpV::ExternalCall {
                fun_name: fun_name@,
                args: arg_vars(*ann, args.len() as nat),
                is_tail: *is_tail,
                ann: (),
            });
            sequentialize_args(args, *ann, call)
        },
    }
}

fn arg_operands(t: u32, n: usize) -> (r: Vec<ImmExp>)
    ensures
        imms_view(r@) == arg_vars(t, n as nat),
{
    let mut out: Vec<ImmExp> = Vec::new();
    assert(imms_view(out@) =~= arg_vars(t, 0));
    let mut i: usize = 0;
    while i < n
        invariant
            i <= n,
            imms_view(out@) == arg_vars(t, i as nat),
        decreases n - i,
    {
        let v = ImmExp::Var(arg_name_string(t, i));
        proof {
            lemma_imms_view_push(out@, v);
            assert(arg_vars(t, i as nat).push(v@) =~= arg_vars(t, (i + 1) as nat));
        }
        out.push(v);
        i += 1;
    }
    out
}

fn sequentialize_bindings(bs: &Vec<(String, Exp<u32>)>, tail: SeqExp<()>) -> (r: SeqExp<()>)
    requires
        forall|i: int|
            0 <= i < bindings_view(bs@).len() ==> (#[trigger] bindings_view(
                bs@,
            )[i]).1.calls_classified(),
        forall|i: int|
            0 <= i < bindings_view(bs@).len() ==> (#[trigger] bindings_view(
                bs@,
            )[i]).1.prims_saturated(),
    ensures
        r@ == fold_lets(seq_bindings(bindings_view(bs@)), 0, tail@),
    decreases bs,
{
    let ghost pairs = seq_bindings(bindings_view(bs@));
    let ghost end = tail@;
    let mut cur: SeqExp<()> = tail;
    let mut i: usize = bs.len();
    while i > 0
        invariant
            i <= bs.len(),
            pairs == seq_bindings(bindings_view(bs@)),
            forall|i: int|
                0 <= i < bindings_view(bs@).len() ==> (#[trigger] bindings_view(
                    bs@,
                )[i]).1.calls_classified(),
            forall|i: int|
                0 <= i < bindings_view(bs@).len() ==> (#[trigger] bindings_view(
                    bs@,
                )[i]).1.prims_saturated(),
            cur@ == fold_lets(pairs, i as int, end),
        decreases i,
    {
        i -= 1;
        assert(bindings_view(bs@)[i as int].1 == bs[i as int].1@);
        assert(bindings_view(bs@)[i as int].0 == bs[i as int].0@);
        let bound = sequentialize(&bs[i].1);
        cur =
        SeqExp::Let {
            var: bs[i].0.clone(),
            bound_exp: Box::new(bound),
            body: Box::new(cur),
            ann: (),
        };
    }
    cur
}

fn sequentialize_args(args: &Vec<Exp<u32>>, t: u32, call: SeqExp<()>) -> (r: SeqExp<()>)
    requires
        forall|i: int|
            0 <= i < exps_view(args@).len() ==> (#[trigger] exps_view(args@)[i]).calls_classified(),
        forall|i: int|
            0 <= i < exps_view(args@).len() ==> (#[trigger] exps_view(args@)[i]).prims_saturated(),
    ensures
        r@ == fold_lets(seq_args(exps_view(args@), t), 0, call@),
    decreases args,
{
    let ghost pairs = seq_args(exps_view(args@), t);
    let ghost end = call@;
    let mut cur: SeqExp<()> = call;
    let mut i: usize = args.len();
    while i > 0
        invariant
            i <= args.len(),
            pairs == seq_args(exps_view(args@), t),
            forall|i: int|
                0 <= i < exps_view(args@).len() ==> (#[trigger] exps_view(
                    args@,
                )[i]).calls_classified(),
            forall|i: int|
                0 <= i < exps_view(args@).len() ==> (#[trigger] exps_view(
                    args@,
                )[i]).prims_saturated(),
            cur@ == fold_lets(pairs, i as int, end),
        decreases i,
    {
        i -= 1;
        assert(exps_view(args@)[i as int] == args[i as int]@);
        let bound = sequentialize(&args[i]);
        cur =
        SeqExp::Let {
            var: arg_name_string(t, i),
            bound_exp: Box::new(bound),
            body: Box::new(cur),
            ann: (),
        };
    }
    cur
}

fn sequentialize_decls(ds: &Vec<FunDecl<Exp<u32>, u32>>) -> (r: Vec<FunDecl<SeqExp<()>, ()>>)
    requires
        forall|i: int|
            0 <= i < decls_view(ds@).len() ==> (#[trigger] decls_view(
                ds@,
            )[i]).body.calls_classified(),
        forall|i: int|
            0 <= i < decls_view(ds@).len() ==> (#[trigger] decls_view(
                ds@,
            )[i]).body.prims_saturated(),
    ensures
        seq_decls_view(r@) == seq_decls(decls_view(ds@)),
    decreases ds,
{
    let ghost goal = seq_decls(decls_view(ds@));
    let mut out: Vec<FunDecl<SeqExp<()>, ()>> = Vec::new();
    assert(seq_decls_view(out@) =~= goal.take(0));
    let mut i: usize = 0;
    while i < ds.len()
        invariant
            i <= ds.len(),
            goal == seq_decls(decls_view(ds@)),
            forall|i: int|
                0 <= i < decls_view(ds@).len() ==> (#[trigger] decls_view(
                    ds@,
                )[i]).body.calls_classified(),
            forall|i: int|
                0 <= i < decls_view(ds@).len() ==> (#[trigger] decls_view(
                    ds@,
                )[i]).body.prims_saturated(),
            seq_decls_view(out@) == goal.take(i as int),
        decreases ds.len() - i,
    {
        assert(decls_view(ds@)[i as int].body == ds[i as int].body@);
        assert(decls_view(ds@)[i as int].name == ds[i as int].name@);
        assert(decls_view(ds@)[i as int].parameters == names_of(ds[i as int].parameters@));
        let d = FunDecl {
            name: ds[i].name.clone(),
            parameters: clone_names(&ds[i].parameters),
            body: sequentialize(&ds[i].body),
            ann: (),
        };
        proof {
            lemma_seq_decls_view_push(out@, d);
            assert(goal.take(i as int).push(d@) =~= goal.take(i + 1));
        }
        out.push(d);
        i += 1;
    }
    assert(goal.take(ds.len() as int) =~= goal);
    out
}

/// Rewrites a program into sequential form.
pub fn seq_prog(decls: &Vec<FunDecl<Exp<u32>, u32>>, p: &Exp<u32>) -> (r: SeqProg<()>)
    requires
        p@.calls_classified(),
        p@.prims_saturated(),
        forall|i: int|
            0 <= i < decls_view(decls@).len() ==> (#[trigger] decls_view(
                decls@,
            )[i]).body.calls_classified(),
        forall|i: int|
            0 <= i < decls_view(decls@).len() ==> (#[trigger] decls_view(
                decls@,
            )[i]).body.prims_saturated(),
    ensures
        r@ == seq_prog_spec(decls_view(decls@), p@),
{
    SeqProg { funs: sequentialize_decls(decls), main: sequentialize(p), ann: () }
}

} // verus!
