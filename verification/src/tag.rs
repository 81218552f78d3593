//! Tagging: every node of a tree gets a number of its own, in the order in which the
//! nodes are met, so that later passes can make fresh names and labels from it.

use vstd::prelude::*;
use crate::check::{well_formed, with_group};
use crate::lists::{lemma_total_mono, total};
use crate::names::{clone_names, names_of};
use crate::scope::{lifted_ok, lifted_prog_ok};
use crate::syntax::{
    Exp, ExpV, FunDecl, FunDeclV, ImmExp, SeqExp, SeqExpV, SeqProg, SeqProgV, binding_names,
    bindings_view, boxed_exps_view, decls_view, exps_view, group_names, imms_view,
    lemma_bindings_view_push, lemma_boxed_exps_view_push, lemma_decls_view_push,
    lemma_exps_view_push, lemma_imms_view_push, lemma_seq_decls_view_push, seq_decls_view,
};

verus! {

/// The number of nodes of each expression of a list.
pub open spec fn operand_nodes<A>(es: Seq<ExpV<A>>) -> Seq<nat>
    decreases es,
{
    Seq::new(
        es.len(),
        |i: int|
            if 0 <= i < es.len() {
                nodes(es[i])
            } else {
                0
            },
    )
}

/// The number of nodes of each bound expression of a `Let`.
pub open spec fn binding_nodes<A>(bs: Seq<(Seq<char>, ExpV<A>)>) -> Seq<nat>
    decreases bs,
{
    Seq::new(
        bs.len(),
        |i: int|
            if 0 <= i < bs.len() {
                nodes(bs[i].1)
            } else {
                0
            },
    )
}

/// The number of nodes of the body of each declaration.
pub open spec fn decl_nodes<A>(ds: Seq<FunDeclV<ExpV<A>, A>>) -> Seq<nat>
    decreases ds,
{
    Seq::new(
        ds.len(),
        |i: int|
            if 0 <= i < ds.len() {
                nodes(ds[i].body)
            } else {
                0
            },
    )
}

/// The number of nodes of `e`.
pub open spec fn nodes<A>(e: ExpV<A>) -> nat
    decreases e,
{
    match e {
        ExpV::Num(..) | ExpV::Bool(..) | ExpV::Var(..) => 1,
        ExpV::Prim(_, es, _) => 1 + total(operand_nodes(es), es.len() as int),
        ExpV::Let { bindings, body, .. } => 1 + total(
            binding_nodes(bindings),
            bindings.len() as int,
        ) + nodes(*body),
        ExpV::If { cond, thn, els, .. } => 1 + nodes(*cond) + nodes(*thn) + nodes(*els),
        ExpV::FunDefs { decls, body, .. } => 1 + total(decl_nodes(decls), decls.len() as int)
            + nodes(*body),
        ExpV::Call(_, args, _) => 1 + total(operand_nodes(args), args.len() as int),
        ExpV::InternalTailCall(_, args, _) => 1 + total(operand_nodes(args), args.len() as int),
        ExpV::ExternalCall { args, .. } => 1 + total(operand_nodes(args), args.len() as int),
    }
}

/// The expressions of a list, tagged one after the other with the numbers after `t`.
pub open spec fn tag_operands<A>(es: Seq<ExpV<A>>, t: nat) -> Seq<ExpV<u32>>
    decreases es,
{
    Seq::new(
        es.len(),
        |i: int|
            if 0 <= i < es.len() {
                tag_spec(es[i], t + total(operand_nodes(es), i))
            } else {
                arbitrary()
            },
    )
}

/// The bindings of a `Let`, their bound expressions tagged one after the other with
/// the numbers after `t`.
pub open spec fn tag_bindings<A>(bs: Seq<(Seq<char>, ExpV<A>)>, t: nat) -> Seq<
    (Seq<char>, ExpV<u32>),
>
    decreases bs,
{
    Seq::new(
        bs.len(),
        |i: int|
            if 0 <= i < bs.len() {
                (bs[i].0, tag_spec(bs[i].1, t + total(binding_nodes(bs), i)))
            } else {
                arbitrary()
            },
    )
}

/// The declarations of a group, their bodies tagged one after the other with the
/// numbers after `t`; each declaration is annotated with `group`, the tag of the
/// group.
pub open spec fn tag_group<A>(ds: Seq<FunDeclV<ExpV<A>, A>>, t: nat, group: u32) -> Seq<
    FunDeclV<ExpV<u32>, u32>,
>
    decreases ds,
{
    Seq::new(
        ds.len(),
        |i: int|
            if 0 <= i < ds.len() {
                FunDeclV {
                    name: ds[i].name,
                    parameters: ds[i].parameters,
                    body: tag_spec(ds[i].body, t + total(decl_nodes(ds), i)),
                    ann: group,
                }
            } else {
                arbitrary()
            },
    )
}

/// `e` with its nodes tagged `t + 1`, `t + 2`, and so on: a node before the nodes
/// below it, and those from left to right.
pub open spec fn tag_spec<A>(e: ExpV<A>, t: nat) -> ExpV<u32>
    decreases e,
{
    let here = (t + 1) as u32;
    match e {
        ExpV::Num(n, _) => ExpV::Num(n, here),
        ExpV::Bool(b, _) => ExpV::Bool(b, here),
        ExpV::Var(x, _) => ExpV::Var(x, here),
        ExpV::Prim(p, es, _) => ExpV::Prim(p, tag_operands(es, t + 1), here),
        ExpV::Let { bindings, body, .. } => ExpV::Let {
            bindings: tag_bindings(bindings, t + 1),
            body: Box::new(
                tag_spec(*body, t + 1 + total(binding_nodes(bindings), bindings.len() as int)),
            ),
            ann: here,
        },
        ExpV::If { cond, thn, els, .. } => ExpV::If {
            cond: Box::new(tag_spec(*cond, t + 1)),
            thn: Box::new(tag_spec(*thn, t + 1 + nodes(*cond))),
            els: Box::new(tag_spec(*els, t + 1 + nodes(*cond) + nodes(*thn))),
            ann: here,
        },
        ExpV::FunDefs { decls, body, .. } => ExpV::FunDefs {
            decls: tag_group(decls, t + 1, here),
            body: Box::new(tag_spec(*body, t + 1 + total(decl_nodes(decls), decls.len() as int))),
            ann: here,
        },
        ExpV::Call(f, args, _) => ExpV::Call(f, tag_operands(args, t + 1), here),
        ExpV::InternalTailCall(f, args, _) => ExpV::InternalTailCall(
            f,
            tag_operands(args, t + 1),
            here,
        ),
        ExpV::ExternalCall { fun_name, args, is_tail, .. } => ExpV::ExternalCall {
            fun_name: fun_name,
            args: tag_operands(args, t + 1),
            is_tail: is_tail,
            ann: here,
        },
    }
}

/// The top-level functions, their bodies tagged one after the other with the numbers
/// after `t`; each function is annotated with the last tag of its body.
pub open spec fn tag_funs<A>(ds: Seq<FunDeclV<ExpV<A>, A>>, t: nat) -> Seq<FunDeclV<ExpV<u32>, u32>> {
    Seq::new(
        ds.len(),
        |i: int|
            FunDeclV {
                name: ds[i].name,
                parameters: ds[i].parameters,
                body: tag_spec(ds[i].body, t + total(decl_nodes(ds), i)),
                ann: (t + total(decl_nodes(ds), i + 1)) as u32,
            },
    )
}

/// The tagged form of a lifted program: the functions first, from tag 1, then the main
/// expression.
pub open spec fn tag_prog_spec(ds: Seq<FunDeclV<ExpV<()>, ()>>, main: ExpV<()>) -> (
    Seq<FunDeclV<ExpV<u32>, u32>>,
    ExpV<u32>,
) {
    (tag_funs(ds, 0), tag_spec(main, total(decl_nodes(ds), ds.len() as int)))
}

/// The number of nodes of a lifted program.
pub open spec fn prog_nodes(ds: Seq<FunDeclV<ExpV<()>, ()>>, main: ExpV<()>) -> nat {
    total(decl_nodes(ds), ds.len() as int) + nodes(main)
}

/// Tags the nodes of `e` with the numbers after `*tag`, and leaves the last one used
/// in `*tag`.
pub fn tag_exp<Ann>(e: &Exp<Ann>, tag: &mut u32) -> (r: Exp<u32>)
    requires
        *old(tag) + nodes(e@) <= u32::MAX,
    ensures
        *final(tag) == *old(tag) + nodes(e@),
        r@ == tag_spec(e@, *old(tag) as nat),
    decreases e,
{
    *tag = *tag + 1;
    let cur_tag: u32 = *tag;
    match e {
        Exp::Num(n, _) => Exp::Num(*n, cur_tag),
        Exp::Bool(b, _) => Exp::Bool(*b, cur_tag),
        Exp::Var(x, _) => Exp::Var(x.clone(), cur_tag),
        Exp::Prim(p, es, _) => {
            assert(e@->Prim_1 == boxed_exps_view(es@));
            let out = tag_boxed(es, tag);
            Exp::Prim(*p, out, cur_tag)
        },
        Exp::Let { bindings, body, .. } => {
            assert(e@->Let_bindings == bindings_view(bindings@));
            let out = tag_let(bindings, tag);
            let b = tag_exp(body, tag);
            Exp::Let { bindings: out, body: Box::new(b), ann: cur_tag }
        },
        Exp::If { cond, thn, els, .. } => {
            let c = tag_exp(cond, tag);
            let t = tag_exp(thn, tag);
            let f = tag_exp(els, tag);
            Exp::If { cond: Box::new(c), thn: Box::new(t), els: Box::new(f), ann: cur_tag }
        },
        Exp::FunDefs { decls, body, .. } => {
            assert(e@->FunDefs_decls == decls_view(decls@));
            let out = tag_local_decls(decls, tag, cur_tag);
            let b = tag_exp(body, tag);
            Exp::FunDefs { decls: out, body: Box::new(b), ann: cur_tag }
        },
        Exp::Call(f, args, _) => {
            assert(e@->Call_1 == exps_view(args@));
            let out = tag_args(args, tag);
            Exp::Call(f.clone(), out, cur_tag)
        },
        Exp::InternalTailCall(f, args, _) => {
            assert(e@->InternalTailCall_1 == exps_view(args@));
            let out = tag_args(args, tag);
            Exp::InternalTailCall(f.clone(), out, cur_tag)
        },
        Exp::ExternalCall { fun_name, args, is_tail, .. } => {
            assert(e@->ExternalCall_args == exps_view(args@));
            let out = tag_args(args, tag);
            Exp::ExternalCall {
                fun_name: fun_name.clone(),
                args: out,
                is_tail: *is_tail,
                ann: cur_tag,
            }
        },
    }
}

fn tag_boxed<Ann>(es: &Vec<Box<Exp<Ann>>>, tag: &mut u32) -> (r: Vec<Box<Exp<u32>>>)
    requires
        *old(tag) + total(operand_nodes(boxed_exps_view(es@)), es.len() as int) <= u32::MAX,
    ensures
        *final(tag) == *old(tag) + total(operand_nodes(boxed_exps_view(es@)), es.len() as int),
        boxed_exps_view(r@) == tag_operands(boxed_exps_view(es@), *old(tag) as nat),
    decreases es,
{
    let ghost ev = boxed_exps_view(es@);
    let ghost sizes = operand_nodes(ev);
    let ghost goal = tag_operands(ev, *old(tag) as nat);
    let mut out: Vec<Box<Exp<u32>>> = Vec::new();
    assert(boxed_exps_view(out@) =~= goal.take(0));
    let mut i: usize = 0;
    while i < es.len()
        invariant
            i <= es.len(),
            ev == boxed_exps_view(es@),
            sizes == operand_nodes(ev),
            goal == tag_operands(ev, *old(tag) as nat),
            *old(tag) + total(sizes, es.len() as int) <= u32::MAX,
            *tag == *old(tag) + total(sizes, i as int),
            boxed_exps_view(out@) == goal.take(i as int),
        decreases es.len() - i,
    {
        proof {
            lemma_total_mono(sizes, i + 1, es.len() as int);
        }
        assert(ev[i as int] == es[i as int]@);
        let x = Box::new(tag_exp(&es[i], tag));
        proof {
            lemma_boxed_exps_view_push(out@, x);
            assert(goal.take(i as int).push((*x)@) =~= goal.take(i + 1));
        }
        out.push(x);
        i += 1;
    }
    assert(goal.take(es.len() as int) =~= goal);
    out
}

fn tag_args<Ann>(es: &Vec<Exp<Ann>>, tag: &mut u32) -> (r: Vec<Exp<u32>>)
    requires
        *old(tag) + total(operand_nodes(exps_view(es@)), es.len() as int) <= u32::MAX,
    ensures
        *final(tag) == *old(tag) + total(operand_nodes(exps_view(es@)), es.len() as int),
        exps_view(r@) == tag_operands(exps_view(es@), *old(tag) as nat),
    decreases es,
{
    let ghost ev = exps_view(es@);
    let ghost sizes = operand_nodes(ev);
    let ghost goal = tag_operands(ev, *old(tag) as nat);
    let mut out: Vec<Exp<u32>> = Vec::new();
    assert(exps_view(out@) =~= goal.take(0));
    let mut i: usize = 0;
    while i < es.len()
        invariant
            i <= es.len(),
            ev == exps_view(es@),
            sizes == operand_nodes(ev),
            goal == tag_operands(ev, *old(tag) as nat),
            *old(tag) + total(sizes, es.len() as int) <= u32::MAX,
            *tag == *old(tag) + total(sizes, i as int),
            exps_view(out@) == goal.take(i as int),
        decreases es.len() - i,
    {
        proof {
            lemma_total_mono(sizes, i + 1, es.len() as int);
        }
        assert(ev[i as int] == es[i as int]@);
        let x = tag_exp(&es[i], tag);
        proof {
            lemma_exps_view_push(out@, x);
            assert(goal.take(i as int).push(x@) =~= goal.take(i + 1));
        }
        out.push(x);
        i += 1;
    }
    assert(goal.take(es.len() as int) =~= goal);
    out
}

fn tag_let<Ann>(bs: &Vec<(String, Exp<Ann>)>, tag: &mut u32) -> (r: Vec<(String, Exp<u32>)>)
    requires
        *old(tag) + total(binding_nodes(bindings_view(bs@)), bs.len() as int) <= u32::MAX,
    ensures
        *final(tag) == *old(tag) + total(binding_nodes(bindings_view(bs@)), bs.len() as int),
        bindings_view(r@) == tag_bindings(bindings_view(bs@), *old(tag) as nat),
    decreases bs,
{
    let ghost bv = bindings_view(bs@);
    let ghost sizes = binding_nodes(bv);
    let ghost goal = tag_bindings(bv, *old(tag) as nat);
    let mut out: Vec<(String, Exp<u32>)> = Vec::new();
    assert(bindings_view(out@) =~= goal.take(0));
    let mut i: usize = 0;
    while i < bs.len()
        invariant
            i <= bs.len(),
            bv == bindings_view(bs@),
            sizes == binding_nodes(bv),
            goal == tag_bindings(bv, *old(tag) as nat),
            *old(tag) + total(sizes, bs.len() as int) <= u32::MAX,
            *tag == *old(tag) + total(sizes, i as int),
            bindings_view(out@) == goal.take(i as int),
        decreases bs.len() - i,
    {
        proof {
            lemma_total_mono(sizes, i + 1, bs.len() as int);
        }
        assert(bv[i as int].1 == bs[i as int].1@);
        assert(bv[i as int].0 == bs[i as int].0@);
        let x = (bs[i].0.clone(), tag_exp(&bs[i].1, tag));
        proof {
            lemma_bindings_view_push(out@, x);
            assert(goal.take(i as int).push((x.0@, x.1@)) =~= goal.take(i + 1));
        }
        out.push(x);
        i += 1;
    }
    assert(goal.take(bs.len() as int) =~= goal);
    out
}

fn tag_local_decls<Ann>(ds: &Vec<FunDecl<Exp<Ann>, Ann>>, tag: &mut u32, group: u32) -> (r: Vec<
    FunDecl<Exp<u32>, u32>,
>)
    requires
        *old(tag) + total(decl_nodes(decls_view(ds@)), ds.len() as int) <= u32::MAX,
    ensures
        *final(tag) == *old(tag) + total(decl_nodes(decls_view(ds@)), ds.len() as int),
        decls_view(r@) == tag_group(decls_view(ds@), *old(tag) as nat, group),
    decreases ds,
{
    let ghost dv = decls_view(ds@);
    let ghost sizes = decl_nodes(dv);
    let ghost goal = tag_group(dv, *old(tag) as nat, group);
    let mut out: Vec<FunDecl<Exp<u32>, u32>> = Vec::new();
    assert(decls_view(out@) =~= goal.take(0));
    let mut i: usize = 0;
    while i < ds.len()
        invariant
            i <= ds.len(),
            dv == decls_view(ds@),
            sizes == decl_nodes(dv),
            goal == tag_group(dv, *old(tag) as nat, group),
            *old(tag) + total(sizes, ds.len() as int) <= u32::MAX,
            *tag == *old(tag) + total(sizes, i as int),
            decls_view(out@) == goal.take(i as int),
        decreases ds.len() - i,
    {
        proof {
            lemma_total_mono(sizes, i + 1, ds.len() as int);
        }
        assert(dv[i as int].body == ds[i as int].body@);
        assert(dv[i as int].name == ds[i as int].name@);
        assert(dv[i as int].parameters == names_of(ds[i as int].parameters@));
        let x = FunDecl {
            name: ds[i].name.clone(),
            parameters: clone_names(&ds[i].parameters),
            body: tag_exp(&ds[i].body, tag),
            ann: group,
        };
        proof {
            lemma_decls_view_push(out@, x);
            assert(goal.take(i as int).push(x@) =~= goal.take(i + 1));
        }
        out.push(x);
        i += 1;
    }
    assert(goal.take(ds.len() as int) =~= goal);
    out
}

/// Tags the bodies of top-level functions with the numbers after `*tag`; each function
/// is annotated with the last tag of its body.
pub fn tag_fundecl(defs: &Vec<FunDecl<Exp<()>, ()>>, tag: &mut u32) -> (r: Vec<
    FunDecl<Exp<u32>, u32>,
>)
    requires
        *old(tag) + total(decl_nodes(decls_view(defs@)), defs.len() as int) <= u32::MAX,
    ensures
        *final(tag) == *old(tag) + total(decl_nodes(decls_view(defs@)), defs.len() as int),
        decls_view(r@) == tag_funs(decls_view(defs@), *old(tag) as nat),
{
    let ghost dv = decls_view(defs@);
    let ghost sizes = decl_nodes(dv);
    let ghost goal = tag_funs(dv, *old(tag) as nat);
    let mut out: Vec<FunDecl<Exp<u32>, u32>> = Vec::new();
    assert(decls_view(out@) =~= goal.take(0));
    let mut i: usize = 0;
    while i < defs.len()
        invariant
            i <= defs.len(),
            dv == decls_view(defs@),
            sizes == decl_nodes(dv),
            goal == tag_funs(dv, *old(tag) as nat),
            *old(tag) + total(sizes, defs.len() as int) <= u32::MAX,
            *tag == *old(tag) + total(sizes, i as int),
            decls_view(out@) == goal.take(i as int),
        decreases defs.len() - i,
    {
        proof {
            lemma_total_mono(sizes, i + 1, defs.len() as int);
        }
        assert(dv[i as int].body == defs[i as int].body@);
        assert(dv[i as int].name == defs[i as int].name@);
        assert(dv[i as int].parameters == names_of(defs[i as int].parameters@));
        let body = tag_exp(&defs[i].body, tag);
        let x = FunDecl {
            name: defs[i].name.clone(),
            parameters: clone_names(&defs[i].parameters),
            body: body,
            ann: *tag,
        };
        proof {
            lemma_decls_view_push(out@, x);
            assert(goal.take(i as int).push(x@) =~= goal.take(i + 1));
        }
        out.push(x);
        i += 1;
    }
    assert(goal.take(defs.len() as int) =~= goal);
    out
}

/// Tags a lifted program: the functions first, from tag 1, then the main expression.
pub fn tag_prog(defs: &Vec<FunDecl<Exp<()>, ()>>, main: &Exp<()>) -> (r: (
    Vec<FunDecl<Exp<u32>, u32>>,
    Exp<u32>,
))
    requires
        prog_nodes(decls_view(defs@), main@) <= u32::MAX,
    ensures
        decls_view(r.0@) == tag_prog_spec(decls_view(defs@), main@).0,
        r.1@ == tag_prog_spec(decls_view(defs@), main@).1,
{
    let mut tag: u32 = 0;
    let tagged_defs = tag_fundecl(defs, &mut tag);
    let tagged_main = tag_exp(main, &mut tag);
    (tagged_defs, tagged_main)
}

/// The number of nodes of the body of each sequential declaration.
pub open spec fn seq_decl_nodes<A>(ds: Seq<FunDeclV<SeqExpV<A>, A>>) -> Seq<nat>
    decreases ds,
{
    Seq::new(
        ds.len(),
        |i: int|
            if 0 <= i < ds.len() {
                seq_nodes(ds[i].body)
            } else {
                0
            },
    )
}

/// The number of nodes of the sequential expression `e`.
pub open spec fn seq_nodes<A>(e: SeqExpV<A>) -> nat
    decreases e,
{
    match e {
        SeqExpV::Let { bound_exp, body, .. } => 1 + seq_nodes(*bound_exp) + seq_nodes(*body),
        SeqExpV::If { thn, els, .. } => 1 + seq_nodes(*thn) + seq_nodes(*els),
        SeqExpV::FunDefs { decls, body, .. } => 1 + total(
            seq_decl_nodes(decls),
            decls.len() as int,
        ) + seq_nodes(*body),
        _ => 1,
    }
}

/// The declarations of a list, their bodies tagged one after the other with the
/// numbers after `t`; each declaration is annotated with the number before the first
/// tag of its body.
pub open spec fn tag_seq_decls<A>(ds: Seq<FunDeclV<SeqExpV<A>, A>>, t: nat) -> Seq<
    FunDeclV<SeqExpV<u32>, u32>,
>
    decreases ds,
{
    Seq::new(
        ds.len(),
        |i: int|
            if 0 <= i < ds.len() {
                FunDeclV {
                    name: ds[i].name,
                    parameters: ds[i].parameters,
                    body: tag_seq_spec(ds[i].body, t + total(seq_decl_nodes(ds), i)),
                    ann: (t + total(seq_decl_nodes(ds), i)) as u32,
                }
            } else {
                arbitrary()
            },
    )
}

/// The sequential expression `e` with its nodes tagged `t + 1`, `t + 2`, and so on: a
/// node before the nodes below it, and those from left to right.
pub open spec fn tag_seq_spec<A>(e: SeqExpV<A>, t: nat) -> SeqExpV<u32>
    decreases e,
{
    let here = (t + 1) as u32;
    match e {
        SeqExpV::Imm(i, _) => SeqExpV::Imm(i, here),
        SeqExpV::Prim(p, is, _) => SeqExpV::Prim(p, is, here),
        SeqExpV::Let { var, bound_exp, body, .. } => SeqExpV::Let {
            var: var,
            bound_exp: Box::new(tag_seq_spec(*bound_exp, t + 1)),
            body: Box::new(tag_seq_spec(*body, t + 1 + seq_nodes(*bound_exp))),
            ann: here,
        },
        SeqExpV::If { cond, thn, els, .. } => SeqExpV::If {
            cond: cond,
            thn: Box::new(tag_seq_spec(*thn, t + 1)),
            els: Box::new(tag_seq_spec(*els, t + 1 + seq_nodes(*thn))),
            ann: here,
        },
        SeqExpV::FunDefs { decls, body, .. } => SeqExpV::FunDefs {
            decls: tag_seq_decls(decls, t + 1),
            body: Box::new(
                tag_seq_spec(*body, t + 1 + total(seq_decl_nodes(decls), decls.len() as int)),
            ),
            ann: here,
        },
        SeqExpV::InternalTailCall(f, args, _) => SeqExpV::InternalTailCall(f, args, here),
        SeqExpV::ExternalCall { fun_name, args, is_tail, .. } => SeqExpV::ExternalCall {
            fun_name: fun_name,
            args: args,
            is_tail: is_tail,
            ann: here,
        },
    }
}

/// The number of nodes of a sequential program.
pub open spec fn sprog_nodes<A>(p: SeqProgV<A>) -> nat {
    total(seq_decl_nodes(p.funs), p.funs.len() as int) + seq_nodes(p.main)
}

/// The tagged form of a sequential program: the functions first, from tag 2, then the
/// main expression; the program itself is annotated with 0.
pub open spec fn tag_sprog_spec<A>(p: SeqProgV<A>) -> SeqProgV<u32> {
    SeqProgV {
        funs: tag_seq_decls(p.funs, 1),
        main: tag_seq_spec(p.main, 1 + total(seq_decl_nodes(p.funs), p.funs.len() as int)),
        ann: 0,
    }
}

fn copy_imms(is: &Vec<ImmExp>) -> (r: Vec<ImmExp>)
    ensures
        imms_view(r@) == imms_view(is@),
{
    let mut out: Vec<ImmExp> = Vec::new();
    let mut i: usize = 0;
    assert(imms_view(out@) =~= imms_view(is@).take(0));
    while i < is.len()
        invariant
            i <= is.len(),
            imms_view(out@) == imms_view(is@).take(i as int),
        decreases is.len() - i,
    {
        let c = copy_imm(&is[i]);
        proof {
            lemma_imms_view_push(out@, c);
            assert(imms_view(is@)[i as int] == is[i as int]@);
            assert(imms_view(is@).take(i as int).push(c@) =~= imms_view(is@).take(i + 1));
        }
        out.push(c);
        i += 1;
    }
    assert(imms_view(is@).take(is.len() as int) =~= imms_view(is@));
    out
}

fn copy_imm(i: &ImmExp) -> (r: ImmExp)
    ensures
        r@ == i@,
{
    match i {
        ImmExp::Num(n) => ImmExp::Num(*n),
        ImmExp::Bool(b) => ImmExp::Bool(*b),
        ImmExp::Var(x) => ImmExp::Var(x.clone()),
    }
}

/// Tags the nodes of `seq_e` with the numbers after `*tag`, and leaves the last one
/// used in `*tag`.
pub fn tag_seq_exp(seq_e: &SeqExp<()>, tag: &mut u32) -> (r: SeqExp<u32>)
    requires
        *old(tag) + seq_nodes(seq_e@) <= u32::MAX,
    ensures
        *final(tag) == *old(tag) + seq_nodes(seq_e@),
        r@ == tag_seq_spec(seq_e@, *old(tag) as nat),
    decreases seq_e,
{
    *tag = *tag + 1;
    let cur_tag: u32 = *tag;
    match seq_e {
        SeqExp::Imm(i, _) => SeqExp::Imm(copy_imm(i), cur_tag),
        SeqExp::Prim(p, is, _) => SeqExp::Prim(*p, copy_imms(is), cur_tag),
        SeqExp::Let { var, bound_exp, body, .. } => {
            let b = tag_seq_exp(bound_exp, tag);
            let r = tag_seq_exp(body, tag);
            SeqExp::Let { var: var.clone(), bound_exp: Box::new(b), body: Box::new(r), ann: cur_tag }
        },
        SeqExp::If { cond, thn, els, .. } => {
            let t = tag_seq_exp(thn, tag);
            let f = tag_seq_exp(els, tag);
            SeqExp::If { cond: copy_imm(cond), thn: Box::new(t), els: Box::new(f), ann: cur_tag }
        },
        SeqExp::FunDefs { decls, body, .. } => {
            assert(seq_e@->FunDefs_decls == seq_decls_view(decls@));
            let out = tag_seq_fundecls(decls, tag);
            let b = tag_seq_exp(body, tag);
            SeqExp::FunDefs { decls: out, body: Box::new(b), ann: cur_tag }
        },
        SeqExp::InternalTailCall(f, args, _) => SeqExp::InternalTailCall(
            f.clone(),
            copy_imms(args),
            cur_tag,
        ),
        SeqExp::ExternalCall { fun_name, args, is_tail, .. } => SeqExp::ExternalCall {
            fun_name: fun_name.clone(),
            args: copy_imms(args),
            is_tail: *is_tail,
            ann: cur_tag,
        },
    }
}

fn tag_seq_fundecls(ds: &Vec<FunDecl<SeqExp<()>, ()>>, tag: &mut u32) -> (r: Vec<
    FunDecl<SeqExp<u32>, u32>,
>)
    requires
        *old(tag) + total(seq_decl_nodes(seq_decls_view(ds@)), ds.len() as int) <= u32::MAX,
    ensures
        *final(tag) == *old(tag) + total(seq_decl_nodes(seq_decls_view(ds@)), ds.len() as int),
        seq_decls_view(r@) == tag_seq_decls(seq_decls_view(ds@), *old(tag) as nat),
    decreases ds,
{
    let ghost dv = seq_decls_view(ds@);
    let ghost sizes = seq_decl_nodes(dv);
    let ghost goal = tag_seq_decls(dv, *old(tag) as nat);
    let mut out: Vec<FunDecl<SeqExp<u32>, u32>> = Vec::new();
    assert(seq_decls_view(out@) =~= goal.take(0));
    let mut i: usize = 0;
    while i < ds.len()
        invariant
            i <= ds.len(),
            dv == seq_decls_view(ds@),
            sizes == seq_decl_nodes(dv),
            goal == tag_seq_decls(dv, *old(tag) as nat),
            *old(tag) + total(sizes, ds.len() as int) <= u32::MAX,
            *tag == *old(tag) + total(sizes, i as int),
            seq_decls_view(out@) == goal.take(i as int),
        decreases ds.len() - i,
    {
        proof {
            lemma_total_mono(sizes, i + 1, ds.len() as int);
        }
        assert(dv[i as int].body == ds[i as int].body@);
        assert(dv[i as int].name == ds[i as int].name@);
        assert(dv[i as int].parameters == names_of(ds[i as int].parameters@));
        let decl_tag: u32 = *tag;
        let x = FunDecl {
            name: ds[i].name.clone(),
            parameters: clone_names(&ds[i].parameters),
            body: tag_seq_exp(&ds[i].body, tag),
            ann: decl_tag,
        };
        proof {
            lemma_seq_decls_view_push(out@, x);
            assert(goal.take(i as int).push(x@) =~= goal.take(i + 1));
        }
        out.push(x);
        i += 1;
    }
    assert(goal.take(ds.len() as int) =~= goal);
    out
}

/// Tags a sequential program: the functions first, from tag 2, then the main
/// expression.
pub fn tag_sprog(p: &SeqProg<()>) -> (r: SeqProg<u32>)
    requires
        1 + sprog_nodes(p@) <= u32::MAX,
    ensures
        r@ == tag_sprog_spec(p@),
{
    let mut tag: u32 = 1;
    let new_funs = tag_seq_fundecls(&p.funs, &mut tag);
    let main = tag_seq_exp(&p.main, &mut tag);
    SeqProg { funs: new_funs, main: main, ann: 0 }
}

/// Two groups that declare the same names with the same numbers of parameters put
/// the same functions in scope.
pub proof fn lemma_with_group_same<E, A, F, B>(
    funs: Map<Seq<char>, nat>,
    ds: Seq<FunDeclV<E, A>>,
    es: Seq<FunDeclV<F, B>>,
    n: int,
)
    requires
        ds.len() == es.len(),
        forall|i: int|
            0 <= i < ds.len() ==> (#[trigger] ds[i]).name == es[i].name && ds[i].parameters.len()
                == es[i].parameters.len(),
    ensures
        with_group(funs, ds, n) == with_group(funs, es, n),
    decreases n,
{
    if 0 < n <= ds.len() {
        lemma_with_group_same(funs, ds, es, n - 1);
        assert(ds[n - 1].name == es[n - 1].name);
    }
}

/// Tagging keeps a well-formed expression well formed.
pub proof fn lemma_tag_well_formed<S>(
    e: ExpV<S>,
    t: nat,
    vars: Set<Seq<char>>,
    funs: Map<Seq<char>, nat>,
)
    requires
        well_formed(e, vars, funs),
    ensures
        well_formed(tag_spec(e, t), vars, funs),
    decreases e,
{
    match e {
        ExpV::Num(..) | ExpV::Bool(..) | ExpV::Var(..) => {},
        ExpV::Prim(_, es, _) => {
            let out = tag_operands(es, t + 1);
            assert forall|i: int| 0 <= i < out.len() implies well_formed(
                #[trigger] out[i],
                vars,
                funs,
            ) by {
                assert(well_formed(es[i], vars, funs));
                lemma_tag_well_formed(es[i], t + 1 + total(operand_nodes(es), i), vars, funs);
            }
        },
        ExpV::Let { bindings, body, .. } => {
            let out = tag_bindings(bindings, t + 1);
            let names = binding_names(bindings);
            assert(binding_names(out) =~= names);
            assert forall|i: int| 0 <= i < out.len() implies well_formed(
                (#[trigger] out[i]).1,
                vars.union(names.take(i).to_set()),
                funs,
            ) by {
                assert(well_formed(bindings[i].1, vars.union(names.take(i).to_set()), funs));
                lemma_tag_well_formed(
                    bindings[i].1,
                    t + 1 + total(binding_nodes(bindings), i),
                    vars.union(names.take(i).to_set()),
                    funs,
                );
            }
            lemma_tag_well_formed(
                *body,
                t + 1 + total(binding_nodes(bindings), bindings.len() as int),
                vars.union(names.to_set()),
                funs,
            );
        },
        ExpV::If { cond, thn, els, .. } => {
            lemma_tag_well_formed(*cond, t + 1, vars, funs);
            lemma_tag_well_formed(*thn, t + 1 + nodes(*cond), vars, funs);
            lemma_tag_well_formed(*els, t + 1 + nodes(*cond) + nodes(*thn), vars, funs);
        },
        ExpV::FunDefs { decls, body, .. } => {
            let out = tag_group(decls, t + 1, (t + 1) as u32);
            assert(group_names(out) =~= group_names(decls));
            let inner = with_group(funs, decls, decls.len() as int);
            lemma_with_group_same(funs, decls, out, decls.len() as int);
            assert forall|i: int| 0 <= i < out.len() implies (
            #[trigger] out[i]).parameters.no_duplicates() by {
                assert(decls[i].parameters.no_duplicates());
            }
            assert forall|i: int| 0 <= i < out.len() implies well_formed(
                (#[trigger] out[i]).body,
                vars.union(out[i].parameters.to_set()),
                inner,
            ) by {
                assert(well_formed(decls[i].body, vars.union(decls[i].parameters.to_set()), inner));
                lemma_tag_well_formed(
                    decls[i].body,
                    t + 1 + total(decl_nodes(decls), i),
                    vars.union(decls[i].parameters.to_set()),
                    inner,
                );
            }
            lemma_tag_well_formed(
                *body,
                t + 1 + total(decl_nodes(decls), decls.len() as int),
                vars,
                inner,
            );
        },
        ExpV::Call(_, args, _) => {
            let out = tag_operands(args, t + 1);
            assert forall|i: int| 0 <= i < out.len() implies well_formed(
                #[trigger] out[i],
                vars,
                funs,
            ) by {
                assert(well_formed(args[i], vars, funs));
                lemma_tag_well_formed(args[i], t + 1 + total(operand_nodes(args), i), vars, funs);
            }
        },
        ExpV::InternalTailCall(..) | ExpV::ExternalCall { .. } => {},
    }
}

/// Tagging keeps the number of operands of every primitive operation.
pub proof fn lemma_tag_prims_saturated<S>(e: ExpV<S>, t: nat)
    requires
        e.prims_saturated(),
    ensures
        tag_spec(e, t).prims_saturated(),
    decreases e,
{
    match e {
        ExpV::Num(..) | ExpV::Bool(..) | ExpV::Var(..) => {},
        ExpV::Prim(_, es, _) => {
            let out = tag_operands(es, t + 1);
            assert forall|i: int| 0 <= i < out.len() implies (#[trigger] out[i]).prims_saturated() by {
                assert(es[i].prims_saturated());
                lemma_tag_prims_saturated(es[i], t + 1 + total(operand_nodes(es), i));
            }
        },
        ExpV::Let { bindings, body, .. } => {
            let out = tag_bindings(bindings, t + 1);
            assert forall|i: int| 0 <= i < out.len() implies (
            #[trigger] out[i]).1.prims_saturated() by {
                assert(bindings[i].1.prims_saturated());
                lemma_tag_prims_saturated(bindings[i].1, t + 1 + total(binding_nodes(bindings), i));
            }
            lemma_tag_prims_saturated(
                *body,
                t + 1 + total(binding_nodes(bindings), bindings.len() as int),
            );
        },
        ExpV::If { cond, thn, els, .. } => {
            lemma_tag_prims_saturated(*cond, t + 1);
            lemma_tag_prims_saturated(*thn, t + 1 + nodes(*cond));
            lemma_tag_prims_saturated(*els, t + 1 + nodes(*cond) + nodes(*thn));
        },
        ExpV::FunDefs { decls, body, .. } => {
            let out = tag_group(decls, t + 1, (t + 1) as u32);
            assert forall|i: int| 0 <= i < out.len() implies (
            #[trigger] out[i]).body.prims_saturated() by {
                assert(decls[i].body.prims_saturated());
                lemma_tag_prims_saturated(decls[i].body, t + 1 + total(decl_nodes(decls), i));
            }
            lemma_tag_prims_saturated(*body, t + 1 + total(decl_nodes(decls), decls.len() as int));
        },
        ExpV::Call(_, args, _) => {
            let out = tag_operands(args, t + 1);
            assert forall|i: int| 0 <= i < out.len() implies (#[trigger] out[i]).prims_saturated() by {
                assert(args[i].prims_saturated());
                lemma_tag_prims_saturated(args[i], t + 1 + total(operand_nodes(args), i));
            }
        },
        ExpV::InternalTailCall(_, args, _) => {
            let out = tag_operands(args, t + 1);
            assert forall|i: int| 0 <= i < out.len() implies (#[trigger] out[i]).prims_saturated() by {
                assert(args[i].prims_saturated());
                lemma_tag_prims_saturated(args[i], t + 1 + total(operand_nodes(args), i));
            }
        },
        ExpV::ExternalCall { args, .. } => {
            let out = tag_operands(args, t + 1);
            assert forall|i: int| 0 <= i < out.len() implies (#[trigger] out[i]).prims_saturated() by {
                assert(args[i].prims_saturated());
                lemma_tag_prims_saturated(args[i], t + 1 + total(operand_nodes(args), i));
            }
        },
    }
}

/// Tagging keeps a closed lifted expression closed.
pub proof fn lemma_tag_lifted_ok<S>(e: ExpV<S>, t: nat, vars: Set<Seq<char>>)
    requires
        lifted_ok(e, vars),
    ensures
        lifted_ok(tag_spec(e, t), vars),
    decreases e,
{
    match e {
        ExpV::Num(..) | ExpV::Bool(..) | ExpV::Var(..) | ExpV::Call(..) => {},
        ExpV::Prim(_, es, _) => {
            let out = tag_operands(es, t + 1);
            assert forall|i: int| 0 <= i < out.len() implies lifted_ok(#[trigger] out[i], vars) by {
                assert(lifted_ok(es[i], vars));
                lemma_tag_lifted_ok(es[i], t + 1 + total(operand_nodes(es), i), vars);
            }
        },
        ExpV::Let { bindings, body, .. } => {
            let out = tag_bindings(bindings, t + 1);
            let names = binding_names(bindings);
            assert(binding_names(out) =~= names);
            assert forall|i: int| 0 <= i < out.len() implies lifted_ok(
                (#[trigger] out[i]).1,
                vars.union(names.take(i).to_set()),
            ) by {
                assert(lifted_ok(bindings[i].1, vars.union(names.take(i).to_set())));
                lemma_tag_lifted_ok(
                    bindings[i].1,
                    t + 1 + total(binding_nodes(bindings), i),
                    vars.union(names.take(i).to_set()),
                );
            }
            lemma_tag_lifted_ok(
                *body,
                t + 1 + total(binding_nodes(bindings), bindings.len() as int),
                vars.union(names.to_set()),
            );
        },
        ExpV::If { cond, thn, els, .. } => {
            lemma_tag_lifted_ok(*cond, t + 1, vars);
            lemma_tag_lifted_ok(*thn, t + 1 + nodes(*cond), vars);
            lemma_tag_lifted_ok(*els, t + 1 + nodes(*cond) + nodes(*thn), vars);
        },
        ExpV::FunDefs { decls, body, .. } => {
            let out = tag_group(decls, t + 1, (t + 1) as u32);
            assert forall|i: int| 0 <= i < out.len() implies lifted_ok(
                (#[trigger] out[i]).body,
                out[i].parameters.to_set(),
            ) by {
                assert(lifted_ok(decls[i].body, decls[i].parameters.to_set()));
                lemma_tag_lifted_ok(
                    decls[i].body,
                    t + 1 + total(decl_nodes(decls), i),
                    decls[i].parameters.to_set(),
                );
            }
            lemma_tag_lifted_ok(*body, t + 1 + total(decl_nodes(decls), decls.len() as int), vars);
        },
        ExpV::InternalTailCall(_, args, _) => {
            let out = tag_operands(args, t + 1);
            assert forall|i: int| 0 <= i < out.len() implies lifted_ok(#[trigger] out[i], vars) by {
                assert(lifted_ok(args[i], vars));
                lemma_tag_lifted_ok(args[i], t + 1 + total(operand_nodes(args), i), vars);
            }
        },
        ExpV::ExternalCall { args, .. } => {
            let out = tag_operands(args, t + 1);
            assert forall|i: int| 0 <= i < out.len() implies lifted_ok(#[trigger] out[i], vars) by {
                assert(lifted_ok(args[i], vars));
                lemma_tag_lifted_ok(args[i], t + 1 + total(operand_nodes(args), i), vars);
            }
        },
    }
}

/// Tagging keeps a closed lifted program closed.
pub proof fn lemma_tag_prog_ok(ds: Seq<FunDeclV<ExpV<()>, ()>>, main: ExpV<()>)
    requires
        lifted_prog_ok(ds, main),
    ensures
        lifted_prog_ok(tag_prog_spec(ds, main).0, tag_prog_spec(ds, main).1),
{
    let out = tag_prog_spec(ds, main);
    lemma_tag_lifted_ok(main, total(decl_nodes(ds), ds.len() as int), Set::empty());
    assert forall|k: int| 0 <= k < out.0.len() implies lifted_ok(
        (#[trigger] out.0[k]).body,
        out.0[k].parameters.to_set(),
    ) by {
        assert(lifted_ok(ds[k].body, ds[k].parameters.to_set()));
        lemma_tag_lifted_ok(ds[k].body, total(decl_nodes(ds), k), ds[k].parameters.to_set());
    }
}

/// In a closed lifted expression every call is classified, and every primitive
/// operation has as many operands as it takes.
pub proof fn lemma_lifted_ok_shape<S>(e: ExpV<S>, vars: Set<Seq<char>>)
    requires
        lifted_ok(e, vars),
    ensures
        e.calls_classified(),
        e.prims_saturated(),
    decreases e,
{
    match e {
        ExpV::Num(..) | ExpV::Bool(..) | ExpV::Var(..) | ExpV::Call(..) => {},
        ExpV::Prim(_, es, _) => {
            assert forall|i: int| 0 <= i < es.len() implies (#[trigger] es[i]).calls_classified()
                && es[i].prims_saturated() by {
                lemma_lifted_ok_shape(es[i], vars);
            }
        },
        ExpV::Let { bindings, body, .. } => {
            let names = binding_names(bindings);
            assert forall|i: int| 0 <= i < bindings.len() implies (
            #[trigger] bindings[i]).1.calls_classified() && bindings[i].1.prims_saturated() by {
                lemma_lifted_ok_shape(bindings[i].1, vars.union(names.take(i).to_set()));
            }
            lemma_lifted_ok_shape(*body, vars.union(names.to_set()));
        },
        ExpV::If { cond, thn, els, .. } => {
            lemma_lifted_ok_shape(*cond, vars);
            lemma_lifted_ok_shape(*thn, vars);
            lemma_lifted_ok_shape(*els, vars);
        },
        ExpV::FunDefs { decls, body, .. } => {
            assert forall|i: int| 0 <= i < decls.len() implies (
            #[trigger] decls[i]).body.calls_classified() && decls[i].body.prims_saturated() by {
                lemma_lifted_ok_shape(decls[i].body, decls[i].parameters.to_set());
            }
            lemma_lifted_ok_shape(*body, vars);
        },
        ExpV::InternalTailCall(_, args, _) => {
            assert forall|i: int| 0 <= i < args.len() implies (#[trigger] args[i]).calls_classified()
                && args[i].prims_saturated() by {
                lemma_lifted_ok_shape(args[i], vars);
            }
        },
        ExpV::ExternalCall { args, .. } => {
            assert forall|i: int| 0 <= i < args.len() implies (#[trigger] args[i]).calls_classified()
                && args[i].prims_saturated() by {
                lemma_lifted_ok_shape(args[i], vars);
            }
        },
    }
}
} // verus!
