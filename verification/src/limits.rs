//! Counting what the machine limits: the nodes that get 32-bit tags, and what the
//! offsets in a frame depend on.

use vstd::prelude::*;
use crate::codegen::{decl_slots, decls_reach, reach, slots_needed};
use crate::lists::{lemma_total_mono, total};
use crate::names::names_of;
use crate::syntax::{
    Exp, FunDecl, SeqExp, bindings_view, boxed_exps_view, decls_view, exps_view, imms_view,
    seq_decls_view,
};
use crate::tag::{binding_nodes, decl_nodes, nodes, operand_nodes, seq_decl_nodes, seq_nodes};

verus! {

/// What is left of `budget` once `used` is taken from it, if that much is there.
pub open spec fn left_of(budget: u64, used: nat) -> Option<u64> {
    if used <= budget {
        Some((budget - used) as u64)
    } else {
        None
    }
}

/// Takes `n` from `budget`, if that much is there.
fn spend(budget: u64, n: usize) -> (r: Option<u64>)
    ensures
        r == left_of(budget, n as nat),
{
    if n as u64 <= budget {
        Some(budget - n as u64)
    } else {
        None
    }
}

/// Takes the number of nodes of `e` from `budget`, if that many are there.
pub fn take_nodes<A>(e: &Exp<A>, budget: u64) -> (r: Option<u64>)
    ensures
        r == left_of(budget, nodes(e@)),
    decreases e,
{
    if budget == 0 {
        return None;
    }
    let rest: u64 = budget - 1;
    match e {
        Exp::Num(..) | Exp::Bool(..) | Exp::Var(..) => Some(rest),
        Exp::Prim(_, es, _) => {
            assert(e@->Prim_1 == boxed_exps_view(es@));
            take_boxed_nodes(es, rest)
        },
        Exp::Let { bindings, body, .. } => {
            assert(e@->Let_bindings == bindings_view(bindings@));
            match take_binding_nodes(bindings, rest) {
                None => None,
                Some(left) => take_nodes(body, left),
            }
        },
        Exp::If { cond, thn, els, .. } => {
            match take_nodes(cond, rest) {
                None => None,
                Some(a) => match take_nodes(thn, a) {
                    None => None,
                    Some(b) => take_nodes(els, b),
                },
            }
        },
        Exp::FunDefs { decls, body, .. } => {
            assert(e@->FunDefs_decls == decls_view(decls@));
            match take_decl_nodes(decls, rest) {
                None => None,
                Some(left) => take_nodes(body, left),
            }
        },
        Exp::Call(_, args, _) => {
            assert(e@->Call_1 == exps_view(args@));
            take_arg_nodes(args, rest)
        },
        Exp::InternalTailCall(_, args, _) => {
            assert(e@->InternalTailCall_1 == exps_view(args@));
            take_arg_nodes(args, rest)
        },
        Exp::ExternalCall { args, .. } => {
            assert(e@->ExternalCall_args == exps_view(args@));
            take_arg_nodes(args, rest)
        },
    }
}

fn take_boxed_nodes<A>(es: &Vec<Box<Exp<A>>>, budget: u64) -> (r: Option<u64>)
    ensures
        r == left_of(budget, total(operand_nodes(boxed_exps_view(es@)), es.len() as int)),
    decreases es,
{
    let ghost ev = boxed_exps_view(es@);
    let ghost sizes = operand_nodes(ev);
    let mut left: u64 = budget;
    let mut i: usize = 0;
    while i < es.len()
        invariant
            i <= es.len(),
            ev == boxed_exps_view(es@),
            sizes == operand_nodes(ev),
            Some(left) == left_of(budget, total(sizes, i as int)),
        decreases es.len() - i,
    {
        assert(ev[i as int] == es[i as int]@);
        match take_nodes(&es[i], left) {
            None => {
                proof {
                    lemma_total_mono(sizes, i + 1, es.len() as int);
                }
                return None;
            },
            Some(rest) => {
                left = rest;
            },
        }
        i += 1;
    }
    Some(left)
}

fn take_arg_nodes<A>(es: &Vec<Exp<A>>, budget: u64) -> (r: Option<u64>)
    ensures
        r == left_of(budget, total(operand_nodes(exps_view(es@)), es.len() as int)),
    decreases es,
{
    let ghost ev = exps_view(es@);
    let ghost sizes = operand_nodes(ev);
    let mut left: u64 = budget;
    let mut i: usize = 0;
    while i < es.len()
        invariant
            i <= es.len(),
            ev == exps_view(es@),
            sizes == operand_nodes(ev),
            Some(left) == left_of(budget, total(sizes, i as int)),
        decreases es.len() - i,
    {
        assert(ev[i as int] == es[i as int]@);
        match take_nodes(&es[i], left) {
            None => {
                proof {
                    lemma_total_mono(sizes, i + 1, es.len() as int);
                }
                return None;
            },
            Some(rest) => {
                left = rest;
            },
        }
        i += 1;
    }
    Some(left)
}

fn take_binding_nodes<A>(bs: &Vec<(String, Exp<A>)>, budget: u64) -> (r: Option<u64>)
    ensures
        r == left_of(budget, total(binding_nodes(bindings_view(bs@)), bs.len() as int)),
    decreases bs,
{
    let ghost bv = bindings_view(bs@);
    let ghost sizes = binding_nodes(bv);
    let mut left: u64 = budget;
    let mut i: usize = 0;
    while i < bs.len()
        invariant
            i <= bs.len(),
            bv == bindings_view(bs@),
            sizes == binding_nodes(bv),
            Some(left) == left_of(budget, total(sizes, i as int)),
        decreases bs.len() - i,
    {
        assert(bv[i as int].1 == bs[i as int].1@);
        match take_nodes(&bs[i].1, left) {
            None => {
                proof {
                    lemma_total_mono(sizes, i + 1, bs.len() as int);
                }
                return None;
            },
            Some(rest) => {
                left = rest;
            },
        }
        i += 1;
    }
    Some(left)
}

/// Takes the number of nodes of the bodies of `ds` from `budget`, if that many are
/// there.
pub fn take_decl_nodes<A>(ds: &Vec<FunDecl<Exp<A>, A>>, budget: u64) -> (r: Option<u64>)
    ensures
        r == left_of(budget, total(decl_nodes(decls_view(ds@)), ds.len() as int)),
    decreases ds,
{
    let ghost dv = decls_view(ds@);
    let ghost sizes = decl_nodes(dv);
    let mut left: u64 = budget;
    let mut i: usize = 0;
    while i < ds.len()
        invariant
            i <= ds.len(),
            dv == decls_view(ds@),
            sizes == decl_nodes(dv),
            Some(left) == left_of(budget, total(sizes, i as int)),
        decreases ds.len() - i,
    {
        assert(dv[i as int].body == ds[i as int].body@);
        match take_nodes(&ds[i].body, left) {
            None => {
                proof {
                    lemma_total_mono(sizes, i + 1, ds.len() as int);
                }
                return None;
            },
            Some(rest) => {
                left = rest;
            },
        }
        i += 1;
    }
    Some(left)
}

/// Takes the number of nodes of `e` from `budget`, if that many are there.
pub fn take_seq_nodes<A>(e: &SeqExp<A>, budget: u64) -> (r: Option<u64>)
    ensures
        r == left_of(budget, seq_nodes(e@)),
    decreases e,
{
    if budget == 0 {
        return None;
    }
    let rest: u64 = budget - 1;
    match e {
        SeqExp::Let { bound_exp, body, .. } => {
            match take_seq_nodes(bound_exp, rest) {
                None => None,
                Some(left) => take_seq_nodes(body, left),
            }
        },
        SeqExp::If { thn, els, .. } => {
            match take_seq_nodes(thn, rest) {
                None => None,
                Some(left) => take_seq_nodes(els, left),
            }
        },
        SeqExp::FunDefs { decls, body, .. } => {
            assert(e@->FunDefs_decls == seq_decls_view(decls@));
            match take_seq_decl_nodes(decls, rest) {
                None => None,
                Some(left) => take_seq_nodes(body, left),
            }
        },
        _ => Some(rest),
    }
}

/// Takes the number of nodes of the bodies of `ds` from `budget`, if that many are
/// there.
pub fn take_seq_decl_nodes<A>(ds: &Vec<FunDecl<SeqExp<A>, A>>, budget: u64) -> (r: Option<u64>)
    ensures
        r == left_of(budget, total(seq_decl_nodes(seq_decls_view(ds@)), ds.len() as int)),
    decreases ds,
{
    let ghost dv = seq_decls_view(ds@);
    let ghost sizes = seq_decl_nodes(dv);
    let mut left: u64 = budget;
    let mut i: usize = 0;
    while i < ds.len()
        invariant
            i <= ds.len(),
            dv == seq_decls_view(ds@),
            sizes == seq_decl_nodes(dv),
            Some(left) == left_of(budget, total(sizes, i as int)),
        decreases ds.len() - i,
    {
        assert(dv[i as int].body == ds[i as int].body@);
        match take_seq_nodes(&ds[i].body, left) {
            None => {
                proof {
                    lemma_total_mono(sizes, i + 1, ds.len() as int);
                }
                return None;
            },
            Some(rest) => {
                left = rest;
            },
        }
        i += 1;
    }
    Some(left)
}

/// The number `n`, or `cap` where `n` is at least `cap`.
pub open spec fn capped(n: nat, cap: u64) -> u64 {
    if n >= cap {
        cap
    } else {
        n as u64
    }
}

fn more_of(a: u64, b: u64) -> (r: u64)
    ensures
        r == if a >= b {
            a
        } else {
            b
        },
{
    if a >= b {
        a
    } else {
        b
    }
}

fn capped_sum(a: u64, b: u64, cap: u64) -> (r: u64)
    requires
        a <= cap,
        b <= cap,
    ensures
        r == capped((a + b) as nat, cap),
{
    if a >= cap - b {
        cap
    } else {
        a + b
    }
}

fn capped_len(n: usize, cap: u64) -> (r: u64)
    ensures
        r == capped(n as nat, cap),
{
    if n as u64 >= cap {
        cap
    } else {
        n as u64
    }
}

/// The number of slots that `e` needs, counted up to `cap`.
#[verifier::loop_isolation(false)]
pub fn slots_upto<A>(e: &SeqExp<A>, cap: u64) -> (r: u64)
    ensures
        r == capped(slots_needed(e@), cap),
    decreases e,
{
    match e {
        SeqExp::Let { bound_exp, body, .. } => {
            let a: u64 = slots_upto(bound_exp, cap);
            let b: u64 = capped_sum(capped_len(1, cap), slots_upto(body, cap), cap);
            more_of(a, b)
        },
        SeqExp::If { thn, els, .. } => more_of(slots_upto(thn, cap), slots_upto(els, cap)),
        SeqExp::FunDefs { decls, body, .. } => {
            assert(e@->FunDefs_decls == seq_decls_view(decls@));
            let ghost dv = seq_decls_view(decls@);
            let mut most: u64 = 0;
            let mut k: usize = 0;
            while k < decls.len()
                invariant
                    k <= decls.len(),
                    dv == seq_decls_view(decls@),
                    most == capped(decl_slots(dv, k as int), cap),
                decreases decls.len() - k,
            {
                assert(dv[k as int].body == decls[k as int].body@);
                assert(dv[k as int].parameters == names_of(decls[k as int].parameters@));
                let own: u64 = capped_sum(
                    capped_len(decls[k].parameters.len(), cap),
                    slots_upto(&decls[k].body, cap),
                    cap,
                );
                most = more_of(most, own);
                k += 1;
            }
            capped_sum(most, slots_upto(body, cap), cap)
        },
        _ => 0,
    }
}

/// How far the code of `e` reaches, counted up to `cap`.
#[verifier::loop_isolation(false)]
pub fn reach_upto<A>(e: &SeqExp<A>, cap: u64) -> (r: u64)
    ensures
        r == capped(reach(e@), cap),
    decreases e,
{
    match e {
        SeqExp::Let { bound_exp, body, .. } => {
            let a: u64 = reach_upto(bound_exp, cap);
            let b: u64 = capped_sum(capped_len(1, cap), reach_upto(body, cap), cap);
            more_of(a, b)
        },
        SeqExp::If { thn, els, .. } => more_of(reach_upto(thn, cap), reach_upto(els, cap)),
        SeqExp::FunDefs { decls, body, .. } => {
            assert(e@->FunDefs_decls == seq_decls_view(decls@));
            let ghost dv = seq_decls_view(decls@);
            let mut most: u64 = 0;
            let mut k: usize = 0;
            while k < decls.len()
                invariant
                    k <= decls.len(),
                    dv == seq_decls_view(decls@),
                    most == capped(decls_reach(dv, k as int), cap),
                decreases decls.len() - k,
            {
                assert(dv[k as int].body == decls[k as int].body@);
                assert(dv[k as int].parameters == names_of(decls[k as int].parameters@));
                let own: u64 = capped_sum(
                    capped_len(decls[k].parameters.len(), cap),
                    reach_upto(&decls[k].body, cap),
                    cap,
                );
                most = more_of(most, own);
                k += 1;
            }
            more_of(most, reach_upto(body, cap))
        },
        SeqExp::InternalTailCall(_, args, _) => {
            assert(e@->InternalTailCall_1 == imms_view(args@));
            capped_len(args.len(), cap)
        },
        SeqExp::ExternalCall { args, .. } => {
            assert(e@->ExternalCall_args == imms_view(args@));
            capped_len(args.len(), cap)
        },
        _ => 0,
    }
}

} // verus!
