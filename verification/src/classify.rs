//! Which local functions become top-level ones: those called from a non-tail
//! position, and those declared together with one of them.

use vstd::prelude::*;
use crate::lists::{lemma_union_upto_step, lemma_union_upto_zero, union_all, union_upto};
use crate::names::{
    clone_names, contains_name, insert_name, lemma_env_insert_set, name_set, names_of,
};
use crate::syntax::{Exp, ExpV, FunDeclV, exp_view, group_names};

verus! {

/// For each operand, the functions called from a non-tail position in it; an operand
/// itself is never in tail position.
pub open spec fn operand_calls<A>(es: Seq<ExpV<A>>) -> Seq<Set<Seq<char>>>
    decreases es,
{
    Seq::new(
        es.len(),
        |i: int|
            if 0 <= i < es.len() {
                non_tail_calls(es[i], false)
            } else {
                Set::empty()
            },
    )
}

/// For each binding of a `Let`, the functions called from a non-tail position in it.
pub open spec fn binding_calls<A>(bs: Seq<(Seq<char>, ExpV<A>)>) -> Seq<Set<Seq<char>>>
    decreases bs,
{
    Seq::new(
        bs.len(),
        |i: int|
            if 0 <= i < bs.len() {
                non_tail_calls(bs[i].1, false)
            } else {
                Set::empty()
            },
    )
}

/// For each declaration, the functions called from a non-tail position in its body; the
/// body itself is in tail position.
pub open spec fn decl_calls<A>(ds: Seq<FunDeclV<ExpV<A>, A>>) -> Seq<Set<Seq<char>>>
    decreases ds,
{
    Seq::new(
        ds.len(),
        |i: int|
            if 0 <= i < ds.len() {
                non_tail_calls(ds[i].body, true)
            } else {
                Set::empty()
            },
    )
}

/// The functions that `e` calls from a non-tail position, where `is_tail` says whether
/// `e` itself stands in tail position.
pub open spec fn non_tail_calls<A>(e: ExpV<A>, is_tail: bool) -> Set<Seq<char>>
    decreases e,
{
    match e {
        ExpV::Num(..) | ExpV::Bool(..) | ExpV::Var(..) => Set::empty(),
        ExpV::Prim(_, es, _) => union_all(operand_calls(es)),
        ExpV::Let { bindings, body, .. } => non_tail_calls(*body, is_tail).union(
            union_all(binding_calls(bindings)),
        ),
        ExpV::If { cond, thn, els, .. } => non_tail_calls(*thn, is_tail).union(
            non_tail_calls(*els, is_tail),
        ).union(non_tail_calls(*cond, false)),
        ExpV::FunDefs { decls, body, .. } => union_all(decl_calls(decls)).union(
            non_tail_calls(*body, is_tail),
        ),
        ExpV::Call(f, args, _) => (if is_tail {
            Set::empty()
        } else {
            Set::empty().insert(f)
        }).union(union_all(operand_calls(args))),
        ExpV::InternalTailCall(..) | ExpV::ExternalCall { .. } => Set::empty(),
    }
}

/// Whether one of the declarations of a group has its name in `s`.
pub open spec fn group_meets<E, A>(ds: Seq<FunDeclV<E, A>>, s: Set<Seq<char>>) -> bool {
    exists|i: int| 0 <= i < ds.len() && s.contains(#[trigger] ds[i].name)
}

/// For each expression of a list, the names of the groups in it that meet `s`.
pub open spec fn operand_groups<A>(es: Seq<ExpV<A>>, s: Set<Seq<char>>) -> Seq<Set<Seq<char>>>
    decreases es,
{
    Seq::new(
        es.len(),
        |i: int|
            if 0 <= i < es.len() {
                groups_meeting(es[i], s)
            } else {
                Set::empty()
            },
    )
}

/// For each binding of a `Let`, the names of the groups in it that meet `s`.
pub open spec fn binding_groups<A>(bs: Seq<(Seq<char>, ExpV<A>)>, s: Set<Seq<char>>) -> Seq<
    Set<Seq<char>>,
>
    decreases bs,
{
    Seq::new(
        bs.len(),
        |i: int|
            if 0 <= i < bs.len() {
                groups_meeting(bs[i].1, s)
            } else {
                Set::empty()
            },
    )
}

/// For each declaration, the names of the groups in its body that meet `s`.
pub open spec fn decl_groups<A>(ds: Seq<FunDeclV<ExpV<A>, A>>, s: Set<Seq<char>>) -> Seq<
    Set<Seq<char>>,
>
    decreases ds,
{
    Seq::new(
        ds.len(),
        |i: int|
            if 0 <= i < ds.len() {
                groups_meeting(ds[i].body, s)
            } else {
                Set::empty()
            },
    )
}

/// The names declared by those groups of `e` that declare at least one name of `s`.
pub open spec fn groups_meeting<A>(e: ExpV<A>, s: Set<Seq<char>>) -> Set<Seq<char>>
    decreases e,
{
    match e {
        ExpV::Num(..) | ExpV::Bool(..) | ExpV::Var(..) => Set::empty(),
        ExpV::Prim(_, es, _) => union_all(operand_groups(es, s)),
        ExpV::Let { bindings, body, .. } => union_all(binding_groups(bindings, s)).union(
            groups_meeting(*body, s),
        ),
        ExpV::If { cond, thn, els, .. } => groups_meeting(*cond, s).union(
            groups_meeting(*thn, s),
        ).union(groups_meeting(*els, s)),
        ExpV::FunDefs { decls, body, .. } => (if group_meets(decls, s) {
            group_names(decls).to_set()
        } else {
            Set::empty()
        }).union(union_all(decl_groups(decls, s))).union(groups_meeting(*body, s)),
        ExpV::Call(_, args, _) => union_all(operand_groups(args, s)),
        ExpV::InternalTailCall(..) | ExpV::ExternalCall { .. } => Set::empty(),
    }
}

/// The functions to lift: those called from a non-tail position anywhere in the
/// program, and those declared in one group with such a function.
pub open spec fn lift_set<A>(p: ExpV<A>) -> Set<Seq<char>> {
    non_tail_calls(p, true).union(groups_meeting(p, non_tail_calls(p, true)))
}

fn add_name(acc: &mut Vec<String>, x: &String)
    ensures
        name_set(final(acc)@) == name_set(old(acc)@).insert(x@),
        names_of(old(acc)@).no_duplicates() ==> names_of(final(acc)@).no_duplicates(),
{
    proof {
        lemma_env_insert_set(names_of(acc@), x@);
    }
    insert_name(acc, x);
}

#[verifier::loop_isolation(false)]
fn gather_non_tail<A>(e: &Exp<A>, is_tail: bool, acc: &mut Vec<String>)
    requires
        e@.is_surface(),
    ensures
        name_set(final(acc)@) == name_set(old(acc)@).union(non_tail_calls(e@, is_tail)),
        names_of(old(acc)@).no_duplicates() ==> names_of(final(acc)@).no_duplicates(),
    decreases e,
{
    let ghost base = name_set(acc@);
    proof {
        reveal_with_fuel(exp_view, 2);
        reveal_with_fuel(non_tail_calls, 2);
    }
    match e {
        Exp::Num(..) | Exp::Bool(..) | Exp::Var(..) => {
            assert(base.union(Set::empty()) =~= base);
        },
        Exp::Prim(_, es, _) => {
            let ghost sets = operand_calls(e@->Prim_1);
            proof {
                lemma_union_upto_zero(sets);
                assert(base.union(Set::empty()) =~= base);
            }
            let mut i: usize = 0;
            while i < es.len()
                invariant
                    i <= es.len(),
                    name_set(acc@) == base.union(union_upto(sets, i as int)),
                    names_of(old(acc)@).no_duplicates() ==> names_of(acc@).no_duplicates(),
                decreases es.len() - i,
            {
                let ghost before = name_set(acc@);
                assert((e@->Prim_1)[i as int] == es[i as int]@);
                gather_non_tail(&es[i], false, acc);
                proof {
                    lemma_union_upto_step(sets, i as int);
                    assert(name_set(acc@) =~= base.union(union_upto(sets, i + 1)));
                }
                i += 1;
            }
        },
        Exp::Let { bindings, body, .. } => {
            gather_non_tail(body, is_tail, acc);
            let ghost mid = name_set(acc@);
            let ghost sets = binding_calls(e@->Let_bindings);
            proof {
                lemma_union_upto_zero(sets);
                assert(mid.union(Set::empty()) =~= mid);
            }
            let mut i: usize = 0;
            while i < bindings.len()
                invariant
                    i <= bindings.len(),
                    name_set(acc@) == mid.union(union_upto(sets, i as int)),
                    names_of(old(acc)@).no_duplicates() ==> names_of(acc@).no_duplicates(),
                decreases bindings.len() - i,
            {
                assert((e@->Let_bindings)[i as int].1 == bindings[i as int].1@);
                gather_non_tail(&bindings[i].1, false, acc);
                proof {
                    lemma_union_upto_step(sets, i as int);
                    assert(name_set(acc@) =~= mid.union(union_upto(sets, i + 1)));
                }
                i += 1;
            }
            assert(name_set(acc@) =~= base.union(non_tail_calls(e@, is_tail)));
        },
        Exp::If { cond, thn, els, .. } => {
            gather_non_tail(thn, is_tail, acc);
            gather_non_tail(els, is_tail, acc);
            gather_non_tail(cond, false, acc);
            assert(name_set(acc@) =~= base.union(non_tail_calls(e@, is_tail)));
        },
        Exp::FunDefs { decls, body, .. } => {
            let ghost sets = decl_calls(e@->FunDefs_decls);
            proof {
                lemma_union_upto_zero(sets);
                assert(base.union(Set::empty()) =~= base);
            }
            let mut i: usize = 0;
            while i < decls.len()
                invariant
                    i <= decls.len(),
                    name_set(acc@) == base.union(union_upto(sets, i as int)),
                    names_of(old(acc)@).no_duplicates() ==> names_of(acc@).no_duplicates(),
                decreases decls.len() - i,
            {
                assert((e@->FunDefs_decls)[i as int].body == decls[i as int].body@);
                gather_non_tail(&decls[i].body, true, acc);
                proof {
                    lemma_union_upto_step(sets, i as int);
                    assert(name_set(acc@) =~= base.union(union_upto(sets, i + 1)));
                }
                i += 1;
            }
            gather_non_tail(body, is_tail, acc);
            assert(name_set(acc@) =~= base.union(non_tail_calls(e@, is_tail)));
        },
        Exp::Call(f, args, _) => {
            if !is_tail {
                add_name(acc, f);
            }
            let ghost mid = name_set(acc@);
            let ghost sets = operand_calls(e@->Call_1);
            proof {
                lemma_union_upto_zero(sets);
                assert(mid.union(Set::empty()) =~= mid);
            }
            let mut i: usize = 0;
            while i < args.len()
                invariant
                    i <= args.len(),
                    name_set(acc@) == mid.union(union_upto(sets, i as int)),
                    names_of(old(acc)@).no_duplicates() ==> names_of(acc@).no_duplicates(),
                decreases args.len() - i,
            {
                assert((e@->Call_1)[i as int] == args[i as int]@);
                gather_non_tail(&args[i], false, acc);
                proof {
                    lemma_union_upto_step(sets, i as int);
                    assert(name_set(acc@) =~= mid.union(union_upto(sets, i + 1)));
                }
                i += 1;
            }
            assert(name_set(acc@) =~= base.union(non_tail_calls(e@, is_tail)));
        },
        Exp::InternalTailCall(..) => {
            assert(false);
        },
        Exp::ExternalCall { .. } => {
            assert(false);
        },
    }
}

#[verifier::loop_isolation(false)]
fn gather_groups<A>(e: &Exp<A>, marked: &Vec<String>, acc: &mut Vec<String>)
    requires
        e@.is_surface(),
    ensures
        name_set(final(acc)@) == name_set(old(acc)@).union(groups_meeting(e@, name_set(marked@))),
        names_of(old(acc)@).no_duplicates() ==> names_of(final(acc)@).no_duplicates(),
    decreases e,
{
    let ghost base = name_set(acc@);
    let ghost s = name_set(marked@);
    proof {
        reveal_with_fuel(exp_view, 2);
        reveal_with_fuel(groups_meeting, 2);
    }
    match e {
        Exp::Num(..) | Exp::Bool(..) | Exp::Var(..) => {
            assert(base.union(Set::empty()) =~= base);
        },
        Exp::Prim(_, es, _) => {
            let ghost sets = operand_groups(e@->Prim_1, s);
            proof {
                lemma_union_upto_zero(sets);
                assert(base.union(Set::empty()) =~= base);
            }
            let mut i: usize = 0;
            while i < es.len()
                invariant
                    i <= es.len(),
                    name_set(acc@) == base.union(union_upto(sets, i as int)),
                    names_of(old(acc)@).no_duplicates() ==> names_of(acc@).no_duplicates(),
                decreases es.len() - i,
            {
                assert((e@->Prim_1)[i as int] == es[i as int]@);
                gather_groups(&es[i], marked, acc);
                proof {
                    lemma_union_upto_step(sets, i as int);
                    assert(name_set(acc@) =~= base.union(union_upto(sets, i + 1)));
                }
                i += 1;
            }
        },
        Exp::Let { bindings, body, .. } => {
            let ghost sets = binding_groups(e@->Let_bindings, s);
            proof {
                lemma_union_upto_zero(sets);
                assert(base.union(Set::empty()) =~= base);
            }
            let mut i: usize = 0;
            while i < bindings.len()
                invariant
                    i <= bindings.len(),
                    name_set(acc@) == base.union(union_upto(sets, i as int)),
                    names_of(old(acc)@).no_duplicates() ==> names_of(acc@).no_duplicates(),
                decreases bindings.len() - i,
            {
                assert((e@->Let_bindings)[i as int].1 == bindings[i as int].1@);
                gather_groups(&bindings[i].1, marked, acc);
                proof {
                    lemma_union_upto_step(sets, i as int);
                    assert(name_set(acc@) =~= base.union(union_upto(sets, i + 1)));
                }
                i += 1;
            }
            gather_groups(body, marked, acc);
            assert(name_set(acc@) =~= base.union(groups_meeting(e@, s)));
        },
        Exp::If { cond, thn, els, .. } => {
            gather_groups(cond, marked, acc);
            gather_groups(thn, marked, acc);
            gather_groups(els, marked, acc);
            assert(name_set(acc@) =~= base.union(groups_meeting(e@, s)));
        },
        Exp::FunDefs { decls, body, .. } => {
            let ghost ds = e@->FunDefs_decls;
            let mut met: bool = false;
            let mut i: usize = 0;
            while i < decls.len()
                invariant
                    i <= decls.len(),
                    met == exists|j: int| 0 <= j < i && s.contains(#[trigger] ds[j].name),
                decreases decls.len() - i,
            {
                if contains_name(marked, &decls[i].name) {
                    assert(s.contains(ds[i as int].name));
                    met = true;
                }
                i += 1;
            }
            assert(met == group_meets(ds, s));
            if met {
                let mut k: usize = 0;
                while k < decls.len()
                    invariant
                        k <= decls.len(),
                        name_set(acc@) == base.union(group_names(ds).take(k as int).to_set()),
                        names_of(old(acc)@).no_duplicates() ==> names_of(acc@).no_duplicates(),
                    decreases decls.len() - k,
                {
                    add_name(acc, &decls[k].name);
                    proof {
                        let a = group_names(ds).take(k as int);
                        let b = group_names(ds).take(k + 1);
                        assert(b =~= a.push(ds[k as int].name));
                        a.lemma_push_to_set_commute(ds[k as int].name);
                        assert(name_set(acc@) =~= base.union(b.to_set()));
                    }
                    k += 1;
                }
                assert(group_names(ds).take(decls.len() as int) =~= group_names(ds));
            }
            let ghost mid = name_set(acc@);
            let ghost sets = decl_groups(ds, s);
            proof {
                lemma_union_upto_zero(sets);
                assert(mid.union(Set::empty()) =~= mid);
            }
            let mut i: usize = 0;
            while i < decls.len()
                invariant
                    i <= decls.len(),
                    name_set(acc@) == mid.union(union_upto(sets, i as int)),
                    names_of(old(acc)@).no_duplicates() ==> names_of(acc@).no_duplicates(),
                decreases decls.len() - i,
            {
                assert(ds[i as int].body == decls[i as int].body@);
                gather_groups(&decls[i].body, marked, acc);
                proof {
                    lemma_union_upto_step(sets, i as int);
                    assert(name_set(acc@) =~= mid.union(union_upto(sets, i + 1)));
                }
                i += 1;
            }
            gather_groups(body, marked, acc);
            assert(name_set(acc@) =~= base.union(groups_meeting(e@, s)));
        },
        Exp::Call(_, args, _) => {
            let ghost sets = operand_groups(e@->Call_1, s);
            proof {
                lemma_union_upto_zero(sets);
                assert(base.union(Set::empty()) =~= base);
            }
            let mut i: usize = 0;
            while i < args.len()
                invariant
                    i <= args.len(),
                    name_set(acc@) == base.union(union_upto(sets, i as int)),
                    names_of(old(acc)@).no_duplicates() ==> names_of(acc@).no_duplicates(),
                decreases args.len() - i,
            {
                assert((e@->Call_1)[i as int] == args[i as int]@);
                gather_groups(&args[i], marked, acc);
                proof {
                    lemma_union_upto_step(sets, i as int);
                    assert(name_set(acc@) =~= base.union(union_upto(sets, i + 1)));
                }
                i += 1;
            }
        },
        Exp::InternalTailCall(..) => {
            assert(false);
        },
        Exp::ExternalCall { .. } => {
            assert(false);
        },
    }
}

/// The names of the functions to lift to the top level, each once.
pub fn should_lift<A>(p: &Exp<A>) -> (r: Vec<String>)
    requires
        p@.is_surface(),
    ensures
        name_set(r@) == lift_set(p@),
        names_of(r@).no_duplicates(),
{
    let mut marked: Vec<String> = Vec::new();
    assert(names_of(marked@) =~= Seq::<Seq<char>>::empty());
    gather_non_tail(p, true, &mut marked);
    assert(name_set(marked@) =~= non_tail_calls(p@, true));
    let mut r: Vec<String> = clone_names(&marked);
    gather_groups(p, &marked, &mut r);
    r
}
} // verus!
