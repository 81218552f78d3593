//! The set of functions to lift is the least set that holds every function called
//! from a non-tail position and, with a function, every function declared in one
//! group with it.

use vstd::prelude::*;
use crate::classify::{
    binding_groups, decl_groups, group_meets, groups_meeting, lift_set, non_tail_calls,
    operand_groups,
};
use crate::lists::{
    concat_all, lemma_add_apart, lemma_add_within, lemma_concat_apart, lemma_concat_within,
    lemma_part_of, lemma_union_member, union_all,
};
use crate::scope::{binding_declared, declared, group_declared, operand_declared};
use crate::syntax::{ExpV, FunDeclV, group_names};

verus! {

/// A member of a union of sets is a member of one of them.
pub proof fn lemma_union_witness<T>(sets: Seq<Set<T>>, x: T) -> (j: int)
    requires
        union_all(sets).contains(x),
    ensures
        0 <= j < sets.len(),
        sets[j].contains(x),
{
    choose|j: int| 0 <= j < sets.len() && j < sets.len() && #[trigger] sets[j].contains(x)
}

/// A name of a group is declared by the group.
pub proof fn lemma_group_name_declared<A>(ds: Seq<FunDeclV<ExpV<A>, A>>, i: int)
    requires
        0 <= i < ds.len(),
    ensures
        group_declared(ds)[i].contains(ds[i].name),
        concat_all(group_declared(ds)).contains(ds[i].name),
{
    let part = group_declared(ds)[i];
    assert(part[0] == ds[i].name);
    lemma_concat_within(group_declared(ds), ds.len() as int, i);
}

/// What a body of a group declares is declared by the group.
pub proof fn lemma_group_body_declared<A>(ds: Seq<FunDeclV<ExpV<A>, A>>, i: int, x: Seq<char>)
    requires
        0 <= i < ds.len(),
        declared(ds[i].body).contains(x),
    ensures
        group_declared(ds)[i].contains(x),
        concat_all(group_declared(ds)).contains(x),
{
    let part = group_declared(ds)[i];
    lemma_add_within(seq![ds[i].name], declared(ds[i].body));
    lemma_concat_within(group_declared(ds), ds.len() as int, i);
}

/// What an entry of a group's list of declared names is: the name of the function, or
/// a name that the body declares.
pub proof fn lemma_group_part<A>(ds: Seq<FunDeclV<ExpV<A>, A>>, i: int, x: Seq<char>)
    requires
        0 <= i < ds.len(),
        group_declared(ds)[i].contains(x),
    ensures
        x == ds[i].name || declared(ds[i].body).contains(x),
{
    let part = group_declared(ds)[i];
    let k = choose|k: int| 0 <= k < part.len() && part[k] == x;
    if k > 0 {
        assert(declared(ds[i].body)[k - 1] == x);
    }
}

/// A group meets more names where there are more names to meet.
pub proof fn lemma_groups_meeting_mono<A>(e: ExpV<A>, s1: Set<Seq<char>>, s2: Set<Seq<char>>)
    requires
        s1.subset_of(s2),
    ensures
        groups_meeting(e, s1).subset_of(groups_meeting(e, s2)),
    decreases e,
{
    assert forall|x: Seq<char>| groups_meeting(e, s1).contains(x) implies groups_meeting(
        e,
        s2,
    ).contains(x) by {
        match e {
            ExpV::Num(..) | ExpV::Bool(..) | ExpV::Var(..) => {},
            ExpV::Prim(_, es, _) => {
                let j = lemma_union_witness(operand_groups(es, s1), x);
                lemma_groups_meeting_mono(es[j], s1, s2);
                lemma_union_member(operand_groups(es, s2), es.len() as int, j);
            },
            ExpV::Let { bindings, body, .. } => {
                if union_all(binding_groups(bindings, s1)).contains(x) {
                    let j = lemma_union_witness(binding_groups(bindings, s1), x);
                    lemma_groups_meeting_mono(bindings[j].1, s1, s2);
                    lemma_union_member(binding_groups(bindings, s2), bindings.len() as int, j);
                } else {
                    lemma_groups_meeting_mono(*body, s1, s2);
                }
            },
            ExpV::If { cond, thn, els, .. } => {
                lemma_groups_meeting_mono(*cond, s1, s2);
                lemma_groups_meeting_mono(*thn, s1, s2);
                lemma_groups_meeting_mono(*els, s1, s2);
            },
            ExpV::FunDefs { decls, body, .. } => {
                if group_meets(decls, s1) && group_names(decls).to_set().contains(x) {
                    let i = choose|i: int| 0 <= i < decls.len() && s1.contains(#[trigger] decls[i].name);
                    assert(s2.contains(decls[i].name));
                } else if union_all(decl_groups(decls, s1)).contains(x) {
                    let j = lemma_union_witness(decl_groups(decls, s1), x);
                    lemma_groups_meeting_mono(decls[j].body, s1, s2);
                    lemma_union_member(decl_groups(decls, s2), decls.len() as int, j);
                } else {
                    lemma_groups_meeting_mono(*body, s1, s2);
                }
            },
            ExpV::Call(_, args, _) => {
                let j = lemma_union_witness(operand_groups(args, s1), x);
                lemma_groups_meeting_mono(args[j], s1, s2);
                lemma_union_member(operand_groups(args, s2), args.len() as int, j);
            },
            ExpV::InternalTailCall(..) | ExpV::ExternalCall { .. } => {},
        }
    }
}

/// A name of a group that meets `s` is declared in the expression.
pub proof fn lemma_groups_meeting_declared<A>(e: ExpV<A>, s: Set<Seq<char>>, x: Seq<char>)
    requires
        groups_meeting(e, s).contains(x),
    ensures
        declared(e).contains(x),
    decreases e,
{
    match e {
        ExpV::Num(..) | ExpV::Bool(..) | ExpV::Var(..) => {},
        ExpV::Prim(_, es, _) => {
            let j = lemma_union_witness(operand_groups(es, s), x);
            lemma_groups_meeting_declared(es[j], s, x);
            lemma_concat_within(operand_declared(es), es.len() as int, j);
        },
        ExpV::Let { bindings, body, .. } => {
            lemma_add_within(concat_all(binding_declared(bindings)), declared(*body));
            if union_all(binding_groups(bindings, s)).contains(x) {
                let j = lemma_union_witness(binding_groups(bindings, s), x);
                lemma_groups_meeting_declared(bindings[j].1, s, x);
                lemma_concat_within(binding_declared(bindings), bindings.len() as int, j);
            } else {
                lemma_groups_meeting_declared(*body, s, x);
            }
        },
        ExpV::If { cond, thn, els, .. } => {
            lemma_add_within(declared(*cond), declared(*thn));
            lemma_add_within(declared(*cond) + declared(*thn), declared(*els));
            if groups_meeting(*cond, s).contains(x) {
                lemma_groups_meeting_declared(*cond, s, x);
            } else if groups_meeting(*thn, s).contains(x) {
                lemma_groups_meeting_declared(*thn, s, x);
            } else {
                lemma_groups_meeting_declared(*els, s, x);
            }
        },
        ExpV::FunDefs { decls, body, .. } => {
            lemma_add_within(concat_all(group_declared(decls)), declared(*body));
            if group_meets(decls, s) && group_names(decls).to_set().contains(x) {
                let i = choose|i: int| 0 <= i < group_names(decls).len() && group_names(decls)[i] == x;
                lemma_group_name_declared(decls, i);
            } else if union_all(decl_groups(decls, s)).contains(x) {
                let j = lemma_union_witness(decl_groups(decls, s), x);
                lemma_groups_meeting_declared(decls[j].body, s, x);
                lemma_group_body_declared(decls, j, x);
            } else {
                lemma_groups_meeting_declared(*body, s, x);
            }
        },
        ExpV::Call(_, args, _) => {
            let j = lemma_union_witness(operand_groups(args, s), x);
            lemma_groups_meeting_declared(args[j], s, x);
            lemma_concat_within(operand_declared(args), args.len() as int, j);
        },
        ExpV::InternalTailCall(..) | ExpV::ExternalCall { .. } => {},
    }
}

/// A name of `s` that a surface expression declares is the name of a group that
/// meets `s`.
pub proof fn lemma_declared_meets<A>(e: ExpV<A>, s: Set<Seq<char>>, x: Seq<char>)
    requires
        e.is_surface(),
        s.contains(x),
        declared(e).contains(x),
    ensures
        groups_meeting(e, s).contains(x),
    decreases e,
{
    match e {
        ExpV::Num(..) | ExpV::Bool(..) | ExpV::Var(..) => {},
        ExpV::Prim(_, es, _) => {
            lemma_part_of(operand_declared(es), es.len() as int, x);
            let i = choose|i: int| 0 <= i < es.len() && (#[trigger] operand_declared(es)[i]).contains(x);
            lemma_declared_meets(es[i], s, x);
            lemma_union_member(operand_groups(es, s), es.len() as int, i);
        },
        ExpV::Let { bindings, body, .. } => {
            let parts = binding_declared(bindings);
            let k = choose|k: int| 0 <= k < declared(e).len() && declared(e)[k] == x;
            if k < concat_all(parts).len() {
                assert(concat_all(parts)[k] == x);
                lemma_part_of(parts, bindings.len() as int, x);
                let i = choose|i: int| 0 <= i < bindings.len() && (#[trigger] parts[i]).contains(x);
                lemma_declared_meets(bindings[i].1, s, x);
                lemma_union_member(binding_groups(bindings, s), bindings.len() as int, i);
            } else {
                assert(declared(*body)[k - concat_all(parts).len()] == x);
                lemma_declared_meets(*body, s, x);
            }
        },
        ExpV::If { cond, thn, els, .. } => {
            let c = declared(*cond);
            let t = declared(*thn);
            let k = choose|k: int| 0 <= k < declared(e).len() && declared(e)[k] == x;
            if k < c.len() {
                assert(c[k] == x);
                lemma_declared_meets(*cond, s, x);
            } else if k < c.len() + t.len() {
                assert(t[k - c.len()] == x);
                lemma_declared_meets(*thn, s, x);
            } else {
                assert(declared(*els)[k - c.len() - t.len()] == x);
                lemma_declared_meets(*els, s, x);
            }
        },
        ExpV::FunDefs { decls, body, .. } => {
            let parts = group_declared(decls);
            let k = choose|k: int| 0 <= k < declared(e).len() && declared(e)[k] == x;
            if k < concat_all(parts).len() {
                assert(concat_all(parts)[k] == x);
                lemma_part_of(parts, decls.len() as int, x);
                let i = choose|i: int| 0 <= i < decls.len() && (#[trigger] parts[i]).contains(x);
                lemma_group_part(decls, i, x);
                if x == decls[i].name {
                    assert(s.contains(decls[i].name));
                    assert(group_names(decls)[i] == x);
                } else {
                    lemma_declared_meets(decls[i].body, s, x);
                    lemma_union_member(decl_groups(decls, s), decls.len() as int, i);
                }
            } else {
                assert(declared(*body)[k - concat_all(parts).len()] == x);
                lemma_declared_meets(*body, s, x);
            }
        },
        ExpV::Call(_, args, _) => {
            lemma_part_of(operand_declared(args), args.len() as int, x);
            let i = choose|i: int|
                0 <= i < args.len() && (#[trigger] operand_declared(args)[i]).contains(x);
            lemma_declared_meets(args[i], s, x);
            lemma_union_member(operand_groups(args, s), args.len() as int, i);
        },
        ExpV::InternalTailCall(..) | ExpV::ExternalCall { .. } => {},
    }
}

/// Whether every name of `u` that `names` holds is in `s`.
pub open spec fn covered(u: Set<Seq<char>>, names: Seq<Seq<char>>, s: Set<Seq<char>>) -> bool {
    forall|z: Seq<char>| u.contains(z) && names.contains(z) ==> #[trigger] s.contains(z)
}

/// Where no name is declared twice, and every declared name of `u` is the name of a
/// group that meets `s`, a group that meets `u` meets `s`.
pub proof fn lemma_meeting_again<A>(e: ExpV<A>, s: Set<Seq<char>>, u: Set<Seq<char>>)
    requires
        e.is_surface(),
        declared(e).no_duplicates(),
        covered(u, declared(e), groups_meeting(e, s)),
    ensures
        groups_meeting(e, u).subset_of(groups_meeting(e, s)),
    decreases e, 1nat,
{
    match e {
        ExpV::Num(..) | ExpV::Bool(..) | ExpV::Var(..) => {},
        ExpV::Prim(_, es, _) => {
            lemma_meeting_again_operands(es, s, u);
        },
        ExpV::Let { .. } => {
            lemma_meeting_again_let(e, s, u);
        },
        ExpV::If { cond, thn, els, .. } => {
            let c = declared(*cond);
            let t = declared(*thn);
            let f = declared(*els);
            lemma_add_apart(c + t, f);
            lemma_add_apart(c, t);
            lemma_add_within(c + t, f);
            lemma_add_within(c, t);
            assert(covered(u, c, groups_meeting(*cond, s))) by {
                assert forall|z: Seq<char>| u.contains(z) && c.contains(z) implies #[trigger] groups_meeting(
                    *cond,
                    s,
                ).contains(z) by {
                    assert((c + t).contains(z));
                    assert(declared(e).contains(z));
                    assert(groups_meeting(e, s).contains(z));
                    if groups_meeting(*thn, s).contains(z) {
                        lemma_groups_meeting_declared(*thn, s, z);
                    } else if groups_meeting(*els, s).contains(z) {
                        lemma_groups_meeting_declared(*els, s, z);
                    }
                }
            }
            assert(covered(u, t, groups_meeting(*thn, s))) by {
                assert forall|z: Seq<char>| u.contains(z) && t.contains(z) implies #[trigger] groups_meeting(
                    *thn,
                    s,
                ).contains(z) by {
                    assert((c + t).contains(z));
                    assert(declared(e).contains(z));
                    assert(groups_meeting(e, s).contains(z));
                    if groups_meeting(*cond, s).contains(z) {
                        lemma_groups_meeting_declared(*cond, s, z);
                    } else if groups_meeting(*els, s).contains(z) {
                        lemma_groups_meeting_declared(*els, s, z);
                    }
                }
            }
            assert(covered(u, f, groups_meeting(*els, s))) by {
                assert forall|z: Seq<char>| u.contains(z) && f.contains(z) implies #[trigger] groups_meeting(
                    *els,
                    s,
                ).contains(z) by {
                    assert(declared(e).contains(z));
                    assert(groups_meeting(e, s).contains(z));
                    if groups_meeting(*cond, s).contains(z) {
                        lemma_groups_meeting_declared(*cond, s, z);
                        assert((c + t).contains(z));
                    } else if groups_meeting(*thn, s).contains(z) {
                        lemma_groups_meeting_declared(*thn, s, z);
                        assert((c + t).contains(z));
                    }
                }
            }
            lemma_meeting_again(*cond, s, u);
            lemma_meeting_again(*thn, s, u);
            lemma_meeting_again(*els, s, u);
        },
        ExpV::FunDefs { .. } => {
            lemma_meeting_again_group(e, s, u);
        },
        ExpV::Call(_, args, _) => {
            lemma_meeting_again_operands(args, s, u);
        },
        ExpV::InternalTailCall(..) | ExpV::ExternalCall { .. } => {},
    }
}

/// `lemma_meeting_again` for the expressions of a list.
pub proof fn lemma_meeting_again_operands<A>(es: Seq<ExpV<A>>, s: Set<Seq<char>>, u: Set<Seq<char>>)
    requires
        forall|i: int| 0 <= i < es.len() ==> (#[trigger] es[i]).is_surface(),
        concat_all(operand_declared(es)).no_duplicates(),
        covered(u, concat_all(operand_declared(es)), union_all(operand_groups(es, s))),
    ensures
        union_all(operand_groups(es, u)).subset_of(union_all(operand_groups(es, s))),
    decreases es,
{
    let parts = operand_declared(es);
    let n = es.len() as int;
    assert forall|x: Seq<char>| union_all(operand_groups(es, u)).contains(x) implies union_all(
        operand_groups(es, s),
    ).contains(x) by {
        let i = lemma_union_witness(operand_groups(es, u), x);
        lemma_concat_apart(parts, n, i);
        lemma_concat_within(parts, n, i);
        assert(covered(u, parts[i], groups_meeting(es[i], s))) by {
            assert forall|z: Seq<char>| u.contains(z) && parts[i].contains(z) implies #[trigger] groups_meeting(
                es[i],
                s,
            ).contains(z) by {
                assert(concat_all(parts).contains(z));
                assert(union_all(operand_groups(es, s)).contains(z));
                let k = lemma_union_witness(operand_groups(es, s), z);
                lemma_groups_meeting_declared(es[k], s, z);
                assert(parts[k].contains(z));
            }
        }
        assert(es[i].is_surface());
        lemma_meeting_again(es[i], s, u);
        lemma_union_member(operand_groups(es, s), n, i);
    }
}

/// `lemma_meeting_again` for a `Let`.
pub proof fn lemma_meeting_again_let<A>(e: ExpV<A>, s: Set<Seq<char>>, u: Set<Seq<char>>)
    requires
        e is Let,
        e.is_surface(),
        declared(e).no_duplicates(),
        covered(u, declared(e), groups_meeting(e, s)),
    ensures
        groups_meeting(e, u).subset_of(groups_meeting(e, s)),
    decreases e, 0nat,
{
    let bindings = e->Let_bindings;
    let body = e->Let_body;
    let parts = binding_declared(bindings);
    let n = bindings.len() as int;
    let tail = declared(*body);
    lemma_add_apart(concat_all(parts), tail);
    lemma_add_within(concat_all(parts), tail);
    assert forall|x: Seq<char>| groups_meeting(e, u).contains(x) implies groups_meeting(
        e,
        s,
    ).contains(x) by {
        if union_all(binding_groups(bindings, u)).contains(x) {
            let i = lemma_union_witness(binding_groups(bindings, u), x);
            lemma_concat_apart(parts, n, i);
            lemma_concat_within(parts, n, i);
            assert(covered(u, parts[i], groups_meeting(bindings[i].1, s))) by {
                assert forall|z: Seq<char>| u.contains(z) && parts[i].contains(z) implies #[trigger] groups_meeting(
                    bindings[i].1,
                    s,
                ).contains(z) by {
                    assert(concat_all(parts).contains(z));
                    assert(declared(e).contains(z));
                    assert(groups_meeting(e, s).contains(z));
                    if union_all(binding_groups(bindings, s)).contains(z) {
                        let k = lemma_union_witness(binding_groups(bindings, s), z);
                        lemma_groups_meeting_declared(bindings[k].1, s, z);
                        assert(parts[k].contains(z));
                    } else {
                        lemma_groups_meeting_declared(*body, s, z);
                    }
                }
            }
            assert(bindings[i].1.is_surface());
            lemma_meeting_again(bindings[i].1, s, u);
            lemma_union_member(binding_groups(bindings, s), n, i);
        } else {
            assert(covered(u, tail, groups_meeting(*body, s))) by {
                assert forall|z: Seq<char>| u.contains(z) && tail.contains(z) implies #[trigger] groups_meeting(
                    *body,
                    s,
                ).contains(z) by {
                    assert(declared(e).contains(z));
                    assert(groups_meeting(e, s).contains(z));
                    if union_all(binding_groups(bindings, s)).contains(z) {
                        let k = lemma_union_witness(binding_groups(bindings, s), z);
                        lemma_groups_meeting_declared(bindings[k].1, s, z);
                        lemma_concat_within(parts, n, k);
                        assert(concat_all(parts).contains(z));
                    }
                }
            }
            lemma_meeting_again(*body, s, u);
        }
    }
}

/// `lemma_meeting_again` for a group of functions.
pub proof fn lemma_meeting_again_group<A>(e: ExpV<A>, s: Set<Seq<char>>, u: Set<Seq<char>>)
    requires
        e is FunDefs,
        e.is_surface(),
        declared(e).no_duplicates(),
        covered(u, declared(e), groups_meeting(e, s)),
    ensures
        groups_meeting(e, u).subset_of(groups_meeting(e, s)),
    decreases e, 0nat,
{
    let decls = e->FunDefs_decls;
    let body = e->FunDefs_body;
    let parts = group_declared(decls);
    let names = group_names(decls);
    let n = decls.len() as int;
    let tail = declared(*body);
    lemma_add_apart(concat_all(parts), tail);
    lemma_add_within(concat_all(parts), tail);
    // Where a declared name of `u` can be, given what it is.
    assert forall|z: Seq<char>, i: int|
        0 <= i < n && u.contains(z) && #[trigger] parts[i].contains(z) implies (z == decls[i].name
        && group_meets(decls, s)) || (declared(decls[i].body).contains(z) && groups_meeting(
        decls[i].body,
        s,
    ).contains(z)) by {
        lemma_concat_apart(parts, n, i);
        lemma_concat_within(parts, n, i);
        lemma_add_apart(seq![decls[i].name], declared(decls[i].body));
        assert(seq![decls[i].name].contains(decls[i].name)) by {
            assert(seq![decls[i].name][0] == decls[i].name);
        }
        assert(concat_all(parts).contains(z));
        assert(declared(e).contains(z));
        assert(groups_meeting(e, s).contains(z));
        lemma_group_part(decls, i, z);
        if group_meets(decls, s) && names.to_set().contains(z) {
            let m = choose|m: int| 0 <= m < names.len() && names[m] == z;
            lemma_group_name_declared(decls, m);
            assert(parts[m].contains(z));
            assert(m == i);
        } else if union_all(decl_groups(decls, s)).contains(z) {
            let k = lemma_union_witness(decl_groups(decls, s), z);
            lemma_groups_meeting_declared(decls[k].body, s, z);
            lemma_group_body_declared(decls, k, z);
            assert(parts[k].contains(z));
            assert(k == i);
        } else {
            lemma_groups_meeting_declared(*body, s, z);
        }
    }
    assert forall|x: Seq<char>| groups_meeting(e, u).contains(x) implies groups_meeting(
        e,
        s,
    ).contains(x) by {
        if group_meets(decls, u) && names.to_set().contains(x) {
            let j = choose|j: int| 0 <= j < decls.len() && u.contains(#[trigger] decls[j].name);
            lemma_group_name_declared(decls, j);
            assert(parts[j].contains(decls[j].name));
            lemma_concat_apart(parts, n, j);
            lemma_add_apart(seq![decls[j].name], declared(decls[j].body));
            assert(seq![decls[j].name].contains(decls[j].name)) by {
                assert(seq![decls[j].name][0] == decls[j].name);
            }
            assert(group_meets(decls, s));
        } else if union_all(decl_groups(decls, u)).contains(x) {
            let i = lemma_union_witness(decl_groups(decls, u), x);
            lemma_concat_apart(parts, n, i);
            lemma_add_apart(seq![decls[i].name], declared(decls[i].body));
            assert(seq![decls[i].name].contains(decls[i].name)) by {
                assert(seq![decls[i].name][0] == decls[i].name);
            }
            assert(covered(u, declared(decls[i].body), groups_meeting(decls[i].body, s))) by {
                assert forall|z: Seq<char>|
                    u.contains(z) && declared(decls[i].body).contains(
                        z,
                    ) implies #[trigger] groups_meeting(decls[i].body, s).contains(z) by {
                    lemma_group_body_declared(decls, i, z);
                    assert(parts[i].contains(z));
                }
            }
            assert(decls[i].body.is_surface());
            lemma_meeting_again(decls[i].body, s, u);
            lemma_union_member(decl_groups(decls, s), n, i);
        } else {
            assert(covered(u, tail, groups_meeting(*body, s))) by {
                assert forall|z: Seq<char>| u.contains(z) && tail.contains(z) implies #[trigger] groups_meeting(
                    *body,
                    s,
                ).contains(z) by {
                    assert(declared(e).contains(z));
                    assert(groups_meeting(e, s).contains(z));
                    if group_meets(decls, s) && names.to_set().contains(z) {
                        let m = choose|m: int| 0 <= m < names.len() && names[m] == z;
                        lemma_group_name_declared(decls, m);
                        assert(concat_all(parts).contains(z));
                    } else if union_all(decl_groups(decls, s)).contains(z) {
                        let k = lemma_union_witness(decl_groups(decls, s), z);
                        lemma_groups_meeting_declared(decls[k].body, s, z);
                        lemma_group_body_declared(decls, k, z);
                        assert(concat_all(parts).contains(z));
                    }
                }
            }
            lemma_meeting_again(*body, s, u);
        }
    }
}

/// Where no function name is declared twice, the set of functions to lift holds, with
/// a function, every function that is declared in one group with it.
pub proof fn lemma_lift_set_is_closed<A>(p: ExpV<A>)
    requires
        p.is_surface(),
        declared(p).no_duplicates(),
    ensures
        non_tail_calls(p, true).subset_of(lift_set(p)),
        groups_meeting(p, lift_set(p)).subset_of(lift_set(p)),
{
    let called = non_tail_calls(p, true);
    let lifted = lift_set(p);
    assert(covered(lifted, declared(p), groups_meeting(p, called))) by {
        assert forall|z: Seq<char>| lifted.contains(z) && declared(p).contains(z) implies #[trigger] groups_meeting(
            p,
            called,
        ).contains(z) by {
            if called.contains(z) {
                lemma_declared_meets(p, called, z);
            }
        }
    }
    lemma_meeting_again(p, called, lifted);
}

/// The set of functions to lift is within every set that holds the functions called
/// from a non-tail position and, with a function, every function that is declared
/// in one group with it.
pub proof fn lemma_lift_set_is_least<A>(p: ExpV<A>, s: Set<Seq<char>>)
    requires
        non_tail_calls(p, true).subset_of(s),
        groups_meeting(p, s).subset_of(s),
    ensures
        lift_set(p).subset_of(s),
{
    lemma_groups_meeting_mono(p, non_tail_calls(p, true), s);
}

} // verus!
