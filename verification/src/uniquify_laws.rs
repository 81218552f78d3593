//! After renaming, every name that a program binds is bound once: no variable of a
//! `Let`, no function and no parameter shares its name with another binder.

use vstd::prelude::*;
use crate::check::{well_formed, well_formed_prog, with_group};
use crate::lists::{concat_all, concat_upto, lemma_total_mono, total};
use crate::syntax::{ExpV, FunDeclV, binding_names, group_names};
use crate::tag::{
    binding_nodes, decl_nodes, nodes, operand_nodes, tag_bindings, tag_group, tag_operands,
    tag_spec,
};
use crate::text::fresh_name;
use crate::uniquify::{
    fresh_names, last_tag, rename_all, uniq_bindings, uniq_decls, uniq_operands, uniq_prog,
    uniq_spec,
};
use crate::uniquify_proofs::{
    all_tagged_within, lemma_add_distinct, lemma_concat_distinct, lemma_fresh_names_distinct,
    lemma_last_tag, lemma_widen, tagged_within,
};

verus! {

/// The names that each expression of a list binds.
pub open spec fn operand_bound<A>(es: Seq<ExpV<A>>) -> Seq<Seq<Seq<char>>>
    decreases es,
{
    Seq::new(
        es.len(),
        |i: int|
            if 0 <= i < es.len() {
                bound_names(es[i])
            } else {
                Seq::empty()
            },
    )
}

/// The names that each bound expression of a `Let` binds.
pub open spec fn binding_bound<A>(bs: Seq<(Seq<char>, ExpV<A>)>) -> Seq<Seq<Seq<char>>>
    decreases bs,
{
    Seq::new(
        bs.len(),
        |i: int|
            if 0 <= i < bs.len() {
                bound_names(bs[i].1)
            } else {
                Seq::empty()
            },
    )
}

/// For each declaration of a group, the names that its body binds and its
/// parameters.
pub open spec fn decl_bound<A>(ds: Seq<FunDeclV<ExpV<A>, A>>) -> Seq<Seq<Seq<char>>>
    decreases ds,
{
    Seq::new(
        ds.len(),
        |i: int|
            if 0 <= i < ds.len() {
                bound_names(ds[i].body) + ds[i].parameters
            } else {
                Seq::empty()
            },
    )
}

/// Every name that `e` binds, once for each binder: the variables of each `Let`,
/// the names of the functions of each group, and the parameters of each function.
pub open spec fn bound_names<A>(e: ExpV<A>) -> Seq<Seq<char>>
    decreases e,
{
    match e {
        ExpV::Num(..) | ExpV::Bool(..) | ExpV::Var(..) => Seq::empty(),
        ExpV::Prim(_, es, _) => concat_all(operand_bound(es)),
        ExpV::Let { bindings, body, .. } => binding_names(bindings) + concat_all(
            binding_bound(bindings),
        ) + bound_names(*body),
        ExpV::If { cond, thn, els, .. } => bound_names(*cond) + bound_names(*thn) + bound_names(
            *els,
        ),
        ExpV::FunDefs { decls, body, .. } => group_names(decls) + concat_all(decl_bound(decls))
            + bound_names(*body),
        ExpV::Call(_, args, _) => concat_all(operand_bound(args)),
        ExpV::InternalTailCall(_, args, _) => concat_all(operand_bound(args)),
        ExpV::ExternalCall { args, .. } => concat_all(operand_bound(args)),
    }
}

/// The tag before the last of an expression that is tagged from `t0` on: no binder
/// of the expression has a later one.
pub open spec fn before_last<S>(p: ExpV<S>, t0: nat) -> nat {
    (t0 + nodes(p) - 1) as nat
}

/// Lists of names whose tags lie in one range make a list of names whose tags lie
/// in it.
pub proof fn lemma_concat_tagged(parts: Seq<Seq<Seq<char>>>, n: int, lo: nat, hi: nat)
    requires
        0 <= n <= parts.len(),
        forall|i: int| 0 <= i < n ==> all_tagged_within(#[trigger] parts[i], lo, hi),
    ensures
        all_tagged_within(concat_upto(parts, n), lo, hi),
    decreases n,
{
    if n > 0 {
        lemma_concat_tagged(parts, n - 1, lo, hi);
        let a = concat_upto(parts, n - 1);
        let b = parts[n - 1];
        assert(all_tagged_within(b, lo, hi));
        assert forall|j: int| 0 <= j < (a + b).len() implies tagged_within(
            #[trigger] (a + b)[j],
            lo,
            hi,
        ) by {
            if j < a.len() {
                assert(tagged_within(a[j], lo, hi));
            } else {
                assert(tagged_within(b[j - a.len()], lo, hi));
            }
        }
    }
}

/// The names of a list with one suffix are names whose tags lie around the suffix.
pub proof fn lemma_fresh_names_tagged(names: Seq<Seq<char>>, t: u32, lo: nat, hi: nat)
    requires
        lo < t <= hi,
    ensures
        all_tagged_within(fresh_names(names, t), lo, hi),
{
    let out = fresh_names(names, t);
    assert forall|j: int| 0 <= j < out.len() implies tagged_within(#[trigger] out[j], lo, hi) by {
        assert(lo < t <= hi && out[j] == fresh_name(names[j], t));
    }
}

/// The names that the expressions of a well-formed list bind, once the list is
/// tagged from `t1` and renamed, are distinct, and end in tags of the list other
/// than its last.
pub proof fn lemma_operands_bound<S>(
    es: Seq<ExpV<S>>,
    t1: nat,
    vs: Set<Seq<char>>,
    fs: Map<Seq<char>, nat>,
    vm: Map<Seq<char>, Seq<char>>,
    fm: Map<Seq<char>, Seq<char>>,
)
    requires
        forall|i: int| 0 <= i < es.len() ==> well_formed(#[trigger] es[i], vs, fs),
        t1 + total(operand_nodes(es), es.len() as int) <= u32::MAX,
        t1 >= 1,
    ensures
        concat_all(operand_bound(uniq_operands(tag_operands(es, t1), vm, fm))).no_duplicates(),
        all_tagged_within(
            concat_all(operand_bound(uniq_operands(tag_operands(es, t1), vm, fm))),
            (t1 - 1) as nat,
            (t1 + total(operand_nodes(es), es.len() as int) - 1) as nat,
        ),
    decreases es, 0nat,
{
    let out = uniq_operands(tag_operands(es, t1), vm, fm);
    let parts = operand_bound(out);
    let sizes = operand_nodes(es);
    let n = es.len() as int;
    let top = (t1 + total(sizes, n) - 1) as nat;
    assert forall|i: int| 0 <= i < n implies (#[trigger] parts[i]).no_duplicates()
        && all_tagged_within(parts[i], t1 + total(sizes, i), t1 + total(sizes, i + 1))
        && all_tagged_within(parts[i], (t1 - 1) as nat, top) by {
        assert(total(sizes, i + 1) == total(sizes, i) + nodes(es[i]));
        lemma_total_mono(sizes, i + 1, n);
        assert(well_formed(es[i], vs, fs));
        let ti = t1 + total(sizes, i);
        lemma_renamed_bound(es[i], ti, vs, fs, vm, fm);
        lemma_widen(parts[i], ti, before_last(es[i], ti), ti, t1 + total(sizes, i + 1));
        lemma_widen(parts[i], ti, before_last(es[i], ti), (t1 - 1) as nat, top);
    }
    lemma_concat_distinct(parts, sizes, t1, n);
    lemma_concat_tagged(parts, n, (t1 - 1) as nat, top);
}

/// The names that a well-formed expression binds, once it is tagged from `t0` and
/// renamed, are distinct, and end in tags of the expression other than its last.
pub proof fn lemma_renamed_bound<S>(
    p: ExpV<S>,
    t0: nat,
    vs: Set<Seq<char>>,
    fs: Map<Seq<char>, nat>,
    vm: Map<Seq<char>, Seq<char>>,
    fm: Map<Seq<char>, Seq<char>>,
)
    requires
        well_formed(p, vs, fs),
        t0 + nodes(p) <= u32::MAX,
    ensures
        bound_names(uniq_spec(tag_spec(p, t0), vm, fm)).no_duplicates(),
        all_tagged_within(
            bound_names(uniq_spec(tag_spec(p, t0), vm, fm)),
            t0,
            before_last(p, t0),
        ),
    decreases p, 1nat,
{
    let q = uniq_spec(tag_spec(p, t0), vm, fm);
    match p {
        ExpV::Num(..) | ExpV::Bool(..) | ExpV::Var(..) => {},
        ExpV::Prim(op, es, _) => {
            lemma_operands_bound(es, t0 + 1, vs, fs, vm, fm);
            let out = uniq_operands(tag_operands(es, t0 + 1), vm, fm);
            assert(q == ExpV::Prim(op, out, ()));
        },
        ExpV::Let { .. } => {
            lemma_let_bound(p, t0, vs, fs, vm, fm);
        },
        ExpV::If { cond, thn, els, .. } => {
            let t1 = t0 + 1;
            let t2 = t1 + nodes(*cond);
            let t3 = t2 + nodes(*thn);
            lemma_renamed_bound(*cond, t1, vs, fs, vm, fm);
            lemma_renamed_bound(*thn, t2, vs, fs, vm, fm);
            lemma_renamed_bound(*els, t3, vs, fs, vm, fm);
            let c = bound_names(uniq_spec(tag_spec(*cond, t1), vm, fm));
            let t = bound_names(uniq_spec(tag_spec(*thn, t2), vm, fm));
            let f = bound_names(uniq_spec(tag_spec(*els, t3), vm, fm));
            lemma_widen(c, t1, before_last(*cond, t1), t0, t2);
            lemma_widen(t, t2, before_last(*thn, t2), t2, t3);
            lemma_add_distinct(c, t, t0, t2, t3);
            lemma_add_distinct(c + t, f, t0, t3, before_last(p, t0));
            assert(bound_names(q) == c + t + f);
        },
        ExpV::FunDefs { .. } => {
            lemma_group_bound(p, t0, vs, fs, vm, fm);
        },
        ExpV::Call(f, args, _) => {
            lemma_operands_bound(args, t0 + 1, vs, fs, vm, fm);
            let out = uniq_operands(tag_operands(args, t0 + 1), vm, fm);
            assert(q == ExpV::Call(fm[f], out, ()));
        },
        ExpV::InternalTailCall(..) | ExpV::ExternalCall { .. } => {},
    }
}

/// `lemma_renamed_bound` for a `Let`.
pub proof fn lemma_let_bound<S>(
    p: ExpV<S>,
    t0: nat,
    vs: Set<Seq<char>>,
    fs: Map<Seq<char>, nat>,
    vm: Map<Seq<char>, Seq<char>>,
    fm: Map<Seq<char>, Seq<char>>,
)
    requires
        p is Let,
        well_formed(p, vs, fs),
        t0 + nodes(p) <= u32::MAX,
    ensures
        bound_names(uniq_spec(tag_spec(p, t0), vm, fm)).no_duplicates(),
        all_tagged_within(
            bound_names(uniq_spec(tag_spec(p, t0), vm, fm)),
            t0,
            before_last(p, t0),
        ),
    decreases p, 0nat,
{
    let q = uniq_spec(tag_spec(p, t0), vm, fm);
    let bindings = p->Let_bindings;
    let body = p->Let_body;
    let names = binding_names(bindings);
    let n = bindings.len() as int;
    let t = (t0 + 1) as u32;
    let sizes = binding_nodes(bindings);
    let tagged = tag_bindings(bindings, t0 + 1);
    assert(binding_names(tagged) =~= names);
    let out = uniq_bindings(tagged, vm, fm, t);
    let heads = fresh_names(names, t);
    assert(binding_names(out) =~= heads);
    lemma_fresh_names_distinct(names, t);
    lemma_fresh_names_tagged(names, t, t0, t0 + 1);
    let parts = binding_bound(out);
    assert forall|i: int| 0 <= i < n implies (#[trigger] parts[i]).no_duplicates()
        && all_tagged_within(parts[i], t0 + 1 + total(sizes, i), t0 + 1 + total(sizes, i + 1)) by {
        assert(total(sizes, i + 1) == total(sizes, i) + nodes(bindings[i].1));
        lemma_total_mono(sizes, i + 1, n);
        assert(well_formed(bindings[i].1, vs.union(names.take(i).to_set()), fs));
        let ti = t0 + 1 + total(sizes, i);
        lemma_renamed_bound(
            bindings[i].1,
            ti,
            vs.union(names.take(i).to_set()),
            fs,
            rename_all(vm, names, i, t),
            fm,
        );
        lemma_widen(parts[i], ti, before_last(bindings[i].1, ti), ti, t0 + 1 + total(sizes, i + 1));
    }
    lemma_concat_distinct(parts, sizes, t0 + 1, n);
    let mid = t0 + 1 + total(sizes, n);
    let inner = rename_all(vm, names, n, t);
    lemma_renamed_bound(*body, mid, vs.union(names.to_set()), fs, inner, fm);
    let b = bound_names(uniq_spec(tag_spec(*body, mid), inner, fm));
    lemma_add_distinct(heads, concat_all(parts), t0, t0 + 1, mid);
    lemma_add_distinct(heads + concat_all(parts), b, t0, mid, before_last(p, t0));
    assert(bound_names(q) == heads + concat_all(parts) + b);
}

/// `lemma_renamed_bound` for a group of functions.
pub proof fn lemma_group_bound<S>(
    p: ExpV<S>,
    t0: nat,
    vs: Set<Seq<char>>,
    fs: Map<Seq<char>, nat>,
    vm: Map<Seq<char>, Seq<char>>,
    fm: Map<Seq<char>, Seq<char>>,
)
    requires
        p is FunDefs,
        well_formed(p, vs, fs),
        t0 + nodes(p) <= u32::MAX,
    ensures
        bound_names(uniq_spec(tag_spec(p, t0), vm, fm)).no_duplicates(),
        all_tagged_within(
            bound_names(uniq_spec(tag_spec(p, t0), vm, fm)),
            t0,
            before_last(p, t0),
        ),
    decreases p, 0nat,
{
    let q = uniq_spec(tag_spec(p, t0), vm, fm);
    let decls = p->FunDefs_decls;
    let body = p->FunDefs_body;
    let names = group_names(decls);
    let n = decls.len() as int;
    let t = (t0 + 1) as u32;
    let sizes = decl_nodes(decls);
    let tagged = tag_group(decls, t0 + 1, t);
    assert(group_names(tagged) =~= names);
    let fs2 = with_group(fs, decls, n);
    let fm2 = rename_all(fm, names, n, t);
    let out = uniq_decls(tagged, vm, fm2, t);
    let heads = fresh_names(names, t);
    assert(group_names(out) =~= heads);
    lemma_fresh_names_distinct(names, t);
    lemma_fresh_names_tagged(names, t, t0, t0 + 1);
    let parts = decl_bound(out);
    assert forall|i: int| 0 <= i < n implies (#[trigger] parts[i]).no_duplicates()
        && all_tagged_within(parts[i], t0 + 1 + total(sizes, i), t0 + 1 + total(sizes, i + 1)) by {
        let ps = decls[i].parameters;
        let ti = t0 + 1 + total(sizes, i);
        let own = last_tag(tagged[i].body);
        assert(total(sizes, i + 1) == total(sizes, i) + nodes(decls[i].body));
        lemma_total_mono(sizes, i + 1, n);
        lemma_last_tag(decls[i].body, ti);
        assert(well_formed(decls[i].body, vs.union(ps.to_set()), fs2));
        lemma_renamed_bound(
            decls[i].body,
            ti,
            vs.union(ps.to_set()),
            fs2,
            rename_all(vm, ps, ps.len() as int, own),
            fm2,
        );
        let inside = bound_names(out[i].body);
        assert(decls[i].parameters.no_duplicates());
        lemma_fresh_names_distinct(ps, own);
        lemma_fresh_names_tagged(ps, own, before_last(decls[i].body, ti), ti + nodes(decls[i].body));
        lemma_add_distinct(
            inside,
            fresh_names(ps, own),
            ti,
            before_last(decls[i].body, ti),
            ti + nodes(decls[i].body),
        );
        assert(parts[i] == inside + fresh_names(ps, own));
    }
    lemma_concat_distinct(parts, sizes, t0 + 1, n);
    let mid = t0 + 1 + total(sizes, n);
    lemma_renamed_bound(*body, mid, vs, fs2, vm, fm2);
    let b = bound_names(uniq_spec(tag_spec(*body, mid), vm, fm2));
    lemma_add_distinct(heads, concat_all(parts), t0, t0 + 1, mid);
    lemma_add_distinct(heads + concat_all(parts), b, t0, mid, before_last(p, t0));
    assert(bound_names(q) == heads + concat_all(parts) + b);
}

/// After renaming, the names that a well-formed program binds are pairwise
/// distinct: the variables of every `Let`, the functions of every group and the
/// parameters of every function, over the whole program.
pub proof fn lemma_renamed_names_distinct<S>(p: ExpV<S>)
    requires
        well_formed_prog(p),
        nodes(p) <= u32::MAX,
    ensures
        bound_names(uniq_prog(tag_spec(p, 0))).no_duplicates(),
{
    lemma_renamed_bound(p, 0, Set::empty(), Map::empty(), Map::empty(), Map::empty());
}

} // verus!
