//! Renaming: every bound name gets the tag of its binder as a suffix, so that no name
//! is bound twice in a program.

use vstd::prelude::*;
use crate::check::{well_formed, well_formed_prog, with_group};
use crate::names::names_of;
use crate::syntax::{
    Exp, ExpV, FunDecl, FunDeclV, binding_names, bindings_view, boxed_exps_view, decls_view,
    exps_view, group_names, lemma_bindings_view_push, lemma_boxed_exps_view_push,
    lemma_decls_view_push, lemma_exps_view_push,
};
use crate::text::{fresh_name, push_decimal};

verus! {

/// `map` after each of the first `n` names of `names` was mapped to itself with the
/// suffix `t`.
pub open spec fn rename_all(
    map: Map<Seq<char>, Seq<char>>,
    names: Seq<Seq<char>>,
    n: int,
    t: u32,
) -> Map<Seq<char>, Seq<char>>
    decreases n,
{
    if n <= 0 || n > names.len() {
        map
    } else {
        rename_all(map, names, n - 1, t).insert(names[n - 1], fresh_name(names[n - 1], t))
    }
}

/// Each name of a list with the suffix `t`.
pub open spec fn fresh_names(names: Seq<Seq<char>>, t: u32) -> Seq<Seq<char>> {
    Seq::new(names.len(), |i: int| fresh_name(names[i], t))
}

/// The tag of the last node of `e`: of the node that tagging, which goes through a
/// node before the nodes below it and through those from left to right, meets last.
/// It is the tag of no node that binds a name, since the body of such a node comes
/// after it.
pub open spec fn last_tag(e: ExpV<u32>) -> u32
    decreases e,
{
    match e {
        ExpV::Num(_, t) => t,
        ExpV::Bool(_, t) => t,
        ExpV::Var(_, t) => t,
        ExpV::Prim(_, es, t) => if es.len() > 0 {
            last_tag(es[es.len() - 1])
        } else {
            t
        },
        ExpV::Let { body, .. } => last_tag(*body),
        ExpV::If { els, .. } => last_tag(*els),
        ExpV::FunDefs { body, .. } => last_tag(*body),
        ExpV::Call(_, args, t) => if args.len() > 0 {
            last_tag(args[args.len() - 1])
        } else {
            t
        },
        ExpV::InternalTailCall(_, args, t) => if args.len() > 0 {
            last_tag(args[args.len() - 1])
        } else {
            t
        },
        ExpV::ExternalCall { args, ann, .. } => if args.len() > 0 {
            last_tag(args[args.len() - 1])
        } else {
            ann
        },
    }
}

/// The expressions of a list, renamed.
pub open spec fn uniq_operands(
    es: Seq<ExpV<u32>>,
    vmap: Map<Seq<char>, Seq<char>>,
    fmap: Map<Seq<char>, Seq<char>>,
) -> Seq<ExpV<()>>
    decreases es,
{
    Seq::new(
        es.len(),
        |i: int|
            if 0 <= i < es.len() {
                uniq_spec(es[i], vmap, fmap)
            } else {
                arbitrary()
            },
    )
}

/// The bindings of the `Let` tagged `t`, renamed: each bound expression sees the new
/// names of the bindings before it.
pub open spec fn uniq_bindings(
    bs: Seq<(Seq<char>, ExpV<u32>)>,
    vmap: Map<Seq<char>, Seq<char>>,
    fmap: Map<Seq<char>, Seq<char>>,
    t: u32,
) -> Seq<(Seq<char>, ExpV<()>)>
    decreases bs,
{
    Seq::new(
        bs.len(),
        |i: int|
            if 0 <= i < bs.len() {
                (
                    fresh_name(bs[i].0, t),
                    uniq_spec(bs[i].1, rename_all(vmap, binding_names(bs), i, t), fmap),
                )
            } else {
                arbitrary()
            },
    )
}

/// The declarations of the group tagged `t`, renamed: each function gets the tag of
/// the group as suffix, and its parameters the tag of the last node of its body,
/// which no other binder has; each body sees the new names of its parameters, and
/// `fmap` holds the new names of the functions of the group.
pub open spec fn uniq_decls(
    ds: Seq<FunDeclV<ExpV<u32>, u32>>,
    vmap: Map<Seq<char>, Seq<char>>,
    fmap: Map<Seq<char>, Seq<char>>,
    t: u32,
) -> Seq<FunDeclV<ExpV<()>, ()>>
    decreases ds,
{
    Seq::new(
        ds.len(),
        |i: int|
            if 0 <= i < ds.len() {
                FunDeclV {
                    name: fresh_name(ds[i].name, t),
                    parameters: fresh_names(ds[i].parameters, last_tag(ds[i].body)),
                    body: uniq_spec(
                        ds[i].body,
                        rename_all(
                            vmap,
                            ds[i].parameters,
                            ds[i].parameters.len() as int,
                            last_tag(ds[i].body),
                        ),
                        fmap,
                    ),
                    ann: (),
                }
            } else {
                arbitrary()
            },
    )
}

/// `e` with every bound name replaced by the name with the tag of its binder as
/// suffix, where `vmap` and `fmap` give the new names of the variables and functions
/// in scope.
pub open spec fn uniq_spec(
    e: ExpV<u32>,
    vmap: Map<Seq<char>, Seq<char>>,
    fmap: Map<Seq<char>, Seq<char>>,
) -> ExpV<()>
    decreases e,
{
    match e {
        ExpV::Num(n, _) => ExpV::Num(n, ()),
        ExpV::Bool(b, _) => ExpV::Bool(b, ()),
        ExpV::Var(x, _) => ExpV::Var(vmap[x], ()),
        ExpV::Prim(p, es, _) => ExpV::Prim(p, uniq_operands(es, vmap, fmap), ()),
        ExpV::Let { bindings, body, ann } => ExpV::Let {
            bindings: uniq_bindings(bindings, vmap, fmap, ann),
            body: Box::new(
                uniq_spec(
                    *body,
                    rename_all(vmap, binding_names(bindings), bindings.len() as int, ann),
                    fmap,
                ),
            ),
            ann: (),
        },
        ExpV::If { cond, thn, els, .. } => ExpV::If {
            cond: Box::new(uniq_spec(*cond, vmap, fmap)),
            thn: Box::new(uniq_spec(*thn, vmap, fmap)),
            els: Box::new(uniq_spec(*els, vmap, fmap)),
            ann: (),
        },
        ExpV::FunDefs { decls, body, ann } => {
            let inner = rename_all(fmap, group_names(decls), decls.len() as int, ann);
            ExpV::FunDefs {
                decls: uniq_decls(decls, vmap, inner, ann),
                body: Box::new(uniq_spec(*body, vmap, inner)),
                ann: (),
            }
        },
        ExpV::Call(f, args, _) => ExpV::Call(fmap[f], uniq_operands(args, vmap, fmap), ()),
        ExpV::InternalTailCall(..) | ExpV::ExternalCall { .. } => ExpV::Bool(false, ()),
    }
}

/// The renamed form of a whole program.
pub open spec fn uniq_prog(p: ExpV<u32>) -> ExpV<()> {
    uniq_spec(p, Map::empty(), Map::empty())
}

/// The names that `rename_all` maps are those of `map` and the first `n` of `names`.
pub proof fn lemma_rename_all_dom(
    map: Map<Seq<char>, Seq<char>>,
    names: Seq<Seq<char>>,
    n: int,
    t: u32,
)
    requires
        0 <= n <= names.len(),
    ensures
        rename_all(map, names, n, t).dom() == map.dom().union(names.take(n).to_set()),
    decreases n,
{
    if n == 0 {
        assert(names.take(0).to_set() =~= Set::<Seq<char>>::empty());
        assert(map.dom().union(names.take(0).to_set()) =~= map.dom());
    } else {
        lemma_rename_all_dom(map, names, n - 1, t);
        assert(names.take(n) =~= names.take(n - 1).push(names[n - 1]));
        names.take(n - 1).lemma_push_to_set_commute(names[n - 1]);
        assert(rename_all(map, names, n, t).dom() =~= map.dom().union(names.take(n).to_set()));
    }
}

/// The functions that `with_group` puts in scope are those of `funs` and the first `n`
/// of the group.
pub proof fn lemma_with_group_dom<E, A>(funs: Map<Seq<char>, nat>, ds: Seq<FunDeclV<E, A>>, n: int)
    requires
        0 <= n <= ds.len(),
    ensures
        with_group(funs, ds, n).dom() == funs.dom().union(group_names(ds).take(n).to_set()),
    decreases n,
{
    let names = group_names(ds);
    if n == 0 {
        assert(names.take(0).to_set() =~= Set::<Seq<char>>::empty());
        assert(funs.dom().union(names.take(0).to_set()) =~= funs.dom());
    } else {
        lemma_with_group_dom(funs, ds, n - 1);
        assert(names.take(n) =~= names.take(n - 1).push(names[n - 1]));
        names.take(n - 1).lemma_push_to_set_commute(names[n - 1]);
        assert(with_group(funs, ds, n).dom() =~= funs.dom().union(names.take(n).to_set()));
    }
}

/// The new names that a list of pairs of old and new names gives.
pub open spec fn pair_map(s: Seq<(String, String)>, n: int) -> Map<Seq<char>, Seq<char>>
    decreases n,
{
    if n <= 0 || n > s.len() {
        Map::empty()
    } else {
        pair_map(s, n - 1).insert(s[n - 1].0@, s[n - 1].1@)
    }
}

proof fn lemma_pair_map_prefix(s: Seq<(String, String)>, t: Seq<(String, String)>, n: int)
    requires
        0 <= n <= s.len(),
        n <= t.len(),
        forall|i: int| 0 <= i < n ==> s[i] == t[i],
    ensures
        pair_map(s, n) == pair_map(t, n),
    decreases n,
{
    if n > 0 {
        lemma_pair_map_prefix(s, t, n - 1);
    }
}

fn new_name(map: &Vec<(String, String)>, x: &String) -> (r: String)
    requires
        pair_map(map@, map.len() as int).contains_key(x@),
    ensures
        r@ == pair_map(map@, map.len() as int)[x@],
{
    let ghost full = pair_map(map@, map.len() as int);
    let mut k: usize = map.len();
    while k > 0
        invariant
            k <= map.len(),
            full == pair_map(map@, map.len() as int),
            full.contains_key(x@),
            pair_map(map@, k as int).contains_key(x@),
            full[x@] == pair_map(map@, k as int)[x@],
        decreases k,
    {
        k -= 1;
        if map[k].0 == *x {
            return map[k].1.clone();
        }
    }
    String::new()
}

fn clone_pairs(map: &Vec<(String, String)>) -> (r: Vec<(String, String)>)
    ensures
        r@ == map@,
{
    let mut r: Vec<(String, String)> = Vec::new();
    let mut i: usize = 0;
    while i < map.len()
        invariant
            i <= map.len(),
            r@ == map@.take(i as int),
        decreases map.len() - i,
    {
        r.push((map[i].0.clone(), map[i].1.clone()));
        assert(r@ =~= map@.take(i + 1));
        i += 1;
    }
    assert(r@ =~= map@);
    r
}

fn fresh(x: &String, t: u32) -> (r: String)
    ensures
        r@ == fresh_name(x@, t),
{
    let mut out: String = x.clone();
    out.append("#");
    push_decimal(&mut out, t as u64);
    out
}

fn bind(map: &mut Vec<(String, String)>, x: &String, t: u32)
    ensures
        pair_map(final(map)@, final(map).len() as int) == pair_map(
            old(map)@,
            old(map).len() as int,
        ).insert(x@, fresh_name(x@, t)),
{
    let ghost before = map@;
    map.push((x.clone(), fresh(x, t)));
    proof {
        lemma_pair_map_prefix(map@, before, before.len() as int);
    }
}

fn last_tag_of(e: &Exp<u32>) -> (t: u32)
    ensures
        t == last_tag(e@),
    decreases e,
{
    match e {
        Exp::Num(_, t) => *t,
        Exp::Bool(_, t) => *t,
        Exp::Var(_, t) => *t,
        Exp::Prim(_, es, t) => {
            assert(e@->Prim_1 == boxed_exps_view(es@));
            if es.len() > 0 {
                assert(boxed_exps_view(es@)[es.len() - 1] == es[es.len() - 1]@);
                last_tag_of(&es[es.len() - 1])
            } else {
                *t
            }
        },
        Exp::Let { body, .. } => last_tag_of(body),
        Exp::If { els, .. } => last_tag_of(els),
        Exp::FunDefs { body, .. } => last_tag_of(body),
        Exp::Call(_, args, t) => {
            assert(e@->Call_1 == exps_view(args@));
            if args.len() > 0 {
                assert(exps_view(args@)[args.len() - 1] == args[args.len() - 1]@);
                last_tag_of(&args[args.len() - 1])
            } else {
                *t
            }
        },
        Exp::InternalTailCall(_, args, t) => {
            assert(e@->InternalTailCall_1 == exps_view(args@));
            if args.len() > 0 {
                assert(exps_view(args@)[args.len() - 1] == args[args.len() - 1]@);
                last_tag_of(&args[args.len() - 1])
            } else {
                *t
            }
        },
        Exp::ExternalCall { args, ann, .. } => {
            assert(e@->ExternalCall_args == exps_view(args@));
            if args.len() > 0 {
                assert(exps_view(args@)[args.len() - 1] == args[args.len() - 1]@);
                last_tag_of(&args[args.len() - 1])
            } else {
                *ann
            }
        },
    }
}

fn bind_all(map: &mut Vec<(String, String)>, names: &Vec<String>, t: u32)
    ensures
        pair_map(final(map)@, final(map).len() as int) == rename_all(
            pair_map(old(map)@, old(map).len() as int),
            names_of(names@),
            names.len() as int,
            t,
        ),
{
    let ghost base = pair_map(map@, map.len() as int);
    let mut i: usize = 0;
    while i < names.len()
        invariant
            i <= names.len(),
            pair_map(map@, map.len() as int) == rename_all(base, names_of(names@), i as int, t),
        decreases names.len() - i,
    {
        bind(map, &names[i], t);
        i += 1;
    }
}

fn fresh_all(names: &Vec<String>, t: u32) -> (r: Vec<String>)
    ensures
        names_of(r@) == fresh_names(names_of(names@), t),
{
    let mut out: Vec<String> = Vec::new();
    let mut i: usize = 0;
    assert(names_of(out@) =~= fresh_names(names_of(names@), t).take(0));
    while i < names.len()
        invariant
            i <= names.len(),
            names_of(out@) == fresh_names(names_of(names@), t).take(i as int),
        decreases names.len() - i,
    {
        let f = fresh(&names[i], t);
        proof {
            let goal = fresh_names(names_of(names@), t);
            assert(names_of(names@)[i as int] == names[i as int]@);
            assert(goal[i as int] == f@);
            assert(names_of(out@.push(f)) =~= names_of(out@).push(f@));
            assert(goal.take(i as int).push(f@) =~= goal.take(i + 1));
        }
        out.push(f);
        i += 1;
    }
    assert(fresh_names(names_of(names@), t).take(names.len() as int) =~= fresh_names(
        names_of(names@),
        t,
    ));
    out
}

fn uniquify_exp(
    e: &Exp<u32>,
    vmap: &Vec<(String, String)>,
    fmap: &Vec<(String, String)>,
    Ghost(funs): Ghost<Map<Seq<char>, nat>>,
) -> (r: Exp<()>)
    requires
        well_formed(e@, pair_map(vmap@, vmap.len() as int).dom(), funs),
        funs.dom() == pair_map(fmap@, fmap.len() as int).dom(),
    ensures
        r@ == uniq_spec(e@, pair_map(vmap@, vmap.len() as int), pair_map(fmap@, fmap.len() as int)),
    decreases e,
{
    let ghost vm = pair_map(vmap@, vmap.len() as int);
    let ghost fm = pair_map(fmap@, fmap.len() as int);
    match e {
        Exp::Num(n, _) => Exp::Num(*n, ()),
        Exp::Bool(b, _) => Exp::Bool(*b, ()),
        Exp::Var(x, _) => Exp::Var(new_name(vmap, x), ()),
        Exp::Prim(p, es, _) => {
            assert(e@->Prim_1 == boxed_exps_view(es@));
            Exp::Prim(*p, uniquify_boxed(es, vmap, fmap, Ghost(funs)), ())
        },
        Exp::Let { bindings, body, ann } => {
            assert(e@->Let_bindings == bindings_view(bindings@));
            let (out, inner) = uniquify_let(bindings, vmap, fmap, *ann, Ghost(funs));
            proof {
                let names = binding_names(e@->Let_bindings);
                lemma_rename_all_dom(vm, names, names.len() as int, *ann);
                assert(names.take(names.len() as int) =~= names);
            }
            let b = uniquify_exp(body, &inner, fmap, Ghost(funs));
            Exp::Let { bindings: out, body: Box::new(b), ann: () }
        },
        Exp::If { cond, thn, els, .. } => {
            let c = uniquify_exp(cond, vmap, fmap, Ghost(funs));
            let t = uniquify_exp(thn, vmap, fmap, Ghost(funs));
            let f = uniquify_exp(els, vmap, fmap, Ghost(funs));
            Exp::If { cond: Box::new(c), thn: Box::new(t), els: Box::new(f), ann: () }
        },
        Exp::FunDefs { decls, body, ann } => {
            assert(e@->FunDefs_decls == decls_view(decls@));
            let ghost dv = e@->FunDefs_decls;
            let ghost inner_funs = with_group(funs, dv, dv.len() as int);
            let mut inner: Vec<(String, String)> = clone_pairs(fmap);
            let mut i: usize = 0;
            while i < decls.len()
                invariant
                    i <= decls.len(),
                    dv == decls_view(decls@),
                    pair_map(inner@, inner.len() as int) == rename_all(
                        fm,
                        group_names(dv),
                        i as int,
                        *ann,
                    ),
                decreases decls.len() - i,
            {
                assert(group_names(dv)[i as int] == decls[i as int].name@);
                bind(&mut inner, &decls[i].name, *ann);
                i += 1;
            }
            proof {
                let names = group_names(dv);
                lemma_rename_all_dom(fm, names, names.len() as int, *ann);
                lemma_with_group_dom(funs, dv, dv.len() as int);
            }
            let out = uniquify_decls(decls, vmap, &inner, *ann, Ghost(inner_funs));
            let b = uniquify_exp(body, vmap, &inner, Ghost(inner_funs));
            Exp::FunDefs { decls: out, body: Box::new(b), ann: () }
        },
        Exp::Call(f, args, _) => {
            assert(e@->Call_1 == exps_view(args@));
            Exp::Call(new_name(fmap, f), uniquify_args(args, vmap, fmap, Ghost(funs)), ())
        },
        Exp::InternalTailCall(..) => {
            assert(false);
            Exp::Bool(false, ())
        },
        Exp::ExternalCall { .. } => {
            assert(false);
            Exp::Bool(false, ())
        },
    }
}

fn uniquify_boxed(
    es: &Vec<Box<Exp<u32>>>,
    vmap: &Vec<(String, String)>,
    fmap: &Vec<(String, String)>,
    Ghost(funs): Ghost<Map<Seq<char>, nat>>,
) -> (r: Vec<Box<Exp<()>>>)
    requires
        forall|i: int|
            0 <= i < boxed_exps_view(es@).len() ==> well_formed(
                #[trigger] boxed_exps_view(es@)[i],
                pair_map(vmap@, vmap.len() as int).dom(),
                funs,
            ),
        funs.dom() == pair_map(fmap@, fmap.len() as int).dom(),
    ensures
        boxed_exps_view(r@) == uniq_operands(
            boxed_exps_view(es@),
            pair_map(vmap@, vmap.len() as int),
            pair_map(fmap@, fmap.len() as int),
        ),
    decreases es,
{
    let ghost ev = boxed_exps_view(es@);
    let ghost vm = pair_map(vmap@, vmap.len() as int);
    let ghost fm = pair_map(fmap@, fmap.len() as int);
    let ghost goal = uniq_operands(ev, vm, fm);
    let mut out: Vec<Box<Exp<()>>> = Vec::new();
    assert(boxed_exps_view(out@) =~= goal.take(0));
    let mut i: usize = 0;
    while i < es.len()
        invariant
            i <= es.len(),
            ev == boxed_exps_view(es@),
            vm == pair_map(vmap@, vmap.len() as int),
            fm == pair_map(fmap@, fmap.len() as int),
            goal == uniq_operands(ev, vm, fm),
            forall|i: int| 0 <= i < ev.len() ==> well_formed(#[trigger] ev[i], vm.dom(), funs),
            funs.dom() == fm.dom(),
            boxed_exps_view(out@) == goal.take(i as int),
        decreases es.len() - i,
    {
        assert(ev[i as int] == es[i as int]@);
        let x = Box::new(uniquify_exp(&es[i], vmap, fmap, Ghost(funs)));
        proof {
            lemma_boxed_exps_view_push(out@, x);
            assert(goal.take(i as int).push((*x)@) =~= goal.take(i + 1));
        }
        out.push(x);
        i += 1;
    }
    assert(goal.take(es.len() as int) =~= goal);
    out
}

fn uniquify_args(
    es: &Vec<Exp<u32>>,
    vmap: &Vec<(String, String)>,
    fmap: &Vec<(String, String)>,
    Ghost(funs): Ghost<Map<Seq<char>, nat>>,
) -> (r: Vec<Exp<()>>)
    requires
        forall|i: int|
            0 <= i < exps_view(es@).len() ==> well_formed(
                #[trigger] exps_view(es@)[i],
                pair_map(vmap@, vmap.len() as int).dom(),
                funs,
            ),
        funs.dom() == pair_map(fmap@, fmap.len() as int).dom(),
    ensures
        exps_view(r@) == uniq_operands(
            exps_view(es@),
            pair_map(vmap@, vmap.len() as int),
            pair_map(fmap@, fmap.len() as int),
        ),
    decreases es,
{
    let ghost ev = exps_view(es@);
    let ghost vm = pair_map(vmap@, vmap.len() as int);
    let ghost fm = pair_map(fmap@, fmap.len() as int);
    let ghost goal = uniq_operands(ev, vm, fm);
    let mut out: Vec<Exp<()>> = Vec::new();
    assert(exps_view(out@) =~= goal.take(0));
    let mut i: usize = 0;
    while i < es.len()
        invariant
            i <= es.len(),
            ev == exps_view(es@),
            vm == pair_map(vmap@, vmap.len() as int),
            fm == pair_map(fmap@, fmap.len() as int),
            goal == uniq_operands(ev, vm, fm),
            forall|i: int| 0 <= i < ev.len() ==> well_formed(#[trigger] ev[i], vm.dom(), funs),
            funs.dom() == fm.dom(),
            exps_view(out@) == goal.take(i as int),
        decreases es.len() - i,
    {
        assert(ev[i as int] == es[i as int]@);
        let x = uniquify_exp(&es[i], vmap, fmap, Ghost(funs));
        proof {
            lemma_exps_view_push(out@, x);
            assert(goal.take(i as int).push(x@) =~= goal.take(i + 1));
        }
        out.push(x);
        i += 1;
    }
    assert(goal.take(es.len() as int) =~= goal);
    out
}

fn uniquify_let(
    bs: &Vec<(String, Exp<u32>)>,
    vmap: &Vec<(String, String)>,
    fmap: &Vec<(String, String)>,
    t: u32,
    Ghost(funs): Ghost<Map<Seq<char>, nat>>,
) -> (r: (Vec<(String, Exp<()>)>, Vec<(String, String)>))
    requires
        forall|i: int|
            0 <= i < bindings_view(bs@).len() ==> well_formed(
                (#[trigger] bindings_view(bs@)[i]).1,
                pair_map(vmap@, vmap.len() as int).dom().union(
                    binding_names(bindings_view(bs@)).take(i).to_set(),
                ),
                funs,
            ),
        funs.dom() == pair_map(fmap@, fmap.len() as int).dom(),
    ensures
        bindings_view(r.0@) == uniq_bindings(
            bindings_view(bs@),
            pair_map(vmap@, vmap.len() as int),
            pair_map(fmap@, fmap.len() as int),
            t,
        ),
        pair_map(r.1@, r.1.len() as int) == rename_all(
            pair_map(vmap@, vmap.len() as int),
            binding_names(bindings_view(bs@)),
            bs.len() as int,
            t,
        ),
    decreases bs,
{
    let ghost bv = bindings_view(bs@);
    let ghost names = binding_names(bv);
    let ghost vm = pair_map(vmap@, vmap.len() as int);
    let ghost fm = pair_map(fmap@, fmap.len() as int);
    let ghost goal = uniq_bindings(bv, vm, fm, t);
    let mut out: Vec<(String, Exp<()>)> = Vec::new();
    let mut cur: Vec<(String, String)> = clone_pairs(vmap);
    assert(bindings_view(out@) =~= goal.take(0));
    let mut i: usize = 0;
    while i < bs.len()
        invariant
            i <= bs.len(),
            bv == bindings_view(bs@),
            names == binding_names(bv),
            vm == pair_map(vmap@, vmap.len() as int),
            fm == pair_map(fmap@, fmap.len() as int),
            goal == uniq_bindings(bv, vm, fm, t),
            forall|i: int|
                0 <= i < bv.len() ==> well_formed(
                    (#[trigger] bv[i]).1,
                    vm.dom().union(names.take(i).to_set()),
                    funs,
                ),
            funs.dom() == fm.dom(),
            bindings_view(out@) == goal.take(i as int),
            pair_map(cur@, cur.len() as int) == rename_all(vm, names, i as int, t),
        decreases bs.len() - i,
    {
        assert(bv[i as int].1 == bs[i as int].1@);
        assert(bv[i as int].0 == bs[i as int].0@);
        assert(names[i as int] == bs[i as int].0@);
        proof {
            lemma_rename_all_dom(vm, names, i as int, t);
        }
        let x = (fresh(&bs[i].0, t), uniquify_exp(&bs[i].1, &cur, fmap, Ghost(funs)));
        proof {
            lemma_bindings_view_push(out@, x);
            assert(goal.take(i as int).push((x.0@, x.1@)) =~= goal.take(i + 1));
        }
        out.push(x);
        bind(&mut cur, &bs[i].0, t);
        i += 1;
    }
    assert(goal.take(bs.len() as int) =~= goal);
    (out, cur)
}

fn uniquify_decls(
    ds: &Vec<FunDecl<Exp<u32>, u32>>,
    vmap: &Vec<(String, String)>,
    fmap: &Vec<(String, String)>,
    t: u32,
    Ghost(funs): Ghost<Map<Seq<char>, nat>>,
) -> (r: Vec<FunDecl<Exp<()>, ()>>)
    requires
        forall|i: int|
            0 <= i < decls_view(ds@).len() ==> well_formed(
                (#[trigger] decls_view(ds@)[i]).body,
                pair_map(vmap@, vmap.len() as int).dom().union(
                    decls_view(ds@)[i].parameters.to_set(),
                ),
                funs,
            ),
        funs.dom() == pair_map(fmap@, fmap.len() as int).dom(),
    ensures
        decls_view(r@) == uniq_decls(
            decls_view(ds@),
            pair_map(vmap@, vmap.len() as int),
            pair_map(fmap@, fmap.len() as int),
            t,
        ),
    decreases ds,
{
    let ghost dv = decls_view(ds@);
    let ghost vm = pair_map(vmap@, vmap.len() as int);
    let ghost fm = pair_map(fmap@, fmap.len() as int);
    let ghost goal = uniq_decls(dv, vm, fm, t);
    let mut out: Vec<FunDecl<Exp<()>, ()>> = Vec::new();
    assert(decls_view(out@) =~= goal.take(0));
    let mut i: usize = 0;
    while i < ds.len()
        invariant
            i <= ds.len(),
            dv == decls_view(ds@),
            vm == pair_map(vmap@, vmap.len() as int),
            fm == pair_map(fmap@, fmap.len() as int),
            goal == uniq_decls(dv, vm, fm, t),
            forall|i: int|
                0 <= i < dv.len() ==> well_formed(
                    (#[trigger] dv[i]).body,
                    vm.dom().union(dv[i].parameters.to_set()),
                    funs,
                ),
            funs.dom() == fm.dom(),
            decls_view(out@) == goal.take(i as int),
        decreases ds.len() - i,
    {
        let d = &ds[i];
        assert(dv[i as int].body == d.body@);
        assert(dv[i as int].name == d.name@);
        assert(dv[i as int].parameters == names_of(d.parameters@));
        let own: u32 = last_tag_of(&d.body);
        let mut inner: Vec<(String, String)> = clone_pairs(vmap);
        bind_all(&mut inner, &d.parameters, own);
        proof {
            let ps = names_of(d.parameters@);
            lemma_rename_all_dom(vm, ps, ps.len() as int, own);
            assert(ps.take(ps.len() as int) =~= ps);
        }
        let x = FunDecl {
            name: fresh(&d.name, t),
            parameters: fresh_all(&d.parameters, own),
            body: uniquify_exp(&d.body, &inner, fmap, Ghost(funs)),
            ann: (),
        };
        proof {
            lemma_decls_view_push(out@, x);
            assert(goal.take(i as int).push(x@) =~= goal.take(i + 1));
        }
        out.push(x);
        i += 1;
    }
    assert(goal.take(ds.len() as int) =~= goal);
    out
}

/// Renames every bound name of the well-formed program `e`.
pub fn uniquify(e: &Exp<u32>) -> (r: Exp<()>)
    requires
        well_formed_prog(e@),
    ensures
        r@ == uniq_prog(e@),
{
    let vmap: Vec<(String, String)> = Vec::new();
    let fmap: Vec<(String, String)> = Vec::new();
    uniquify_exp(e, &vmap, &fmap, Ghost(Map::empty()))
}

} // verus!
