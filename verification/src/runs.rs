//! The law that joins the meaning of an expression of the source language and the
//! run of its code: the code of the sequential form of an expression without
//! printing, local functions and calls leaves the value of the expression in `rax`,
//! or traps with the error of the expression.

use vstd::prelude::*;
use crate::codegen::{FRAME_LIMIT, exp_code, reach};
use crate::control::exec;
use crate::labels::{call_free, lemma_tagged_code_runs};
use crate::machine::{
    Machine, Res, Val, ends_as, eval, fresh_lets, lits_in_range, packed, slots_hold,
};
use crate::meaning::{
    above, binary_form, generated, if_form, lemma_made_names, lemma_other_names,
    lemma_seq_keeps_meaning, meaning, simple, stem, tag_of, unary_form,
};
use crate::scope::lifted_ok;
use crate::sequential::{
    fold_lets, if_name, prim1_name, prim2_first_name, prim2_second_name, seq_bindings, seq_exp,
};
use crate::sequential_proofs::{lemma_seq_ready, lemma_tag_seq_ready, pair_names};
use crate::syntax::{ExpV, ImmExpV, Prim, SeqExpV, binding_names};
use crate::tag::{seq_nodes, tag_seq_spec};
use crate::text::decimal;
use crate::uniquify_proofs::unshadowed;
use crate::value::in_range;

verus! {

/// Tagging a sequential expression without local functions and calls changes
/// neither what it comes to, nor how far its code reaches, nor whether its numbers are in range
/// and its variables new where they are bound.
pub proof fn lemma_tag_seq_keeps<A>(
    s: SeqExpV<A>,
    t: nat,
    vars: Set<Seq<char>>,
    venv: Map<Seq<char>, Val>,
)
    requires
        call_free(s),
    ensures
        eval(tag_seq_spec(s, t), venv) == eval(s, venv),
        reach(tag_seq_spec(s, t)) == reach(s),
        lits_in_range(tag_seq_spec(s, t)) == lits_in_range(s),
        fresh_lets(tag_seq_spec(s, t), vars) == fresh_lets(s, vars),
    decreases s,
{
    match s {
        SeqExpV::Let { var, bound_exp, body, .. } => {
            lemma_tag_seq_keeps(*bound_exp, t + 1, vars, venv);
            lemma_tag_seq_keeps(*body, t + 1 + seq_nodes(*bound_exp), vars.insert(var), venv);
            match eval(*bound_exp, venv) {
                Res::Value(v) => {
                    lemma_tag_seq_keeps(
                        *body,
                        t + 1 + seq_nodes(*bound_exp),
                        vars.insert(var),
                        venv.insert(var, v),
                    );
                },
                _ => {},
            }
        },
        SeqExpV::If { thn, els, .. } => {
            lemma_tag_seq_keeps(*thn, t + 1, vars, venv);
            lemma_tag_seq_keeps(*els, t + 1 + seq_nodes(*thn), vars, venv);
        },
        _ => {},
    }
}

/// Whether every number that is written in `e` is in range.
pub open spec fn small_numbers<A>(e: ExpV<A>) -> bool
    decreases e,
{
    match e {
        ExpV::Num(n, _) => in_range(n as int),
        ExpV::Prim(_, es, _) => forall|i: int| 0 <= i < es.len() ==> small_numbers(#[trigger] es[i]),
        ExpV::Let { bindings, body, .. } => {
            &&& forall|i: int| 0 <= i < bindings.len() ==> small_numbers((#[trigger] bindings[i]).1)
            &&& small_numbers(*body)
        },
        ExpV::If { cond, thn, els, .. } => small_numbers(*cond) && small_numbers(*thn)
            && small_numbers(*els),
        _ => true,
    }
}

/// A chain of lets holds no local function, no call and no number out of range
/// where neither its bound expressions do nor the expression that it is around.
pub proof fn lemma_fold_shape(pairs: Seq<(Seq<char>, SeqExpV<()>)>, i: int, tail: SeqExpV<()>)
    requires
        0 <= i,
        forall|j: int|
            i <= j < pairs.len() ==> call_free((#[trigger] pairs[j]).1) && lits_in_range(
                pairs[j].1,
            ),
        call_free(tail),
        lits_in_range(tail),
    ensures
        call_free(fold_lets(pairs, i, tail)),
        lits_in_range(fold_lets(pairs, i, tail)),
    decreases pairs.len() - i,
{
    if i < pairs.len() {
        assert(call_free(pairs[i].1) && lits_in_range(pairs[i].1));
        lemma_fold_shape(pairs, i + 1, tail);
    }
}

/// The sequential form of a node holds no local function, no call and no number
/// out of range where its parts hold none.
pub proof fn lemma_forms_shape(p: Prim, a: SeqExpV<()>, b: SeqExpV<()>, c: SeqExpV<()>, t: u32)
    requires
        call_free(a) && lits_in_range(a),
        call_free(b) && lits_in_range(b),
        call_free(c) && lits_in_range(c),
    ensures
        call_free(unary_form(p, a, t)) && lits_in_range(unary_form(p, a, t)),
        call_free(binary_form(p, a, b, t)) && lits_in_range(binary_form(p, a, b, t)),
        call_free(if_form(a, b, c, t)) && lits_in_range(if_form(a, b, c, t)),
{
    let one = seq![ImmExpV::Var(prim1_name(t))];
    assert(lits_in_range(SeqExpV::Prim(p, one, ())));
    assert(call_free(SeqExpV::Prim(p, one, ())));
    let two = seq![ImmExpV::Var(prim2_first_name(t)), ImmExpV::Var(prim2_second_name(t))];
    assert(lits_in_range(SeqExpV::Prim(p, two, ())));
    assert(call_free(SeqExpV::Prim(p, two, ())));
    let inner = SeqExpV::Let {
        var: prim2_second_name(t),
        bound_exp: Box::new(b),
        body: Box::new(SeqExpV::Prim(p, two, ())),
        ann: (),
    };
    assert(call_free(inner) && lits_in_range(inner));
    let branch = SeqExpV::If {
        cond: ImmExpV::Var(if_name(t)),
        thn: Box::new(b),
        els: Box::new(c),
        ann: (),
    };
    assert(call_free(branch) && lits_in_range(branch));
}

/// The sequential form of a simple expression holds no local function and no call,
/// and no number out of range where the expression holds none.
pub proof fn lemma_seq_shape(e: ExpV<u32>)
    requires
        simple(e),
        small_numbers(e),
    ensures
        call_free(seq_exp(e)),
        lits_in_range(seq_exp(e)),
    decreases e,
{
    match e {
        ExpV::Prim(p, es, t) => {
            lemma_seq_shape(es[0]);
            if p.unary() {
                assert(seq_exp(e) == unary_form(p, seq_exp(es[0]), t));
                lemma_forms_shape(p, seq_exp(es[0]), seq_exp(es[0]), seq_exp(es[0]), t);
            } else {
                lemma_seq_shape(es[1]);
                assert(seq_exp(e) == binary_form(p, seq_exp(es[0]), seq_exp(es[1]), t));
                lemma_forms_shape(p, seq_exp(es[0]), seq_exp(es[1]), seq_exp(es[1]), t);
            }
        },
        ExpV::Let { bindings, body, .. } => {
            let pairs = seq_bindings(bindings);
            assert forall|j: int| 0 <= j < pairs.len() implies call_free((#[trigger] pairs[j]).1)
                && lits_in_range(pairs[j].1) by {
                assert(simple(bindings[j].1) && small_numbers(bindings[j].1));
                lemma_seq_shape(bindings[j].1);
            }
            lemma_seq_shape(*body);
            lemma_fold_shape(pairs, 0, seq_exp(*body));
        },
        ExpV::If { cond, thn, els, ann } => {
            lemma_seq_shape(*cond);
            lemma_seq_shape(*thn);
            lemma_seq_shape(*els);
            assert(seq_exp(e) == if_form(seq_exp(*cond), seq_exp(*thn), seq_exp(*els), ann));
            lemma_forms_shape(Prim::Add, seq_exp(*cond), seq_exp(*thn), seq_exp(*els), ann);
        },
        _ => {},
    }
}

/// The name made of the stem `a` and the number `n`.
pub open spec fn numbered(a: Seq<char>, n: nat) -> Seq<char> {
    a + decimal(n)
}

/// Whether every name of `vars` that begins like the names that sequentialization
/// makes is made of a stem and a number that is at most `lo`.
pub open spec fn low_names(vars: Set<Seq<char>>, lo: nat) -> bool {
    forall|x: Seq<char>| #[trigger]
        vars.contains(x) && generated(x) ==> exists|a: Seq<char>, n: nat|
            stem(a) && n <= lo && x == #[trigger] numbered(a, n)
}

/// Names that are low for a number are low for a larger one, and stay so with
/// names that sequentialization does not make.
pub proof fn lemma_low_names_more(vars: Set<Seq<char>>, lo: nat, more: Set<Seq<char>>, hi: nat)
    requires
        low_names(vars, lo),
        lo <= hi,
        forall|x: Seq<char>| #[trigger] more.contains(x) ==> !generated(x),
    ensures
        low_names(vars.union(more), hi),
{
    assert forall|x: Seq<char>| #[trigger]
        vars.union(more).contains(x) && generated(x) implies exists|a: Seq<char>, n: nat|
        stem(a) && n <= hi && x == #[trigger] numbered(a, n) by {
        assert(vars.contains(x));
        let (a, n) = choose|a: Seq<char>, n: nat|
            stem(a) && n <= lo && x == #[trigger] numbered(a, n);
        assert(stem(a) && n <= hi && x == numbered(a, n));
    }
}

/// The names that sequentialization makes for a node tagged `t` are new where the
/// names in scope are low for a number below `t`, and with any of them in scope the
/// names in scope are low for `t`.
pub proof fn lemma_names_new(t: u32, vars: Set<Seq<char>>, lo: nat)
    requires
        low_names(vars, lo),
        lo < t,
    ensures
        !vars.contains(prim1_name(t)),
        !vars.contains(prim2_first_name(t)),
        !vars.contains(prim2_second_name(t)),
        !vars.contains(if_name(t)),
        low_names(vars, t as nat),
        low_names(vars.insert(prim1_name(t)), t as nat),
        low_names(vars.insert(prim2_first_name(t)), t as nat),
        low_names(vars.insert(if_name(t)), t as nat),
{
    lemma_made_names(t);
    let names = seq![prim1_name(t), prim2_first_name(t), prim2_second_name(t), if_name(t)];
    let stems = seq!["#prim1_"@, "#prim2_1_"@, "#prim2_2_"@, "#if_cond_"@];
    assert forall|k: int| 0 <= k < 4 implies !vars.contains(#[trigger] names[k]) by {
        let x = names[k];
        assert(x == numbered(stems[k], t as nat));
        assert(x[0] == stems[k][0]);
        if vars.contains(x) {
            let (a, n) = choose|a: Seq<char>, n: nat|
                stem(a) && n <= lo && x == #[trigger] numbered(a, n);
            lemma_other_names(t, a, n);
        }
    }
    assert(!vars.contains(names[0]));
    assert(!vars.contains(names[1]));
    assert(!vars.contains(names[2]));
    assert(!vars.contains(names[3]));
    lemma_low_names_more(vars, lo, Set::empty(), t as nat);
    assert(vars.union(Set::empty()) =~= vars);
    assert forall|k: int| 0 <= k < 4 implies low_names(vars.insert(#[trigger] names[k]), t as nat) by {
        let more = vars.insert(names[k]);
        assert forall|x: Seq<char>| #[trigger]
            more.contains(x) && generated(x) implies exists|a: Seq<char>, n: nat|
            stem(a) && n <= t && x == #[trigger] numbered(a, n) by {
            if x == names[k] {
                assert(stem(stems[k]) && t <= t && x == numbered(stems[k], t as nat));
            } else {
                assert(vars.contains(x));
                let (a, n) = choose|a: Seq<char>, n: nat|
                    stem(a) && n <= t && x == #[trigger] numbered(a, n);
                assert(stem(a) && n <= t && x == numbered(a, n));
            }
        }
    }
    assert(low_names(vars.insert(names[0]), t as nat));
    assert(low_names(vars.insert(names[1]), t as nat));
    assert(low_names(vars.insert(names[3]), t as nat));
}

/// A simple expression without a binder that binds a name in scope has none with
/// one more name in scope that sequentialization makes.
pub proof fn lemma_unshadowed_more<A>(e: ExpV<A>, vars: Set<Seq<char>>, x: Seq<char>)
    requires
        simple(e),
        unshadowed(e, vars),
        generated(x),
    ensures
        unshadowed(e, vars.insert(x)),
    decreases e,
{
    match e {
        ExpV::Prim(_, es, _) => {
            assert forall|i: int| 0 <= i < es.len() implies unshadowed(
                #[trigger] es[i],
                vars.insert(x),
            ) by {
                assert(simple(es[i]));
                lemma_unshadowed_more(es[i], vars, x);
            }
        },
        ExpV::Let { bindings, body, .. } => {
            let names = binding_names(bindings);
            assert forall|i: int| 0 <= i < bindings.len() implies !vars.insert(x).contains(
                #[trigger] names[i],
            ) by {
                assert(!generated(bindings[i].0));
                assert(!vars.contains(names[i]));
            }
            assert forall|i: int| 0 <= i < bindings.len() implies unshadowed(
                (#[trigger] bindings[i]).1,
                vars.insert(x).union(names.take(i).to_set()),
            ) by {
                assert(simple(bindings[i].1));
                lemma_unshadowed_more(bindings[i].1, vars.union(names.take(i).to_set()), x);
                assert(vars.insert(x).union(names.take(i).to_set()) =~= vars.union(
                    names.take(i).to_set(),
                ).insert(x));
            }
            lemma_unshadowed_more(*body, vars.union(names.to_set()), x);
            assert(vars.insert(x).union(names.to_set()) =~= vars.union(names.to_set()).insert(x));
        },
        ExpV::If { cond, thn, els, .. } => {
            lemma_unshadowed_more(*cond, vars, x);
            lemma_unshadowed_more(*thn, vars, x);
            lemma_unshadowed_more(*els, vars, x);
        },
        _ => {},
    }
}

/// Every `Let` of a chain of lets binds a new variable where the variables of the
/// chain are new and differ from each other, and every `Let` of the bound
/// expressions and of the expression that the chain is around binds a new one.
pub proof fn lemma_fold_fresh(
    pairs: Seq<(Seq<char>, SeqExpV<()>)>,
    i: int,
    tail: SeqExpV<()>,
    vars: Set<Seq<char>>,
)
    requires
        0 <= i <= pairs.len(),
        pair_names(pairs).no_duplicates(),
        forall|j: int| 0 <= j < pairs.len() ==> !vars.contains(#[trigger] pair_names(pairs)[j]),
        forall|j: int|
            0 <= j < pairs.len() ==> fresh_lets(
                (#[trigger] pairs[j]).1,
                vars.union(pair_names(pairs).take(j).to_set()),
            ),
        fresh_lets(tail, vars.union(pair_names(pairs).to_set())),
    ensures
        fresh_lets(fold_lets(pairs, i, tail), vars.union(pair_names(pairs).take(i).to_set())),
    decreases pairs.len() - i,
{
    let names = pair_names(pairs);
    if i < pairs.len() {
        lemma_fold_fresh(pairs, i + 1, tail, vars);
        assert(names.take(i + 1) =~= names.take(i).push(names[i]));
        names.take(i).lemma_push_to_set_commute(names[i]);
        assert(vars.union(names.take(i).to_set()).insert(pairs[i].0) =~= vars.union(
            names.take(i + 1).to_set(),
        ));
        assert(fresh_lets(pairs[i].1, vars.union(names.take(i).to_set())));
        assert(!vars.contains(names[i]));
        assert(!names.take(i).to_set().contains(names[i])) by {
            if names.take(i).contains(names[i]) {
                let k = choose|k: int| 0 <= k < i && names.take(i)[k] == names[i];
                assert(names[k] == names[i]);
            }
        }
    } else {
        assert(names.take(i) =~= names);
    }
}

/// Every `Let` of the sequential form of a node binds a new variable where the
/// names of the node are new and every `Let` of the parts binds a new one.
pub proof fn lemma_forms_fresh(
    p: Prim,
    a: SeqExpV<()>,
    b: SeqExpV<()>,
    c: SeqExpV<()>,
    t: u32,
    vars: Set<Seq<char>>,
)
    requires
        !vars.contains(prim1_name(t)),
        !vars.contains(prim2_first_name(t)),
        !vars.contains(prim2_second_name(t)),
        !vars.contains(if_name(t)),
        fresh_lets(a, vars),
    ensures
        fresh_lets(unary_form(p, a, t), vars),
        fresh_lets(b, vars.insert(prim2_first_name(t))) ==> fresh_lets(
            binary_form(p, a, b, t),
            vars,
        ),
        fresh_lets(b, vars.insert(if_name(t))) && fresh_lets(c, vars.insert(if_name(t)))
            ==> fresh_lets(if_form(a, b, c, t), vars),
{
    lemma_made_names(t);
    let one = seq![ImmExpV::Var(prim1_name(t))];
    assert(fresh_lets(SeqExpV::Prim(p, one, ()), vars.insert(prim1_name(t))));
    let two = seq![ImmExpV::Var(prim2_first_name(t)), ImmExpV::Var(prim2_second_name(t))];
    let scope = vars.insert(prim2_first_name(t));
    assert(fresh_lets(SeqExpV::Prim(p, two, ()), scope.insert(prim2_second_name(t))));
    let inner = SeqExpV::Let {
        var: prim2_second_name(t),
        bound_exp: Box::new(b),
        body: Box::new(SeqExpV::Prim(p, two, ())),
        ann: (),
    };
    assert(fresh_lets(b, scope) ==> fresh_lets(inner, scope));
    let branch = SeqExpV::If {
        cond: ImmExpV::Var(if_name(t)),
        thn: Box::new(b),
        els: Box::new(c),
        ann: (),
    };
    assert(fresh_lets(b, vars.insert(if_name(t))) && fresh_lets(c, vars.insert(if_name(t)))
        ==> fresh_lets(branch, vars.insert(if_name(t))));
}

/// Every `Let` of the sequential form of a simple expression binds a variable that
/// is not in scope, where no binder of the expression binds a name in scope and
/// the names in scope are low for a number below the tags of the expression.
pub proof fn lemma_seq_fresh(e: ExpV<u32>, lo: nat, vars: Set<Seq<char>>)
    requires
        simple(e),
        above(e, lo),
        unshadowed(e, vars),
        low_names(vars, lo),
    ensures
        fresh_lets(seq_exp(e), vars),
    decreases e,
{
    let t = tag_of(e);
    lemma_names_new(t, vars, lo);
    lemma_made_names(t);
    match e {
        ExpV::Prim(p, es, _) => {
            let a = seq_exp(es[0]);
            lemma_seq_fresh(es[0], t as nat, vars);
            if p.unary() {
                assert(seq_exp(e) == unary_form(p, a, t));
                lemma_forms_fresh(p, a, a, a, t, vars);
            } else {
                let b = seq_exp(es[1]);
                lemma_other_names(0, "#prim2_1_"@, t as nat);
                lemma_unshadowed_more(es[1], vars, prim2_first_name(t));
                lemma_seq_fresh(es[1], t as nat, vars.insert(prim2_first_name(t)));
                assert(seq_exp(e) == binary_form(p, a, b, t));
                lemma_forms_fresh(p, a, b, b, t, vars);
            }
        },
        ExpV::Let { bindings, body, .. } => {
            let pairs = seq_bindings(bindings);
            let names = binding_names(bindings);
            assert(pair_names(pairs) =~= names);
            assert forall|x: Seq<char>| #[trigger] names.to_set().contains(x) implies !generated(
                x,
            ) by {
                let k = choose|k: int| 0 <= k < names.len() && names[k] == x;
                assert(!generated(bindings[k].0));
            }
            assert forall|j: int| 0 <= j < pairs.len() implies fresh_lets(
                (#[trigger] pairs[j]).1,
                vars.union(names.take(j).to_set()),
            ) by {
                assert(simple(bindings[j].1) && above(bindings[j].1, t as nat));
                assert(unshadowed(bindings[j].1, vars.union(names.take(j).to_set())));
                assert forall|x: Seq<char>| #[trigger]
                    names.take(j).to_set().contains(x) implies !generated(x) by {
                    let k = choose|k: int| 0 <= k < j && names.take(j)[k] == x;
                    assert(names[k] == x);
                    assert(names.to_set().contains(x));
                }
                lemma_low_names_more(vars, t as nat, names.take(j).to_set(), t as nat);
                lemma_seq_fresh(bindings[j].1, t as nat, vars.union(names.take(j).to_set()));
            }
            lemma_low_names_more(vars, t as nat, names.to_set(), t as nat);
            lemma_seq_fresh(*body, t as nat, vars.union(names.to_set()));
            lemma_fold_fresh(pairs, 0, seq_exp(*body), vars);
            assert(names.take(0).to_set() =~= Set::<Seq<char>>::empty());
            assert(vars.union(names.take(0).to_set()) =~= vars);
        },
        ExpV::If { cond, thn, els, .. } => {
            let x = if_name(t);
            lemma_other_names(0, "#if_cond_"@, t as nat);
            lemma_seq_fresh(*cond, t as nat, vars);
            lemma_unshadowed_more(*thn, vars, x);
            lemma_unshadowed_more(*els, vars, x);
            lemma_seq_fresh(*thn, t as nat, vars.insert(x));
            lemma_seq_fresh(*els, t as nat, vars.insert(x));
            assert(seq_exp(e) == if_form(seq_exp(*cond), seq_exp(*thn), seq_exp(*els), t));
            lemma_forms_fresh(Prim::Add, seq_exp(*cond), seq_exp(*thn), seq_exp(*els), t, vars);
        },
        _ => {},
    }
}

/// The code of the sequential form of a simple expression, tagged from `t` on and
/// started where the slots hold the values of the variables, ends as the meaning of
/// the expression says: with the bits of the value of the expression in `rax`, or
/// in the trap with the code and the bits of its error; and it leaves the slots of
/// the variables as they were. The expression is closed where the variables of the
/// frame are in scope, none of its binders binds a name in scope, its numbers are
/// in range and its tags above `lo`, and the frame has room for it.
pub proof fn lemma_expression_runs(
    e: ExpV<u32>,
    lo: nat,
    t: nat,
    env: Map<Seq<char>, i32>,
    venv: Map<Seq<char>, Val>,
    space: i32,
    m: Machine,
)
    requires
        simple(e),
        small_numbers(e),
        above(e, lo),
        lifted_ok(e, env.dom()),
        unshadowed(e, env.dom()),
        low_names(env.dom(), lo),
        t + seq_nodes(seq_exp(e)) <= u32::MAX,
        packed(env),
        env.len() + reach(seq_exp(e)) <= FRAME_LIMIT,
        slots_hold(env, venv, m),
    ensures
        ends_as(
            exec(
                exp_code(tag_seq_spec(seq_exp(e), t), env, space),
                0,
                m,
                exp_code(tag_seq_spec(seq_exp(e), t), env, space).len(),
            ),
            meaning(e, venv),
            env,
            venv,
        ),
{
    let s = seq_exp(e);
    lemma_seq_shape(e);
    lemma_seq_ready(e, env.dom());
    lemma_tag_seq_ready(s, t, env.dom());
    lemma_seq_fresh(e, lo, env.dom());
    lemma_tag_seq_keeps(s, t, env.dom(), venv);
    lemma_seq_keeps_meaning(e, lo, venv);
    lemma_tagged_code_runs(s, t, env, venv, space, m);
}

} // verus!
