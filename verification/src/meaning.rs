//! The meaning of expressions of the source language without printing, local
//! functions and calls, and the law that sequentialization keeps it.

use vstd::prelude::*;
use crate::codegen::IF_ERROR;
use crate::lists::{lemma_total_mono, total};
use crate::machine::{Res, Val, eval, imm_val, prim1_result, prim2_result, val_bits};
use crate::sequential::{
    fold_lets, if_name, prim1_name, prim2_first_name, prim2_second_name, seq_bindings, seq_exp,
};
use crate::syntax::{ExpV, ImmExpV, Prim, SeqExpV};
use crate::tag::{binding_nodes, nodes, operand_nodes, tag_bindings, tag_operands, tag_spec};
use crate::text::{decimal, is_decimal_digit, lemma_decimal_digits, lemma_decimal_injective};

verus! {

/// What the expression `e` comes to where the variables have the values `venv`; for
/// a `Let`, what its bindings from the `i`th on and its body come to. Operands are
/// taken from left to right, and the first of them that fails decides. Printing,
/// local functions and calls are not covered.
pub open spec fn meaning_from<A>(e: ExpV<A>, i: int, venv: Map<Seq<char>, Val>) -> Res
    decreases e,
        (if e is Let && 0 <= i <= e->Let_bindings.len() {
            e->Let_bindings.len() - i
        } else {
            0
        }),
{
    match e {
        ExpV::Num(n, _) => Res::Value(Val::Num(n as int)),
        ExpV::Bool(b, _) => Res::Value(Val::Bool(b)),
        ExpV::Var(x, _) => Res::Value(venv[x]),
        ExpV::Prim(p, es, _) => if p.unary() && es.len() == 1 {
            match meaning_from(es[0], 0, venv) {
                Res::Value(v) => prim1_result(p, v),
                other => other,
            }
        } else if !p.unary() && es.len() == 2 {
            match meaning_from(es[0], 0, venv) {
                Res::Value(a) => match meaning_from(es[1], 0, venv) {
                    Res::Value(b) => prim2_result(p, a, b),
                    other => other,
                },
                other => other,
            }
        } else {
            Res::Unsupported
        },
        ExpV::Let { bindings, body, .. } => if 0 <= i < bindings.len() {
            match meaning_from(bindings[i].1, 0, venv) {
                Res::Value(v) => meaning_from(e, i + 1, venv.insert(bindings[i].0, v)),
                other => other,
            }
        } else {
            meaning_from(*body, 0, venv)
        },
        ExpV::If { cond, thn, els, .. } => match meaning_from(*cond, 0, venv) {
            Res::Value(v) => if_result(v, meaning_from(*thn, 0, venv), meaning_from(*els, 0, venv)),
            other => other,
        },
        _ => Res::Unsupported,
    }
}

/// What the expression `e` comes to where the variables have the values `venv`.
pub open spec fn meaning<A>(e: ExpV<A>, venv: Map<Seq<char>, Val>) -> Res {
    meaning_from(e, 0, venv)
}

/// Whether a name is one that sequentialization makes: those begin with `#`.
pub open spec fn generated(x: Seq<char>) -> bool {
    x.len() > 0 && x[0] == '#'
}

/// Whether `e` is made of numbers, booleans, variables, primitive operations with
/// as many operands as they take, `Let` and `If` alone, and none of its variables
/// has a name that sequentialization makes.
pub open spec fn simple<A>(e: ExpV<A>) -> bool
    decreases e,
{
    match e {
        ExpV::Num(..) | ExpV::Bool(..) => true,
        ExpV::Var(x, _) => !generated(x),
        ExpV::Prim(p, es, _) => {
            &&& es.len() == p.arity()
            &&& forall|i: int| 0 <= i < es.len() ==> simple(#[trigger] es[i])
        },
        ExpV::Let { bindings, body, .. } => {
            &&& forall|i: int|
                0 <= i < bindings.len() ==> !generated((#[trigger] bindings[i]).0) && simple(
                    bindings[i].1,
                )
            &&& simple(*body)
        },
        ExpV::If { cond, thn, els, .. } => simple(*cond) && simple(*thn) && simple(*els),
        _ => false,
    }
}

/// The tag of an expression.
pub open spec fn tag_of(e: ExpV<u32>) -> u32 {
    match e {
        ExpV::Num(_, t) => t,
        ExpV::Bool(_, t) => t,
        ExpV::Var(_, t) => t,
        ExpV::Prim(_, _, t) => t,
        ExpV::Let { ann, .. } => ann,
        ExpV::If { ann, .. } => ann,
        ExpV::FunDefs { ann, .. } => ann,
        ExpV::Call(_, _, t) => t,
        ExpV::InternalTailCall(_, _, t) => t,
        ExpV::ExternalCall { ann, .. } => ann,
    }
}

/// Whether the tag of `e` is more than `lo`, and the tag of every node of `e` more
/// than the tag of the node that it stands in.
pub open spec fn above(e: ExpV<u32>, lo: nat) -> bool
    decreases e,
{
    &&& tag_of(e) > lo
    &&& match e {
        ExpV::Prim(_, es, t) => forall|i: int| 0 <= i < es.len() ==> above(#[trigger] es[i], t as nat),
        ExpV::Let { bindings, body, ann } => {
            &&& forall|i: int|
                0 <= i < bindings.len() ==> above((#[trigger] bindings[i]).1, ann as nat)
            &&& above(*body, ann as nat)
        },
        ExpV::If { cond, thn, els, ann } => above(*cond, ann as nat) && above(*thn, ann as nat)
            && above(*els, ann as nat),
        _ => true,
    }
}

/// Whether the name `x` stands in `s`, as a variable that is read or bound.
pub open spec fn mentions<A>(s: SeqExpV<A>, x: Seq<char>) -> bool
    decreases s,
{
    match s {
        SeqExpV::Imm(i, _) => i == ImmExpV::Var(x),
        SeqExpV::Prim(_, is, _) => exists|k: int| 0 <= k < is.len() && #[trigger] is[k] == ImmExpV::Var(x),
        SeqExpV::Let { var, bound_exp, body, .. } => var == x || mentions(*bound_exp, x)
            || mentions(*body, x),
        SeqExpV::If { cond, thn, els, .. } => cond == ImmExpV::Var(x) || mentions(*thn, x)
            || mentions(*els, x),
        _ => false,
    }
}

/// The value of a variable that does not stand in an expression does not change
/// what the expression comes to.
pub proof fn lemma_eval_unmentioned<A>(
    s: SeqExpV<A>,
    venv: Map<Seq<char>, Val>,
    x: Seq<char>,
    v: Val,
)
    requires
        !mentions(s, x),
    ensures
        eval(s, venv.insert(x, v)) == eval(s, venv),
    decreases s,
{
    match s {
        SeqExpV::Prim(p, is, _) => {
            if is.len() >= 1 {
                assert(is[0] != ImmExpV::Var(x));
            }
            if is.len() >= 2 {
                assert(is[1] != ImmExpV::Var(x));
            }
        },
        SeqExpV::Let { var, bound_exp, body, .. } => {
            lemma_eval_unmentioned(*bound_exp, venv, x, v);
            match eval(*bound_exp, venv) {
                Res::Value(w) => {
                    assert(venv.insert(x, v).insert(var, w) =~= venv.insert(var, w).insert(x, v));
                    lemma_eval_unmentioned(*body, venv.insert(var, w), x, v);
                },
                _ => {},
            }
        },
        SeqExpV::If { cond, thn, els, .. } => {
            lemma_eval_unmentioned(*thn, venv, x, v);
            lemma_eval_unmentioned(*els, venv, x, v);
        },
        _ => {},
    }
}

/// Whether `a` can begin a name that sequentialization makes: it begins with `#` and
/// ends with `_`.
pub open spec fn stem(a: Seq<char>) -> bool {
    a.len() > 0 && a[0] == '#' && a.last() == '_'
}

/// Two names made of a stem and a number are the same only where the numbers and
/// the stems are.
pub proof fn lemma_numbered_names(a: Seq<char>, n: nat, b: Seq<char>, k: nat)
    requires
        stem(a),
        stem(b),
        a + decimal(n) == b + decimal(k),
    ensures
        n == k,
        a == b,
{
    let d1 = decimal(n);
    let d2 = decimal(k);
    let s1 = a + d1;
    let s2 = b + d2;
    lemma_decimal_digits(n);
    lemma_decimal_digits(k);
    assert(s1.len() == a.len() + d1.len());
    assert(s2.len() == b.len() + d2.len());
    assert(s1[a.len() - 1] == '_');
    assert(s2[b.len() - 1] == '_');
    if d1.len() < d2.len() {
        let i = a.len() - 1;
        assert(i >= b.len());
        assert(s2[i] == d2[i - b.len()]);
        assert(is_decimal_digit(d2[i - b.len()]));
        assert(false);
    }
    if d2.len() < d1.len() {
        let i = b.len() - 1;
        assert(i >= a.len());
        assert(s1[i] == d1[i - a.len()]);
        assert(is_decimal_digit(d1[i - a.len()]));
        assert(false);
    }
    assert forall|i: int| 0 <= i < a.len() implies a[i] == b[i] by {
        assert(s1[i] == a[i]);
        assert(s2[i] == b[i]);
    }
    assert(a =~= b);
    assert forall|i: int| 0 <= i < d1.len() implies d1[i] == d2[i] by {
        assert(s1[a.len() + i] == d1[i]);
        assert(s2[b.len() + i] == d2[i]);
    }
    assert(d1 =~= d2);
    lemma_decimal_injective(n, k);
}

/// The names that sequentialization makes for a node are made of a stem and the tag
/// of the node, and the two names of a binary operation differ.
pub proof fn lemma_made_names(t: u32)
    ensures
        stem("#prim1_"@),
        stem("#prim2_1_"@),
        stem("#prim2_2_"@),
        stem("#if_cond_"@),
        prim2_first_name(t) != prim2_second_name(t),
{
    reveal_strlit("#prim1_");
    reveal_strlit("#prim2_1_");
    reveal_strlit("#prim2_2_");
    reveal_strlit("#if_cond_");
    assert("#prim2_1_"@[7] == '1');
    assert("#prim2_2_"@[7] == '2');
    assert(prim2_first_name(t)[7] == '1');
    assert(prim2_second_name(t)[7] == '2');
}

/// A name that stands in none of the bound expressions of a chain of lets, is none
/// of their variables and does not stand in the expression that they are around
/// does not stand in the chain.
pub proof fn lemma_fold_unmentioned(
    pairs: Seq<(Seq<char>, SeqExpV<()>)>,
    i: int,
    tail: SeqExpV<()>,
    x: Seq<char>,
)
    requires
        0 <= i,
        forall|j: int|
            i <= j < pairs.len() ==> (#[trigger] pairs[j]).0 != x && !mentions(pairs[j].1, x),
        !mentions(tail, x),
    ensures
        !mentions(fold_lets(pairs, i, tail), x),
    decreases pairs.len() - i,
{
    if i < pairs.len() {
        assert(pairs[i].0 != x && !mentions(pairs[i].1, x));
        lemma_fold_unmentioned(pairs, i + 1, tail, x);
    }
}

/// The sequential form of the unary operation tagged `t` on an operand with the
/// sequential form `a`.
pub open spec fn unary_form(p: Prim, a: SeqExpV<()>, t: u32) -> SeqExpV<()> {
    SeqExpV::Let {
        var: prim1_name(t),
        bound_exp: Box::new(a),
        body: Box::new(SeqExpV::Prim(p, seq![ImmExpV::Var(prim1_name(t))], ())),
        ann: (),
    }
}

/// The sequential form of the binary operation tagged `t` on operands with the
/// sequential forms `a` and `b`.
pub open spec fn binary_form(p: Prim, a: SeqExpV<()>, b: SeqExpV<()>, t: u32) -> SeqExpV<()> {
    SeqExpV::Let {
        var: prim2_first_name(t),
        bound_exp: Box::new(a),
        body: Box::new(
            SeqExpV::Let {
                var: prim2_second_name(t),
                bound_exp: Box::new(b),
                body: Box::new(
                    SeqExpV::Prim(
                        p,
                        seq![ImmExpV::Var(prim2_first_name(t)), ImmExpV::Var(prim2_second_name(t))],
                        (),
                    ),
                ),
                ann: (),
            },
        ),
        ann: (),
    }
}

/// The sequential form of the `If` tagged `t` with a condition and branches with
/// the sequential forms `c`, `thn` and `els`.
pub open spec fn if_form(c: SeqExpV<()>, thn: SeqExpV<()>, els: SeqExpV<()>, t: u32) -> SeqExpV<
    (),
> {
    SeqExpV::Let {
        var: if_name(t),
        bound_exp: Box::new(c),
        body: Box::new(
            SeqExpV::If {
                cond: ImmExpV::Var(if_name(t)),
                thn: Box::new(thn),
                els: Box::new(els),
                ann: (),
            },
        ),
        ann: (),
    }
}

/// A name made from another tag than `t` that stands in none of the parts of the
/// sequential form of a node tagged `t` does not stand in the form.
pub proof fn lemma_forms_unmentioned(
    p: Prim,
    a: SeqExpV<()>,
    b: SeqExpV<()>,
    c: SeqExpV<()>,
    t: u32,
    x: Seq<char>,
)
    requires
        x != prim1_name(t),
        x != prim2_first_name(t),
        x != prim2_second_name(t),
        x != if_name(t),
        !mentions(a, x),
        !mentions(b, x),
        !mentions(c, x),
    ensures
        !mentions(unary_form(p, a, t), x),
        !mentions(binary_form(p, a, b, t), x),
        !mentions(if_form(a, b, c, t), x),
{
    let one = seq![ImmExpV::Var(prim1_name(t))];
    assert forall|k: int| 0 <= k < one.len() implies #[trigger] one[k] != ImmExpV::Var(x) by {}
    assert(!mentions(SeqExpV::Prim(p, one, ()), x));
    let two = seq![ImmExpV::Var(prim2_first_name(t)), ImmExpV::Var(prim2_second_name(t))];
    assert forall|k: int| 0 <= k < two.len() implies #[trigger] two[k] != ImmExpV::Var(x) by {}
    assert(!mentions(SeqExpV::Prim(p, two, ()), x));
    let inner = SeqExpV::Let {
        var: prim2_second_name(t),
        bound_exp: Box::new(b),
        body: Box::new(SeqExpV::Prim(p, two, ())),
        ann: (),
    };
    assert(!mentions(inner, x));
    let branch = SeqExpV::If {
        cond: ImmExpV::Var(if_name(t)),
        thn: Box::new(b),
        els: Box::new(c),
        ann: (),
    };
    assert(!mentions(branch, x));
}

/// A name made of a stem and a number other than `t` is none of the names of the
/// node tagged `t`.
pub proof fn lemma_other_names(t: u32, a: Seq<char>, n: nat)
    requires
        stem(a),
        n != t,
    ensures
        a + decimal(n) != prim1_name(t),
        a + decimal(n) != prim2_first_name(t),
        a + decimal(n) != prim2_second_name(t),
        a + decimal(n) != if_name(t),
        generated(a + decimal(n)),
{
    let x = a + decimal(n);
    assert(x[0] == a[0]);
    lemma_made_names(t);
    if prim1_name(t) == x {
        lemma_numbered_names("#prim1_"@, t as nat, a, n);
    }
    if prim2_first_name(t) == x {
        lemma_numbered_names("#prim2_1_"@, t as nat, a, n);
    }
    if prim2_second_name(t) == x {
        lemma_numbered_names("#prim2_2_"@, t as nat, a, n);
    }
    if if_name(t) == x {
        lemma_numbered_names("#if_cond_"@, t as nat, a, n);
    }
}

/// A name that sequentialization makes from a tag that is at most `lo` does not
/// stand in the sequential form of an expression whose tags are above `lo`.
pub proof fn lemma_seq_unmentioned(e: ExpV<u32>, lo: nat, a: Seq<char>, n: nat)
    requires
        simple(e),
        above(e, lo),
        stem(a),
        n <= lo,
    ensures
        !mentions(seq_exp(e), a + decimal(n)),
    decreases e,
{
    let x = a + decimal(n);
    lemma_other_names(tag_of(e), a, n);
    match e {
        ExpV::Prim(p, es, t) => {
            lemma_seq_unmentioned(es[0], t as nat, a, n);
            if p.unary() {
                assert(seq_exp(e) == unary_form(p, seq_exp(es[0]), t));
                lemma_forms_unmentioned(p, seq_exp(es[0]), seq_exp(es[0]), seq_exp(es[0]), t, x);
            } else {
                lemma_seq_unmentioned(es[1], t as nat, a, n);
                assert(seq_exp(e) == binary_form(p, seq_exp(es[0]), seq_exp(es[1]), t));
                lemma_forms_unmentioned(p, seq_exp(es[0]), seq_exp(es[1]), seq_exp(es[1]), t, x);
            }
        },
        ExpV::Let { bindings, body, ann } => {
            let pairs = seq_bindings(bindings);
            assert forall|j: int| 0 <= j < pairs.len() implies (#[trigger] pairs[j]).0 != x
                && !mentions(pairs[j].1, x) by {
                assert(!generated(bindings[j].0) && simple(bindings[j].1));
                assert(above(bindings[j].1, ann as nat));
                lemma_seq_unmentioned(bindings[j].1, ann as nat, a, n);
            }
            lemma_seq_unmentioned(*body, ann as nat, a, n);
            lemma_fold_unmentioned(pairs, 0, seq_exp(*body), x);
        },
        ExpV::If { cond, thn, els, ann } => {
            lemma_seq_unmentioned(*cond, ann as nat, a, n);
            lemma_seq_unmentioned(*thn, ann as nat, a, n);
            lemma_seq_unmentioned(*els, ann as nat, a, n);
            assert(seq_exp(e) == if_form(seq_exp(*cond), seq_exp(*thn), seq_exp(*els), ann));
            lemma_forms_unmentioned(
                Prim::Add,
                seq_exp(*cond),
                seq_exp(*thn),
                seq_exp(*els),
                ann,
                x,
            );
        },
        _ => {},
    }
}

/// What a `Let` comes to: its body with the variable bound to the value of the
/// bound expression, or what the bound expression fails with.
pub open spec fn let_result(
    var: Seq<char>,
    bound: Res,
    body: SeqExpV<()>,
    venv: Map<Seq<char>, Val>,
) -> Res {
    match bound {
        Res::Value(v) => eval(body, venv.insert(var, v)),
        other => other,
    }
}

/// What an `If` comes to on the value `v` of its condition.
pub open spec fn if_result(v: Val, thn: Res, els: Res) -> Res {
    match v {
        Val::Num(_) => Res::Error(IF_ERROR, val_bits(v)),
        Val::Bool(true) => thn,
        Val::Bool(false) => els,
    }
}

/// What the sequential form of a unary operation comes to: the operation on the
/// value of the operand, or what the operand fails with.
pub proof fn lemma_unary_form(p: Prim, a: SeqExpV<()>, t: u32, venv: Map<Seq<char>, Val>)
    requires
        p.unary(),
    ensures
        eval(unary_form(p, a, t), venv) == match eval(a, venv) {
            Res::Value(v) => prim1_result(p, v),
            other => other,
        },
{
    let x = prim1_name(t);
    let is = seq![ImmExpV::Var(x)];
    let body = SeqExpV::Prim(p, is, ());
    assert(eval(unary_form(p, a, t), venv) == let_result(x, eval(a, venv), body, venv));
    if eval(a, venv) is Value {
        let v = eval(a, venv)->Value_0;
        assert(is.len() == 1 && is[0] == ImmExpV::Var(x));
        assert(imm_val(is[0], venv.insert(x, v)) == v);
        assert(eval(body, venv.insert(x, v)) == prim1_result(p, imm_val(is[0], venv.insert(x, v))));
    }
}

/// What the sequential form of a binary operation comes to: the operation on the
/// values of the operands, or what the first operand that fails fails with.
pub proof fn lemma_binary_form(
    p: Prim,
    a: SeqExpV<()>,
    b: SeqExpV<()>,
    t: u32,
    venv: Map<Seq<char>, Val>,
)
    requires
        !p.unary(),
        !mentions(b, prim2_first_name(t)),
    ensures
        eval(binary_form(p, a, b, t), venv) == match eval(a, venv) {
            Res::Value(v) => match eval(b, venv) {
                Res::Value(w) => prim2_result(p, v, w),
                other => other,
            },
            other => other,
        },
{
    let x = prim2_first_name(t);
    let y = prim2_second_name(t);
    let is = seq![ImmExpV::Var(x), ImmExpV::Var(y)];
    let body = SeqExpV::Prim(p, is, ());
    let inner = SeqExpV::Let { var: y, bound_exp: Box::new(b), body: Box::new(body), ann: () };
    lemma_made_names(t);
    assert(eval(binary_form(p, a, b, t), venv) == let_result(x, eval(a, venv), inner, venv));
    if eval(a, venv) is Value {
        let v = eval(a, venv)->Value_0;
        let venv1 = venv.insert(x, v);
        lemma_eval_unmentioned(b, venv, x, v);
        assert(eval(inner, venv1) == let_result(y, eval(b, venv1), body, venv1));
        if eval(b, venv) is Value {
            let w = eval(b, venv)->Value_0;
            let venv2 = venv1.insert(y, w);
            assert(is.len() == 2 && is[0] == ImmExpV::Var(x) && is[1] == ImmExpV::Var(y));
            assert(imm_val(is[0], venv2) == v);
            assert(imm_val(is[1], venv2) == w);
            assert(eval(body, venv2) == prim2_result(
                p,
                imm_val(is[0], venv2),
                imm_val(is[1], venv2),
            ));
        }
    }
}

/// What the sequential form of an `If` comes to: the branch that the condition
/// picks, the error of a condition that is a number, or what the condition fails
/// with.
pub proof fn lemma_if_form(
    c: SeqExpV<()>,
    thn: SeqExpV<()>,
    els: SeqExpV<()>,
    t: u32,
    venv: Map<Seq<char>, Val>,
)
    requires
        !mentions(thn, if_name(t)),
        !mentions(els, if_name(t)),
    ensures
        eval(if_form(c, thn, els, t), venv) == match eval(c, venv) {
            Res::Value(v) => if_result(v, eval(thn, venv), eval(els, venv)),
            other => other,
        },
{
    let x = if_name(t);
    let inner = SeqExpV::If {
        cond: ImmExpV::Var(x),
        thn: Box::new(thn),
        els: Box::new(els),
        ann: (),
    };
    assert(eval(if_form(c, thn, els, t), venv) == let_result(x, eval(c, venv), inner, venv));
    if eval(c, venv) is Value {
        let v = eval(c, venv)->Value_0;
        let venv1 = venv.insert(x, v);
        lemma_eval_unmentioned(thn, venv, x, v);
        lemma_eval_unmentioned(els, venv, x, v);
        assert(imm_val(ImmExpV::Var(x), venv1) == v);
        assert(eval(inner, venv1) == if_result(v, eval(thn, venv1), eval(els, venv1)));
    }
}

/// The sequential form of `e`; for a `Let`, that of its bindings from the `i`th on
/// and its body.
pub open spec fn seq_from(e: ExpV<u32>, i: int) -> SeqExpV<()> {
    match e {
        ExpV::Let { bindings, body, .. } => fold_lets(seq_bindings(bindings), i, seq_exp(*body)),
        _ => seq_exp(e),
    }
}

/// `lemma_seq_keeps_meaning`, for the bindings of a `Let` from the `i`th on as well.
pub proof fn lemma_seq_keeps_meaning_from(
    e: ExpV<u32>,
    i: int,
    lo: nat,
    venv: Map<Seq<char>, Val>,
)
    requires
        simple(e),
        above(e, lo),
        0 <= i,
    ensures
        eval(seq_from(e, i), venv) == meaning_from(e, i, venv),
    decreases e,
        (if e is Let && 0 <= i <= e->Let_bindings.len() {
            e->Let_bindings.len() - i
        } else {
            0
        }),
{
    match e {
        ExpV::Prim(p, es, t) => {
            lemma_made_names(t);
            lemma_seq_keeps_meaning_from(es[0], 0, t as nat, venv);
            if p.unary() {
                assert(seq_exp(e) == unary_form(p, seq_exp(es[0]), t));
                lemma_unary_form(p, seq_exp(es[0]), t, venv);
            } else {
                lemma_seq_keeps_meaning_from(es[1], 0, t as nat, venv);
                lemma_seq_unmentioned(es[1], t as nat, "#prim2_1_"@, t as nat);
                assert(seq_exp(e) == binary_form(p, seq_exp(es[0]), seq_exp(es[1]), t));
                lemma_binary_form(p, seq_exp(es[0]), seq_exp(es[1]), t, venv);
            }
        },
        ExpV::Let { bindings, body, ann } => {
            if i < bindings.len() {
                let pairs = seq_bindings(bindings);
                assert(simple(bindings[i].1) && above(bindings[i].1, ann as nat));
                lemma_seq_keeps_meaning_from(bindings[i].1, 0, ann as nat, venv);
                assert(pairs[i].1 == seq_from(bindings[i].1, 0));
                match meaning_from(bindings[i].1, 0, venv) {
                    Res::Value(v) => {
                        lemma_seq_keeps_meaning_from(e, i + 1, lo, venv.insert(bindings[i].0, v));
                    },
                    _ => {},
                }
            } else {
                lemma_seq_keeps_meaning_from(*body, 0, ann as nat, venv);
                assert(seq_exp(*body) == seq_from(*body, 0));
            }
        },
        ExpV::If { cond, thn, els, ann } => {
            lemma_made_names(ann);
            lemma_seq_keeps_meaning_from(*cond, 0, ann as nat, venv);
            lemma_seq_keeps_meaning_from(*thn, 0, ann as nat, venv);
            lemma_seq_keeps_meaning_from(*els, 0, ann as nat, venv);
            lemma_seq_unmentioned(*thn, ann as nat, "#if_cond_"@, ann as nat);
            lemma_seq_unmentioned(*els, ann as nat, "#if_cond_"@, ann as nat);
            assert(seq_exp(e) == if_form(seq_exp(*cond), seq_exp(*thn), seq_exp(*els), ann));
            lemma_if_form(seq_exp(*cond), seq_exp(*thn), seq_exp(*els), ann, venv);
        },
        _ => {},
    }
}

/// Sequentialization keeps the meaning: the sequential form of an expression
/// without printing, local functions and calls, tagged so that every node has a tag
/// above that of the node it stands in, comes to what the expression comes to.
pub proof fn lemma_seq_keeps_meaning(e: ExpV<u32>, lo: nat, venv: Map<Seq<char>, Val>)
    requires
        simple(e),
        above(e, lo),
    ensures
        eval(seq_exp(e), venv) == meaning(e, venv),
{
    lemma_seq_keeps_meaning_from(e, 0, lo, venv);
}

/// An expression whose tags are above a number has them above every smaller one.
pub proof fn lemma_above_lower(e: ExpV<u32>, lo: nat, lower: nat)
    requires
        above(e, lo),
        lower <= lo,
    ensures
        above(e, lower),
{
}

/// Tagging gives every node a tag above that of the node it stands in, and keeps
/// the expression otherwise as it is.
pub proof fn lemma_tag_above<S>(e: ExpV<S>, t: nat)
    requires
        simple(e),
        t + nodes(e) <= u32::MAX,
    ensures
        simple(tag_spec(e, t)),
        above(tag_spec(e, t), t),
    decreases e,
{
    assert(((t + 1) as u32) as nat == t + 1);
    match e {
        ExpV::Prim(_, es, _) => {
            let sizes = operand_nodes(es);
            let out = tag_operands(es, t + 1);
            assert forall|i: int| 0 <= i < out.len() implies simple(#[trigger] out[i]) && above(
                out[i],
                t + 1,
            ) by {
                assert(simple(es[i]));
                assert(total(sizes, i + 1) == total(sizes, i) + nodes(es[i]));
                lemma_total_mono(sizes, i + 1, es.len() as int);
                lemma_tag_above(es[i], t + 1 + total(sizes, i));
                lemma_above_lower(out[i], t + 1 + total(sizes, i), t + 1);
            }
        },
        ExpV::Let { bindings, body, .. } => {
            let sizes = binding_nodes(bindings);
            let out = tag_bindings(bindings, t + 1);
            let after = t + 1 + total(sizes, bindings.len() as int);
            assert forall|i: int| 0 <= i < out.len() implies !generated((#[trigger] out[i]).0)
                && simple(out[i].1) && above(out[i].1, t + 1) by {
                assert(!generated(bindings[i].0) && simple(bindings[i].1));
                assert(total(sizes, i + 1) == total(sizes, i) + nodes(bindings[i].1));
                lemma_total_mono(sizes, i + 1, bindings.len() as int);
                lemma_tag_above(bindings[i].1, t + 1 + total(sizes, i));
                lemma_above_lower(out[i].1, t + 1 + total(sizes, i), t + 1);
            }
            lemma_tag_above(*body, after);
            lemma_above_lower(tag_spec(*body, after), after, t + 1);
        },
        ExpV::If { cond, thn, els, .. } => {
            lemma_tag_above(*cond, t + 1);
            lemma_tag_above(*thn, t + 1 + nodes(*cond));
            lemma_tag_above(*els, t + 1 + nodes(*cond) + nodes(*thn));
            lemma_above_lower(tag_spec(*thn, t + 1 + nodes(*cond)), t + 1 + nodes(*cond), t + 1);
            lemma_above_lower(
                tag_spec(*els, t + 1 + nodes(*cond) + nodes(*thn)),
                t + 1 + nodes(*cond) + nodes(*thn),
                t + 1,
            );
        },
        _ => {},
    }
}

} // verus!
