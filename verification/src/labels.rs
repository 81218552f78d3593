//! The labels in the code of an expression: tagging gives every `If` and every
//! comparison labels of its own, so no label stands twice in the code.

use vstd::prelude::*;
use crate::codegen::{
    FRAME_LIMIT, SNAKE_FALSE, SNAKE_TRUE, code_ready, compare_jump, compare_label, done_label,
    else_label, exp_code, load, on_rax, reach, slot_offset, store,
};
use crate::control::{
    compare_head, exec, if_head, is_plain, labels_unique, lemma_binary_loads_plain, lemma_code_runs,
    lemma_if_head_plain, lemma_prim_code_plain,
};
use crate::lists::{every, lemma_every_add};
use crate::machine::{
    Machine, Val, binary_loads, ends_as, eval, fresh_lets, lits_in_range, packed, slots_hold,
};
use crate::syntax::{ImmExpV, Prim, SeqExpV};
use crate::tag::{seq_nodes, tag_seq_spec};
use crate::text::{fresh_name, lemma_fresh_name_injective};
use crate::x86::{Arg32, Arg64, InstrV, Reg};

verus! {

/// Whether an instruction is no label.
pub open spec fn not_label() -> spec_fn(InstrV) -> bool {
    |i: InstrV| !(i is Label)
}

/// Whether every label of `code` is a name with a number between `lo`, exclusive,
/// and `hi`, inclusive, as its suffix.
pub open spec fn labels_within(code: Seq<InstrV>, lo: nat, hi: nat) -> bool {
    forall|j: int|
        0 <= j < code.len() && (#[trigger] code[j]) is Label ==> exists|x: Seq<char>, n: u32|
            lo < n <= hi && code[j]->Label_0 == #[trigger] fresh_name(x, n)
}

/// Whether no label of `a` is a label of `b`.
pub open spec fn labels_apart(a: Seq<InstrV>, b: Seq<InstrV>) -> bool {
    forall|i: int, j: int|
        0 <= i < a.len() && 0 <= j < b.len() && (#[trigger] a[i]) is Label ==> a[i]
            != #[trigger] b[j]
}

/// Whether the code of `e` has labels for `If` and comparisons alone: `e` holds no
/// local function and no call.
pub open spec fn call_free<A>(e: SeqExpV<A>) -> bool
    decreases e,
{
    match e {
        SeqExpV::Imm(..) => true,
        SeqExpV::Prim(..) => true,
        SeqExpV::Let { bound_exp, body, .. } => call_free(*bound_exp) && call_free(*body),
        SeqExpV::If { thn, els, .. } => call_free(*thn) && call_free(*els),
        _ => false,
    }
}

/// A plain instruction is no label.
pub proof fn lemma_plain_no_label(code: Seq<InstrV>)
    requires
        every(code, is_plain()),
    ensures
        every(code, not_label()),
{
    assert forall|j: int| 0 <= j < code.len() implies not_label()(#[trigger] code[j]) by {
        assert(is_plain()(code[j]));
    }
}

/// Code without a label has no label twice, none outside any range, and none of
/// other code.
pub proof fn lemma_no_label(code: Seq<InstrV>, other: Seq<InstrV>, lo: nat, hi: nat)
    requires
        every(code, not_label()),
    ensures
        labels_unique(code),
        labels_within(code, lo, hi),
        labels_apart(code, other),
        labels_apart(other, code),
{
    assert forall|j: int| 0 <= j < code.len() implies !((#[trigger] code[j]) is Label) by {
        assert(not_label()(code[j]));
    }
}

/// Two pieces of code, neither with a label twice nor with a label of the other,
/// make code without a label twice.
pub proof fn lemma_unique_add(a: Seq<InstrV>, b: Seq<InstrV>)
    requires
        labels_unique(a),
        labels_unique(b),
        labels_apart(a, b),
    ensures
        labels_unique(a + b),
{
    let c = a + b;
    assert forall|i: int, j: int|
        0 <= i < c.len() && 0 <= j < c.len() && c[i] is Label && #[trigger] c[i]
            == #[trigger] c[j] implies i == j by {
        if i < a.len() && j < a.len() {
            assert(a[i] == a[j]);
        } else if i >= a.len() && j >= a.len() {
            assert(b[i - a.len()] == b[j - a.len()]);
        } else if i < a.len() {
            assert(a[i] != b[j - a.len()]);
        } else {
            assert(a[j] != b[i - a.len()]);
        }
    }
}

/// The labels of two pieces of code lie where the labels of each lie.
pub proof fn lemma_within_add(a: Seq<InstrV>, b: Seq<InstrV>, lo: nat, hi: nat)
    requires
        labels_within(a, lo, hi),
        labels_within(b, lo, hi),
    ensures
        labels_within(a + b, lo, hi),
{
    let c = a + b;
    assert forall|j: int| 0 <= j < c.len() && (#[trigger] c[j]) is Label implies exists|
        x: Seq<char>,
        n: u32,
    |
        lo < n <= hi && c[j]->Label_0 == #[trigger] fresh_name(x, n) by {
        if j < a.len() {
            assert(a[j] is Label);
        } else {
            assert(b[j - a.len()] is Label);
        }
    }
}

/// Labels that lie in a range lie in a wider one.
pub proof fn lemma_within_wider(a: Seq<InstrV>, lo: nat, hi: nat, lower: nat, higher: nat)
    requires
        labels_within(a, lo, hi),
        lower <= lo,
        hi <= higher,
    ensures
        labels_within(a, lower, higher),
{
    assert forall|j: int| 0 <= j < a.len() && (#[trigger] a[j]) is Label implies exists|
        x: Seq<char>,
        n: u32,
    |
        lower < n <= higher && a[j]->Label_0 == #[trigger] fresh_name(x, n) by {
        let (x, n) = choose|x: Seq<char>, n: u32|
            lo < n <= hi && a[j]->Label_0 == #[trigger] fresh_name(x, n);
        assert(lower < n <= higher && a[j]->Label_0 == fresh_name(x, n));
    }
}

/// Code whose labels lie in one range shares no label with code whose labels lie in
/// a range after it.
pub proof fn lemma_within_apart(a: Seq<InstrV>, b: Seq<InstrV>, lo: nat, mid: nat, hi: nat)
    requires
        labels_within(a, lo, mid),
        labels_within(b, mid, hi),
    ensures
        labels_apart(a, b),
        labels_apart(b, a),
{
    assert forall|i: int, j: int|
        0 <= i < a.len() && 0 <= j < b.len() && ((#[trigger] a[i]) is Label || (
        #[trigger] b[j]) is Label) implies a[i] != b[j] by {
        if a[i] == b[j] {
            let (x, n) = choose|x: Seq<char>, n: u32|
                lo < n <= mid && a[i]->Label_0 == #[trigger] fresh_name(x, n);
            let (y, k) = choose|y: Seq<char>, k: u32|
                mid < k <= hi && b[j]->Label_0 == #[trigger] fresh_name(y, k);
            lemma_fresh_name_injective(x, n, y, k);
        }
    }
}

/// Code shares no label with two pieces of code where it shares none with either.
pub proof fn lemma_apart_add(a: Seq<InstrV>, b: Seq<InstrV>, c: Seq<InstrV>)
    requires
        labels_apart(a, c),
        labels_apart(b, c),
    ensures
        labels_apart(a + b, c),
{
    let ab = a + b;
    assert forall|i: int, j: int|
        0 <= i < ab.len() && 0 <= j < c.len() && (#[trigger] ab[i]) is Label implies ab[i]
            != #[trigger] c[j] by {
        if i < a.len() {
            assert(a[i] != c[j]);
        } else {
            assert(b[i - a.len()] != c[j]);
        }
    }
}

/// The labels of an `If` and of a comparison are names with the tag as suffix, and
/// the two labels of an `If` differ.
pub proof fn lemma_label_names(p: Prim, t: u32)
    ensures
        exists|x: Seq<char>| compare_label(p, t) == fresh_name(x, t),
        else_label(t) == fresh_name("if_false"@, t),
        done_label(t) == fresh_name("done"@, t),
        else_label(t) != done_label(t),
{
    reveal_strlit("#");
    reveal_strlit("less_than#");
    reveal_strlit("less_than");
    reveal_strlit("greater_than#");
    reveal_strlit("greater_than");
    reveal_strlit("less_equal#");
    reveal_strlit("less_equal");
    reveal_strlit("greater_equal#");
    reveal_strlit("greater_equal");
    reveal_strlit("equal#");
    reveal_strlit("equal");
    reveal_strlit("unequal#");
    reveal_strlit("unequal");
    reveal_strlit("if_false#");
    reveal_strlit("if_false");
    reveal_strlit("done#");
    reveal_strlit("done");
    assert("if_false#"@ =~= "if_false"@ + "#"@);
    assert("done#"@ =~= "done"@ + "#"@);
    assert(else_label(t)[0] == 'i');
    assert(done_label(t)[0] == 'd');
    let stem = match p {
        Prim::Lt => "less_than"@,
        Prim::Gt => "greater_than"@,
        Prim::Le => "less_equal"@,
        Prim::Ge => "greater_equal"@,
        Prim::Eq => "equal"@,
        _ => "unequal"@,
    };
    assert("less_than#"@ =~= "less_than"@ + "#"@);
    assert("greater_than#"@ =~= "greater_than"@ + "#"@);
    assert("less_equal#"@ =~= "less_equal"@ + "#"@);
    assert("greater_equal#"@ =~= "greater_equal"@ + "#"@);
    assert("equal#"@ =~= "equal"@ + "#"@);
    assert("unequal#"@ =~= "unequal"@ + "#"@);
    assert(compare_label(p, t) == fresh_name(stem, t));
}

/// The code of a tagged primitive operation has no label twice, and its labels have
/// the tag of the operation as suffix.
pub proof fn lemma_prim_labels(
    p: Prim,
    is: Seq<ImmExpV>,
    t: u32,
    env: Map<Seq<char>, i32>,
    space: i32,
    lo: nat,
    hi: nat,
)
    requires
        lo < t <= hi,
    ensures
        labels_unique(exp_code(SeqExpV::Prim(p, is, t), env, space)),
        labels_within(exp_code(SeqExpV::Prim(p, is, t), env, space), lo, hi),
{
    let code = exp_code(SeqExpV::Prim(p, is, t), env, space);
    if p.unary() || p == Prim::Add || p == Prim::Sub || p == Prim::Mul || p == Prim::And || p
        == Prim::Or {
        lemma_prim_code_plain(p, is, t, env, space);
        lemma_plain_no_label(code);
        lemma_no_label(code, code, lo, hi);
    } else if is.len() >= 2 {
        let l = compare_label(p, t);
        let head = compare_head(p, is, env);
        let rest = seq![
            compare_jump(p, l),
            load(Reg::Rax, Arg64::Unsigned(SNAKE_FALSE)),
            InstrV::Label(l),
        ];
        let three = seq![
            InstrV::Comment("Compare"@),
            InstrV::Cmp(on_rax(Arg32::Reg(Reg::R10))),
            load(Reg::Rax, Arg64::Unsigned(SNAKE_TRUE)),
        ];
        assert(code =~= head + rest);
        lemma_binary_loads_plain(p, is, env);
        assert(every(three, is_plain()));
        lemma_every_add(binary_loads(p, is, env), three, is_plain());
        lemma_plain_no_label(head);
        lemma_no_label(head, rest, lo, hi);
        lemma_label_names(p, t);
        assert(labels_unique(rest)) by {
            assert(!(rest[0] is Label));
            assert(!(rest[1] is Label));
        }
        assert(labels_within(rest, lo, hi)) by {
            let x = choose|x: Seq<char>| compare_label(p, t) == fresh_name(x, t);
            assert forall|j: int| 0 <= j < rest.len() && (#[trigger] rest[j]) is Label implies exists|
                y: Seq<char>,
                n: u32,
            |
                lo < n <= hi && rest[j]->Label_0 == #[trigger] fresh_name(y, n) by {
                assert(!(rest[0] is Label));
                assert(!(rest[1] is Label));
                assert(j == 2);
                assert(lo < t <= hi && rest[j]->Label_0 == fresh_name(x, t));
            }
        }
        lemma_unique_add(head, rest);
        lemma_within_add(head, rest, lo, hi);
    } else {
        assert(code =~= Seq::<InstrV>::empty());
    }
}

/// The code of a tagged expression without local functions and calls has no label
/// twice, and its labels have the tags of the expression as suffixes.
pub proof fn lemma_tagged_labels<A>(e: SeqExpV<A>, t: nat, env: Map<Seq<char>, i32>, space: i32)
    requires
        call_free(e),
        t + seq_nodes(e) <= u32::MAX,
    ensures
        labels_unique(exp_code(tag_seq_spec(e, t), env, space)),
        labels_within(exp_code(tag_seq_spec(e, t), env, space), t, t + seq_nodes(e)),
    decreases e,
{
    let tagged = tag_seq_spec(e, t);
    let code = exp_code(tagged, env, space);
    let here = (t + 1) as u32;
    let hi = t + seq_nodes(e);
    match e {
        SeqExpV::Imm(..) => {
            assert(every(code, not_label()));
            lemma_no_label(code, code, t, hi);
        },
        SeqExpV::Prim(p, is, _) => {
            lemma_prim_labels(p, is, here, env, space, t, hi);
        },
        SeqExpV::Let { var, bound_exp, body, .. } => {
            let first = seq_nodes(*bound_exp);
            let env2 = env.insert(var, slot_offset(env.len()));
            let a = exp_code(tag_seq_spec(*bound_exp, t + 1), env, space);
            let b = seq![
                InstrV::Comment("Let var: "@ + var),
                store(slot_offset(env.len()) as int),
            ];
            let c = exp_code(tag_seq_spec(*body, t + 1 + first), env2, space);
            assert(code == a + b + c);
            lemma_tagged_labels(*bound_exp, t + 1, env, space);
            lemma_tagged_labels(*body, t + 1 + first, env2, space);
            assert(every(b, not_label()));
            lemma_no_label(b, a, t + 1, t + 1 + first);
            lemma_unique_add(a, b);
            lemma_within_add(a, b, t + 1, t + 1 + first);
            lemma_within_apart(a + b, c, t + 1, t + 1 + first, hi);
            lemma_unique_add(a + b, c);
            lemma_within_wider(a + b, t + 1, t + 1 + first, t, hi);
            lemma_within_wider(c, t + 1 + first, hi, t, hi);
            lemma_within_add(a + b, c, t, hi);
        },
        SeqExpV::If { cond, thn, els, .. } => {
            let first = seq_nodes(*thn);
            let head = if_head(cond, env);
            let jump = seq![InstrV::Je(else_label(here))];
            let a = exp_code(tag_seq_spec(*thn, t + 1), env, space);
            let middle = seq![InstrV::Jmp(done_label(here)), InstrV::Label(else_label(here))];
            let b = exp_code(tag_seq_spec(*els, t + 1 + first), env, space);
            let last = seq![InstrV::Label(done_label(here))];
            assert(code =~= head + jump + a + middle + b + last);
            lemma_tagged_labels(*thn, t + 1, env, space);
            lemma_tagged_labels(*els, t + 1 + first, env, space);
            lemma_label_names(Prim::Eq, here);
            lemma_if_head_plain(cond, env);
            lemma_plain_no_label(head);
            assert(every(jump, not_label()));
            lemma_every_add(head, jump, not_label());
            let start = head + jump;
            lemma_no_label(start, a, t + 1, t + 1 + first);
            lemma_no_label(start, last, t + 1, t + 1 + first);
            lemma_unique_add(start, a);
            lemma_within_add(start, a, t + 1, t + 1 + first);
            assert(labels_unique(middle)) by {
                assert(!(middle[0] is Label));
            }
            assert(labels_within(middle, t, t + 1)) by {
                assert forall|j: int|
                    0 <= j < middle.len() && (#[trigger] middle[j]) is Label implies exists|
                    y: Seq<char>,
                    n: u32,
                |
                    t < n <= t + 1 && middle[j]->Label_0 == #[trigger] fresh_name(y, n) by {
                    assert(!(middle[0] is Label));
                    assert(j == 1);
                    assert(t < here <= t + 1 && middle[j]->Label_0 == fresh_name(
                        "if_false"@,
                        here,
                    ));
                }
            }
            assert(labels_within(last, t, t + 1)) by {
                assert forall|j: int|
                    0 <= j < last.len() && (#[trigger] last[j]) is Label implies exists|
                    y: Seq<char>,
                    n: u32,
                |
                    t < n <= t + 1 && last[j]->Label_0 == #[trigger] fresh_name(y, n) by {
                    assert(t < here <= t + 1 && last[j]->Label_0 == fresh_name("done"@, here));
                }
            }
            assert(labels_apart(middle, last)) by {
                assert(!(middle[0] is Label));
            }
            lemma_within_apart(middle, start + a, t, t + 1, t + 1 + first);
            lemma_unique_add(start + a, middle);
            lemma_within_wider(start + a, t + 1, t + 1 + first, t, t + 1 + first);
            lemma_within_wider(middle, t, t + 1, t, t + 1 + first);
            lemma_within_add(start + a, middle, t, t + 1 + first);
            lemma_within_apart(start + a + middle, b, t, t + 1 + first, hi);
            lemma_unique_add(start + a + middle, b);
            lemma_within_apart(last, a, t, t + 1, t + 1 + first);
            lemma_within_wider(b, t + 1 + first, hi, t + 1, hi);
            lemma_within_apart(last, b, t, t + 1, hi);
            lemma_apart_add(start, a, last);
            lemma_apart_add(start + a, middle, last);
            lemma_apart_add(start + a + middle, b, last);
            lemma_unique_add(start + a + middle + b, last);
            lemma_within_wider(start + a + middle, t, t + 1 + first, t, hi);
            lemma_within_wider(b, t + 1 + first, hi, t, hi);
            lemma_within_add(start + a + middle, b, t, hi);
            lemma_within_wider(last, t, t + 1, t, hi);
            lemma_within_add(start + a + middle + b, last, t, hi);
            assert(labels_unique(last));
        },
        _ => {},
    }
}

/// The code of a tagged expression without printing, local functions and calls,
/// started where the slots hold the values of the variables, ends as the meaning
/// of the expression says.
pub proof fn lemma_tagged_code_runs<A>(
    e: SeqExpV<A>,
    t: nat,
    env: Map<Seq<char>, i32>,
    venv: Map<Seq<char>, Val>,
    space: i32,
    m: Machine,
)
    requires
        call_free(e),
        t + seq_nodes(e) <= u32::MAX,
        lits_in_range(tag_seq_spec(e, t)),
        code_ready(tag_seq_spec(e, t), env.dom()),
        fresh_lets(tag_seq_spec(e, t), env.dom()),
        packed(env),
        env.len() + reach(tag_seq_spec(e, t)) <= FRAME_LIMIT,
        slots_hold(env, venv, m),
    ensures
        ends_as(
            exec(
                exp_code(tag_seq_spec(e, t), env, space),
                0,
                m,
                exp_code(tag_seq_spec(e, t), env, space).len(),
            ),
            eval(tag_seq_spec(e, t), venv),
            env,
            venv,
        ),
{
    lemma_tagged_labels(e, t, env, space);
    lemma_code_runs(tag_seq_spec(e, t), env, venv, space, m);
}

} // verus!
