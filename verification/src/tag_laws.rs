//! Tagging numbers the nodes of a tree one after the other.

use vstd::prelude::*;
use crate::lists::{concat_all, concat_upto, total};
use crate::syntax::{ExpV, FunDeclV};
use crate::tag::{
    binding_nodes, decl_nodes, nodes, operand_nodes, tag_bindings, tag_group, tag_operands,
    tag_spec,
};

verus! {

/// The annotations of the nodes of each expression of a list.
pub open spec fn operand_tags<A>(es: Seq<ExpV<A>>) -> Seq<Seq<A>>
    decreases es,
{
    Seq::new(
        es.len(),
        |i: int|
            if 0 <= i < es.len() {
                tags_of(es[i])
            } else {
                Seq::empty()
            },
    )
}

/// The annotations of the nodes of each bound expression of a `Let`.
pub open spec fn binding_tags<A>(bs: Seq<(Seq<char>, ExpV<A>)>) -> Seq<Seq<A>>
    decreases bs,
{
    Seq::new(
        bs.len(),
        |i: int|
            if 0 <= i < bs.len() {
                tags_of(bs[i].1)
            } else {
                Seq::empty()
            },
    )
}

/// The annotations of the nodes of the body of each declaration.
pub open spec fn decl_tags<A>(ds: Seq<FunDeclV<ExpV<A>, A>>) -> Seq<Seq<A>>
    decreases ds,
{
    Seq::new(
        ds.len(),
        |i: int|
            if 0 <= i < ds.len() {
                tags_of(ds[i].body)
            } else {
                Seq::empty()
            },
    )
}

/// The annotations of the nodes of `e`: that of a node before those of the nodes
/// below it, and those from left to right.
pub open spec fn tags_of<A>(e: ExpV<A>) -> Seq<A>
    decreases e,
{
    match e {
        ExpV::Num(_, a) => seq![a],
        ExpV::Bool(_, a) => seq![a],
        ExpV::Var(_, a) => seq![a],
        ExpV::Prim(_, es, a) => seq![a] + concat_all(operand_tags(es)),
        ExpV::Let { bindings, body, ann } => seq![ann] + concat_all(binding_tags(bindings)) + tags_of(
            *body,
        ),
        ExpV::If { cond, thn, els, ann } => seq![ann] + tags_of(*cond) + tags_of(*thn) + tags_of(
            *els,
        ),
        ExpV::FunDefs { decls, body, ann } => seq![ann] + concat_all(decl_tags(decls)) + tags_of(
            *body,
        ),
        ExpV::Call(_, args, a) => seq![a] + concat_all(operand_tags(args)),
        ExpV::InternalTailCall(_, args, a) => seq![a] + concat_all(operand_tags(args)),
        ExpV::ExternalCall { args, ann, .. } => seq![ann] + concat_all(operand_tags(args)),
    }
}

/// The `n` numbers after `t`, in order.
pub open spec fn count_up(t: nat, n: nat) -> Seq<u32> {
    Seq::new(n, |i: int| (t + 1 + i) as u32)
}

/// Counting on from where a count ended gives the longer count.
pub proof fn lemma_count_up_add(t: nat, n: nat, m: nat)
    ensures
        count_up(t, n) + count_up(t + n, m) == count_up(t, n + m),
{
    assert(count_up(t, n) + count_up(t + n, m) =~= count_up(t, n + m));
}

/// Lists that count up, one from where the one before ended, count up together.
pub proof fn lemma_concat_count_up(parts: Seq<Seq<u32>>, sizes: Seq<nat>, t: nat, n: int)
    requires
        0 <= n <= parts.len(),
        parts.len() == sizes.len(),
        forall|i: int| 0 <= i < n ==> #[trigger] parts[i] == count_up(t + total(sizes, i), sizes[i]),
    ensures
        concat_upto(parts, n) == count_up(t, total(sizes, n)),
    decreases n,
{
    if n > 0 {
        lemma_concat_count_up(parts, sizes, t, n - 1);
        assert(parts[n - 1] == count_up(t + total(sizes, n - 1), sizes[n - 1]));
        lemma_count_up_add(t, total(sizes, n - 1), sizes[n - 1]);
    } else {
        assert(concat_upto(parts, n) =~= count_up(t, 0));
    }
}

/// Tagging from `t` gives the nodes of an expression the numbers `t + 1`, `t + 2`
/// and so on, each node one, in the order in which the nodes are met: the tags
/// increase strictly, and no two nodes get the same.
pub proof fn lemma_tags_count_up<A>(e: ExpV<A>, t: nat)
    ensures
        tags_of(tag_spec(e, t)) == count_up(t, nodes(e)),
    decreases e,
{
    let out = tag_spec(e, t);
    let here = seq![(t + 1) as u32];
    assert(here =~= count_up(t, 1));
    match e {
        ExpV::Num(..) | ExpV::Bool(..) | ExpV::Var(..) => {
            assert(tags_of(out) =~= count_up(t, 1));
        },
        ExpV::Prim(_, es, _) => {
            lemma_operand_tags_count_up(es, t + 1);
            lemma_count_up_add(t, 1, total(operand_nodes(es), es.len() as int));
        },
        ExpV::Let { bindings, body, .. } => {
            let tagged = tag_bindings(bindings, t + 1);
            let sizes = binding_nodes(bindings);
            let n = bindings.len() as int;
            assert forall|i: int| 0 <= i < n implies #[trigger] binding_tags(tagged)[i] == count_up(
                t + 1 + total(sizes, i),
                sizes[i],
            ) by {
                lemma_tags_count_up(bindings[i].1, t + 1 + total(sizes, i));
            }
            lemma_concat_count_up(binding_tags(tagged), sizes, t + 1, n);
            lemma_tags_count_up(*body, t + 1 + total(sizes, n));
            lemma_count_up_add(t, 1, total(sizes, n));
            lemma_count_up_add(t, 1 + total(sizes, n), nodes(*body));
        },
        ExpV::If { cond, thn, els, .. } => {
            lemma_tags_count_up(*cond, t + 1);
            lemma_tags_count_up(*thn, t + 1 + nodes(*cond));
            lemma_tags_count_up(*els, t + 1 + nodes(*cond) + nodes(*thn));
            lemma_count_up_add(t, 1, nodes(*cond));
            lemma_count_up_add(t, 1 + nodes(*cond), nodes(*thn));
            lemma_count_up_add(t, 1 + nodes(*cond) + nodes(*thn), nodes(*els));
        },
        ExpV::FunDefs { decls, body, .. } => {
            let tagged = tag_group(decls, t + 1, (t + 1) as u32);
            let sizes = decl_nodes(decls);
            let n = decls.len() as int;
            assert forall|i: int| 0 <= i < n implies #[trigger] decl_tags(tagged)[i] == count_up(
                t + 1 + total(sizes, i),
                sizes[i],
            ) by {
                lemma_tags_count_up(decls[i].body, t + 1 + total(sizes, i));
            }
            lemma_concat_count_up(decl_tags(tagged), sizes, t + 1, n);
            lemma_tags_count_up(*body, t + 1 + total(sizes, n));
            lemma_count_up_add(t, 1, total(sizes, n));
            lemma_count_up_add(t, 1 + total(sizes, n), nodes(*body));
        },
        ExpV::Call(_, args, _) => {
            lemma_operand_tags_count_up(args, t + 1);
            lemma_count_up_add(t, 1, total(operand_nodes(args), args.len() as int));
        },
        ExpV::InternalTailCall(_, args, _) => {
            lemma_operand_tags_count_up(args, t + 1);
            lemma_count_up_add(t, 1, total(operand_nodes(args), args.len() as int));
        },
        ExpV::ExternalCall { args, .. } => {
            lemma_operand_tags_count_up(args, t + 1);
            lemma_count_up_add(t, 1, total(operand_nodes(args), args.len() as int));
        },
    }
}

/// Tagging from `t` numbers the nodes of the expressions of a list one after the
/// other.
pub proof fn lemma_operand_tags_count_up<A>(es: Seq<ExpV<A>>, t: nat)
    ensures
        concat_all(operand_tags(tag_operands(es, t))) == count_up(
            t,
            total(operand_nodes(es), es.len() as int),
        ),
    decreases es,
{
    let tagged = tag_operands(es, t);
    let sizes = operand_nodes(es);
    let n = es.len() as int;
    assert forall|i: int| 0 <= i < n implies #[trigger] operand_tags(tagged)[i] == count_up(
        t + total(sizes, i),
        sizes[i],
    ) by {
        lemma_tags_count_up(es[i], t + total(sizes, i));
    }
    lemma_concat_count_up(operand_tags(tagged), sizes, t, n);
}

/// Where the last tag fits 32 bits, the tags of different nodes are different.
pub proof fn lemma_tags_distinct<A>(e: ExpV<A>, t: nat)
    requires
        t + nodes(e) <= u32::MAX,
    ensures
        tags_of(tag_spec(e, t)).no_duplicates(),
        forall|i: int, j: int|
            0 <= i < j < nodes(e) ==> tags_of(tag_spec(e, t))[i] < tags_of(tag_spec(e, t))[j],
{
    lemma_tags_count_up(e, t);
}

} // verus!
