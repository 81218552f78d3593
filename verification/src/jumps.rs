//! Every jump and call in the code of a program goes somewhere: to a label of the
//! code, or to one of the two functions of the runtime.

use vstd::prelude::*;
use crate::codegen::{
    compare_jump, compare_label, decl_codes, done_label, else_label, entry_frame, exp_code,
    frame_bytes, fun_codes, if_check_code, overflow_check_code, prim1_check_code, prim1_code,
    prim2_check_code, prim2_code, prog_code, shift_args, slot_offset, stage_args,
};
use crate::lift_laws::targets_in;
use crate::lists::{
    concat_all, every, lemma_add_within, lemma_concat_within, lemma_every_add, lemma_every_concat,
    lemma_part_of, lemma_union_member, total, union_all,
};
use crate::scope::{binding_declared, declared, group_declared, operand_declared};
use crate::sequential::{
    arg_vars, fold_lets, if_name, prim1_name, prim2_first_name, prim2_second_name, seq_args,
    seq_bindings, seq_decls, seq_exp,
};
use crate::syntax::{ExpV, FunDeclV, ImmExpV, Prim, SeqExpV, SeqProgV, group_names};
use crate::tag::{
    binding_nodes, decl_nodes, nodes, operand_nodes, seq_decl_nodes, seq_nodes, tag_bindings,
    tag_group, tag_operands, tag_seq_decls, tag_seq_spec, tag_spec,
};
use crate::x86::{InstrV, Reg};

verus! {

/// Where an instruction jumps or calls, if it does.
pub open spec fn jump_target(i: InstrV) -> Option<Seq<char>> {
    match i {
        InstrV::Call(s) => Some(s),
        InstrV::Jmp(s) => Some(s),
        InstrV::Je(s) => Some(s),
        InstrV::Jne(s) => Some(s),
        InstrV::Jl(s) => Some(s),
        InstrV::Jle(s) => Some(s),
        InstrV::Jg(s) => Some(s),
        InstrV::Jge(s) => Some(s),
        InstrV::Jz(s) => Some(s),
        InstrV::Jnz(s) => Some(s),
        InstrV::Jo(s) => Some(s),
        InstrV::Jno(s) => Some(s),
        _ => None,
    }
}

/// Whether an instruction that jumps or calls goes to a name of `allowed`.
pub open spec fn jump_ok(allowed: Set<Seq<char>>) -> spec_fn(InstrV) -> bool {
    |i: InstrV| jump_target(i) is Some ==> allowed.contains(jump_target(i)->0)
}

/// Whether an instruction that is a label is one of `allowed`.
pub open spec fn label_ok(allowed: Set<Seq<char>>) -> spec_fn(InstrV) -> bool {
    |i: InstrV| i is Label ==> allowed.contains(i->Label_0)
}

/// The labels of a list of instructions.
pub open spec fn code_labels(code: Seq<InstrV>) -> Set<Seq<char>> {
    Set::new(|s: Seq<char>| code.contains(InstrV::Label(s)))
}

/// The names that code may jump to or call besides its own labels: the two functions
/// of the runtime.
pub open spec fn runtime_names() -> Set<Seq<char>> {
    Set::empty().insert("print_snake_val"@).insert("snake_error"@)
}

/// Whether every jump and call of `code` goes to a label of `code` or to a function of
/// the runtime.
pub open spec fn no_dangling_jump(code: Seq<InstrV>) -> bool {
    every(code, jump_ok(code_labels(code).union(runtime_names())))
}

/// The functions that are declared inside each declaration of a list.
pub open spec fn decl_labels<A>(ds: Seq<FunDeclV<SeqExpV<A>, A>>) -> Seq<Set<Seq<char>>>
    decreases ds,
{
    Seq::new(
        ds.len(),
        |k: int|
            if 0 <= k < ds.len() {
                labels_in(ds[k].body)
            } else {
                Set::empty()
            },
    )
}

/// The functions that are declared inside `e`: each gets a label in the code of `e`.
pub open spec fn labels_in<A>(e: SeqExpV<A>) -> Set<Seq<char>>
    decreases e,
{
    match e {
        SeqExpV::Let { bound_exp, body, .. } => labels_in(*bound_exp).union(labels_in(*body)),
        SeqExpV::If { thn, els, .. } => labels_in(*thn).union(labels_in(*els)),
        SeqExpV::FunDefs { decls, body, .. } => group_names(decls).to_set().union(
            union_all(decl_labels(decls)),
        ).union(labels_in(*body)),
        _ => Set::empty(),
    }
}

/// Whether every call in `e` names a function of `allowed`.
pub open spec fn calls_within<A>(e: SeqExpV<A>, allowed: Set<Seq<char>>) -> bool
    decreases e,
{
    match e {
        SeqExpV::Imm(..) | SeqExpV::Prim(..) => true,
        SeqExpV::Let { bound_exp, body, .. } => calls_within(*bound_exp, allowed) && calls_within(
            *body,
            allowed,
        ),
        SeqExpV::If { thn, els, .. } => calls_within(*thn, allowed) && calls_within(*els, allowed),
        SeqExpV::FunDefs { decls, body, .. } => {
            &&& forall|k: int| 0 <= k < decls.len() ==> calls_within((#[trigger] decls[k]).body, allowed)
            &&& calls_within(*body, allowed)
        },
        SeqExpV::InternalTailCall(f, _, _) => allowed.contains(f),
        SeqExpV::ExternalCall { fun_name, .. } => allowed.contains(fun_name),
    }
}

/// The instructions that put arguments below the frame neither jump nor are labels.
pub proof fn lemma_stage_args_plain(
    args: Seq<ImmExpV>,
    n: int,
    env: Map<Seq<char>, i32>,
    space: i32,
    q: spec_fn(InstrV) -> bool,
)
    requires
        forall|i: InstrV| i is Mov ==> #[trigger] q(i),
    ensures
        every(stage_args(args, n, env, space), q),
    decreases n,
{
    if 0 < n <= args.len() {
        lemma_stage_args_plain(args, n - 1, env, space, q);
        let code = stage_args(args, n, env, space);
        let before = stage_args(args, n - 1, env, space);
        assert forall|j: int| 0 <= j < code.len() implies q(#[trigger] code[j]) by {
            if j < before.len() {
                assert(code[j] == before[j]);
            } else {
                assert(code[j] is Mov);
            }
        }
    }
}

/// The instructions that move arguments up neither jump nor are labels.
pub proof fn lemma_shift_args_plain(n: int, space: i32, q: spec_fn(InstrV) -> bool)
    requires
        forall|i: InstrV| i is Mov ==> #[trigger] q(i),
    ensures
        every(shift_args(n, space), q),
    decreases n,
{
    if n > 0 {
        lemma_shift_args_plain(n - 1, space, q);
        let code = shift_args(n, space);
        let before = shift_args(n - 1, space);
        assert forall|j: int| 0 <= j < code.len() implies q(#[trigger] code[j]) by {
            if j < before.len() {
                assert(code[j] == before[j]);
            } else {
                assert(code[j] is Mov);
            }
        }
    }
}

/// The code of a primitive operation jumps to the trap and to its own label alone,
/// and calls the runtime alone.
pub proof fn lemma_prim_code_jumps(
    p: Prim,
    is: Seq<ImmExpV>,
    t: u32,
    env: Map<Seq<char>, i32>,
    space: i32,
    allowed: Set<Seq<char>>,
)
    requires
        allowed.contains("snake_err"@),
        allowed.contains("print_snake_val"@),
        every(exp_code(SeqExpV::Prim(p, is, t), env, space), label_ok(allowed)),
    ensures
        every(exp_code(SeqExpV::Prim(p, is, t), env, space), jump_ok(allowed)),
{
    let code = exp_code(SeqExpV::Prim(p, is, t), env, space);
    let q = jump_ok(allowed);
    if p.unary() && is.len() >= 1 {
        assert(every(prim1_check_code(Reg::Rax, p), q));
        assert(every(prim1_code(p, space), q)) by {
            assert(every(overflow_check_code(), q));
            if p == Prim::Add1 {
                lemma_every_add(prim1_code(p, space).subrange(0, 2), overflow_check_code(), q);
                assert(prim1_code(p, space) =~= prim1_code(p, space).subrange(0, 2)
                    + overflow_check_code());
            } else if p == Prim::Sub1 {
                lemma_every_add(prim1_code(p, space).subrange(0, 2), overflow_check_code(), q);
                assert(prim1_code(p, space) =~= prim1_code(p, space).subrange(0, 2)
                    + overflow_check_code());
            }
        }
        let head = code.subrange(0, 2);
        assert(every(head, q));
        assert(code =~= head + prim1_check_code(Reg::Rax, p) + prim1_code(p, space));
        lemma_every_add(head, prim1_check_code(Reg::Rax, p), q);
        lemma_every_add(head + prim1_check_code(Reg::Rax, p), prim1_code(p, space), q);
    } else if !p.unary() && is.len() >= 2 {
        let head = code.subrange(0, 2);
        let c1 = prim2_check_code(Reg::Rax, p);
        let mid = seq![code[2 + c1.len() as int]];
        let c2 = prim2_check_code(Reg::R10, p);
        let tail = prim2_code(p, t);
        assert(code =~= head + c1 + mid + c2 + tail);
        assert(every(head, q));
        assert(every(c1, q));
        assert(every(mid, q));
        assert(every(c2, q));
        lemma_every_add(head + c1 + mid + c2, tail, label_ok(allowed));
        assert(every(tail, q)) by {
            assert(every(overflow_check_code(), q));
            if p == Prim::Add || p == Prim::Sub {
                assert(tail =~= tail.subrange(0, 2) + overflow_check_code());
                lemma_every_add(tail.subrange(0, 2), overflow_check_code(), q);
            } else if p == Prim::Mul {
                assert(tail =~= tail.subrange(0, 3) + overflow_check_code());
                lemma_every_add(tail.subrange(0, 3), overflow_check_code(), q);
            } else if p == Prim::And || p == Prim::Or {
            } else {
                let label = compare_label(p, t);
                assert(tail[5] == InstrV::Label(label));
                assert(label_ok(allowed)(tail[5]));
                assert(jump_target(compare_jump(p, label)) == Some(label));
            }
        }
        lemma_every_add(head, c1, q);
        lemma_every_add(head + c1, mid, q);
        lemma_every_add(head + c1 + mid, c2, q);
        lemma_every_add(head + c1 + mid + c2, tail, q);
    }
}

/// The code of an expression whose calls name functions of `allowed` jumps to names
/// of `allowed` alone, where `allowed` holds the trap, the function that prints, and
/// the labels of the code.
pub proof fn lemma_code_jumps(
    e: SeqExpV<u32>,
    env: Map<Seq<char>, i32>,
    space: i32,
    allowed: Set<Seq<char>>,
)
    requires
        calls_within(e, allowed),
        allowed.contains("snake_err"@),
        allowed.contains("print_snake_val"@),
        every(exp_code(e, env, space), label_ok(allowed)),
    ensures
        every(exp_code(e, env, space), jump_ok(allowed)),
    decreases e, 1nat,
{
    let code = exp_code(e, env, space);
    let q = jump_ok(allowed);
    let l = label_ok(allowed);
    match e {
        SeqExpV::Imm(..) => {},
        SeqExpV::Prim(p, is, t) => {
            lemma_prim_code_jumps(p, is, t, env, space, allowed);
        },
        SeqExpV::Let { var, bound_exp, body, .. } => {
            let a = exp_code(*bound_exp, env, space);
            let b = code.subrange(a.len() as int, a.len() as int + 2);
            let c = exp_code(*body, env.insert(var, slot_offset(env.len())), space);
            assert(code =~= a + b + c);
            lemma_every_add(a + b, c, l);
            lemma_every_add(a, b, l);
            lemma_code_jumps(*bound_exp, env, space, allowed);
            lemma_code_jumps(
                *body,
                env.insert(var, slot_offset(env.len())),
                space,
                allowed,
            );
            assert(every(b, q));
            lemma_every_add(a, b, q);
            lemma_every_add(a + b, c, q);
        },
        SeqExpV::If { cond, thn, els, ann } => {
            let h1 = code.subrange(0, 2);
            let ic = if_check_code(Reg::Rax);
            let h2 = code.subrange(2 + ic.len() as int, 5 + ic.len() as int);
            let t = exp_code(*thn, env, space);
            let m = seq![InstrV::Jmp(done_label(ann)), InstrV::Label(else_label(ann))];
            let f = exp_code(*els, env, space);
            let d = seq![InstrV::Label(done_label(ann))];
            assert(code =~= h1 + ic + h2 + t + m + f + d);
            lemma_every_add(h1 + ic + h2 + t + m + f, d, l);
            lemma_every_add(h1 + ic + h2 + t + m, f, l);
            lemma_every_add(h1 + ic + h2 + t, m, l);
            lemma_every_add(h1 + ic + h2, t, l);
            assert(l(m[1]));
            assert(l(d[0]));
            assert(allowed.contains(else_label(ann)));
            assert(allowed.contains(done_label(ann)));
            lemma_code_jumps(*thn, env, space, allowed);
            lemma_code_jumps(*els, env, space, allowed);
            assert(every(h1, q));
            assert(every(ic, q));
            assert(h2[2] == InstrV::Je(else_label(ann)));
            assert(every(h2, q));
            assert(every(m, q));
            assert(every(d, q));
            lemma_every_add(h1, ic, q);
            lemma_every_add(h1 + ic, h2, q);
            lemma_every_add(h1 + ic + h2, t, q);
            lemma_every_add(h1 + ic + h2 + t, m, q);
            lemma_every_add(h1 + ic + h2 + t + m, f, q);
            lemma_every_add(h1 + ic + h2 + t + m + f, d, q);
        },
        SeqExpV::FunDefs { decls, body, ann } => {
            let h = code.subrange(0, 1);
            let b = exp_code(*body, env, space);
            let m = code.subrange(1 + b.len() as int, 3 + b.len() as int);
            let parts = decl_codes(decls, space);
            let ds = concat_all(parts);
            assert(code =~= h + b + m + ds);
            lemma_every_add(h + b + m, ds, l);
            lemma_every_add(h + b, m, l);
            lemma_every_add(h, b, l);
            lemma_code_jumps(*body, env, space, allowed);
            lemma_every_concat(parts, parts.len() as int, l);
            assert forall|k: int| 0 <= k < parts.len() implies every(#[trigger] parts[k], q) by {
                let inner_env = entry_frame(decls[k].parameters, decls[k].parameters.len() as int);
                let c = exp_code(decls[k].body, inner_env, space);
                let first = seq![InstrV::Label(decls[k].name)];
                let last = seq![InstrV::Ret];
                assert(parts[k] =~= first + c + last);
                assert(every(parts[k], l));
                lemma_every_add(first + c, last, l);
                lemma_every_add(first, c, l);
                assert(calls_within(decls[k].body, allowed));
                lemma_code_jumps(decls[k].body, inner_env, space, allowed);
                assert(every(first, q));
                assert(every(last, q));
                lemma_every_add(first, c, q);
                lemma_every_add(first + c, last, q);
            }
            lemma_every_concat(parts, parts.len() as int, q);
            assert(every(h, q));
            assert(every(m, q));
            lemma_every_add(h, b, q);
            lemma_every_add(h + b, m, q);
            lemma_every_add(h + b + m, ds, q);
        },
        SeqExpV::InternalTailCall(f, args, _) => {
            let h = seq![InstrV::Comment("InCall"@)];
            let st = stage_args(args, args.len() as int, env, space);
            let sh = shift_args(args.len() as int, space);
            let j = seq![InstrV::Jmp(f)];
            assert(code =~= h + st + sh + j);
            lemma_stage_args_plain(args, args.len() as int, env, space, q);
            lemma_shift_args_plain(args.len() as int, space, q);
            assert(every(h, q));
            assert(every(j, q));
            lemma_every_add(h, st, q);
            lemma_every_add(h + st, sh, q);
            lemma_every_add(h + st + sh, j, q);
        },
        SeqExpV::ExternalCall { fun_name, args, is_tail, .. } => {
            let h = seq![InstrV::Comment("ExCall"@)];
            let st = stage_args(args, args.len() as int, env, space);
            lemma_stage_args_plain(args, args.len() as int, env, space, q);
            assert(every(h, q));
            lemma_every_add(h, st, q);
            if is_tail {
                let sh = shift_args(args.len() as int, space);
                let j = seq![InstrV::Jmp(fun_name)];
                assert(code =~= h + st + (sh + j));
                lemma_shift_args_plain(args.len() as int, space, q);
                assert(every(j, q));
                lemma_every_add(sh, j, q);
                lemma_every_add(h + st, sh + j, q);
            } else {
                let c = code.subrange(1 + st.len() as int, 4 + st.len() as int);
                assert(code =~= h + st + c);
                assert(c[1] == InstrV::Call(fun_name));
                assert(every(c, q));
                lemma_every_add(h + st, c, q);
            }
        },
    }
}

/// Every function that is declared inside an expression has a label in the code of
/// the expression.
pub proof fn lemma_code_labels(
    e: SeqExpV<u32>,
    env: Map<Seq<char>, i32>,
    space: i32,
    x: Seq<char>,
)
    requires
        labels_in(e).contains(x),
    ensures
        exp_code(e, env, space).contains(InstrV::Label(x)),
    decreases e,
{
    let code = exp_code(e, env, space);
    let want = InstrV::Label(x);
    match e {
        SeqExpV::Let { var, bound_exp, body, .. } => {
            let a = exp_code(*bound_exp, env, space);
            let b = code.subrange(a.len() as int, a.len() as int + 2);
            let inner = env.insert(var, slot_offset(env.len()));
            let c = exp_code(*body, inner, space);
            assert(code =~= a + b + c);
            lemma_add_within(a + b, c);
            lemma_add_within(a, b);
            if labels_in(*bound_exp).contains(x) {
                lemma_code_labels(*bound_exp, env, space, x);
                assert((a + b).contains(want));
            } else {
                lemma_code_labels(*body, inner, space, x);
            }
        },
        SeqExpV::If { cond, thn, els, ann } => {
            let h1 = code.subrange(0, 2);
            let ic = if_check_code(Reg::Rax);
            let h2 = code.subrange(2 + ic.len() as int, 5 + ic.len() as int);
            let t = exp_code(*thn, env, space);
            let m = seq![InstrV::Jmp(done_label(ann)), InstrV::Label(else_label(ann))];
            let f = exp_code(*els, env, space);
            let d = seq![InstrV::Label(done_label(ann))];
            assert(code =~= h1 + ic + h2 + t + m + f + d);
            lemma_add_within(h1 + ic + h2 + t + m + f, d);
            lemma_add_within(h1 + ic + h2 + t + m, f);
            lemma_add_within(h1 + ic + h2 + t, m);
            lemma_add_within(h1 + ic + h2, t);
            if labels_in(*thn).contains(x) {
                lemma_code_labels(*thn, env, space, x);
                assert((h1 + ic + h2 + t).contains(want));
                assert((h1 + ic + h2 + t + m).contains(want));
                assert((h1 + ic + h2 + t + m + f).contains(want));
            } else {
                lemma_code_labels(*els, env, space, x);
                assert((h1 + ic + h2 + t + m + f).contains(want));
            }
        },
        SeqExpV::FunDefs { decls, body, ann } => {
            let h = code.subrange(0, 1);
            let b = exp_code(*body, env, space);
            let m = code.subrange(1 + b.len() as int, 3 + b.len() as int);
            let parts = decl_codes(decls, space);
            let ds = concat_all(parts);
            assert(code =~= h + b + m + ds);
            lemma_add_within(h + b + m, ds);
            lemma_add_within(h + b, m);
            lemma_add_within(h, b);
            if group_names(decls).to_set().contains(x) {
                let k = choose|k: int| 0 <= k < group_names(decls).len() && group_names(decls)[k] == x;
                assert(parts[k][0] == want);
                lemma_concat_within(parts, parts.len() as int, k);
            } else if union_all(decl_labels(decls)).contains(x) {
                let k = choose|k: int|
                    0 <= k < decl_labels(decls).len() && k < decl_labels(decls).len()
                        && #[trigger] decl_labels(decls)[k].contains(x);
                let inner_env = entry_frame(decls[k].parameters, decls[k].parameters.len() as int);
                let c = exp_code(decls[k].body, inner_env, space);
                lemma_code_labels(decls[k].body, inner_env, space, x);
                let first = seq![InstrV::Label(decls[k].name)];
                let last = seq![InstrV::Ret];
                assert(parts[k] =~= first + c + last);
                lemma_add_within(first + c, last);
                lemma_add_within(first, c);
                assert((first + c).contains(want));
                assert(parts[k].contains(want));
                lemma_concat_within(parts, parts.len() as int, k);
            } else {
                lemma_code_labels(*body, env, space, x);
                assert((h + b).contains(want));
                assert((h + b + m).contains(want));
            }
        },
        _ => {},
    }
}

/// The names that the code of a program can call or jump to as functions: the
/// top-level functions, and the functions that are declared inside the main
/// expression or inside the body of a top-level function.
pub open spec fn prog_names<A>(p: SeqProgV<A>) -> Set<Seq<char>> {
    group_names(p.funs).to_set().union(labels_in(p.main)).union(union_all(decl_labels(p.funs)))
}

/// Calls that name functions of a set name functions of every larger set.
pub proof fn lemma_calls_within_more<A>(e: SeqExpV<A>, a: Set<Seq<char>>, b: Set<Seq<char>>)
    requires
        calls_within(e, a),
        a.subset_of(b),
    ensures
        calls_within(e, b),
    decreases e,
{
    match e {
        SeqExpV::Let { bound_exp, body, .. } => {
            lemma_calls_within_more(*bound_exp, a, b);
            lemma_calls_within_more(*body, a, b);
        },
        SeqExpV::If { thn, els, .. } => {
            lemma_calls_within_more(*thn, a, b);
            lemma_calls_within_more(*els, a, b);
        },
        SeqExpV::FunDefs { decls, body, .. } => {
            assert forall|k: int| 0 <= k < decls.len() implies calls_within(
                (#[trigger] decls[k]).body,
                b,
            ) by {
                lemma_calls_within_more(decls[k].body, a, b);
            }
            lemma_calls_within_more(*body, a, b);
        },
        _ => {},
    }
}

/// In the code of a program whose calls name functions of the program, every jump and
/// call goes to a label of the code or to a function of the runtime.
pub proof fn lemma_program_jumps(p: SeqProgV<u32>)
    requires
        calls_within(p.main, prog_names(p)),
        forall|k: int| 0 <= k < p.funs.len() ==> calls_within((#[trigger] p.funs[k]).body, prog_names(p)),
    ensures
        no_dangling_jump(prog_code(p)),
{
    let code = prog_code(p);
    let allowed = code_labels(code).union(runtime_names());
    let q = jump_ok(allowed);
    let l = label_ok(allowed);
    let h = seq![InstrV::Call("main"@), InstrV::Ret, InstrV::Label("main"@)];
    let main_space = frame_bytes(p.main, 0) as i32;
    let b = exp_code(p.main, Map::empty(), main_space);
    let m = seq![InstrV::Ret, InstrV::Comment("Global FunDecls"@)];
    let parts = fun_codes(p.funs);
    let fs = concat_all(parts);
    let t = seq![InstrV::Label("snake_err"@), InstrV::Call("snake_error"@)];
    assert(code =~= h + b + m + fs + t);
    assert(every(code, l)) by {
        assert forall|j: int| 0 <= j < code.len() implies l(#[trigger] code[j]) by {
            if code[j] is Label {
                assert(code.contains(InstrV::Label(code[j]->Label_0)));
            }
        }
    }
    lemma_add_within(h + b + m + fs, t);
    lemma_add_within(h + b + m, fs);
    lemma_add_within(h + b, m);
    lemma_add_within(h, b);
    assert(allowed.contains("snake_err"@)) by {
        assert(t[0] == InstrV::Label("snake_err"@));
        assert(t.contains(InstrV::Label("snake_err"@)));
    }
    assert(allowed.contains("main"@)) by {
        assert(h[2] == InstrV::Label("main"@));
        assert(h.contains(InstrV::Label("main"@)));
        assert((h + b).contains(InstrV::Label("main"@)));
        assert((h + b + m).contains(InstrV::Label("main"@)));
        assert((h + b + m + fs).contains(InstrV::Label("main"@)));
    }
    assert(allowed.contains("print_snake_val"@));
    assert(allowed.contains("snake_error"@));
    assert(prog_names(p).subset_of(allowed)) by {
        assert forall|x: Seq<char>| prog_names(p).contains(x) implies allowed.contains(x) by {
            let want = InstrV::Label(x);
            if group_names(p.funs).to_set().contains(x) {
                let k = choose|k: int|
                    0 <= k < group_names(p.funs).len() && group_names(p.funs)[k] == x;
                assert(parts[k][0] == want);
                lemma_concat_within(parts, parts.len() as int, k);
                assert(fs.contains(want));
                assert((h + b + m + fs).contains(want));
            } else if labels_in(p.main).contains(x) {
                lemma_code_labels(p.main, Map::empty(), main_space, x);
                assert((h + b).contains(want));
                assert((h + b + m).contains(want));
                assert((h + b + m + fs).contains(want));
            } else {
                let k = choose|k: int|
                    0 <= k < decl_labels(p.funs).len() && k < decl_labels(p.funs).len()
                        && #[trigger] decl_labels(p.funs)[k].contains(x);
                let env = entry_frame(p.funs[k].parameters, p.funs[k].parameters.len() as int);
                let space = frame_bytes(p.funs[k].body, p.funs[k].parameters.len()) as i32;
                let c = exp_code(p.funs[k].body, env, space);
                lemma_code_labels(p.funs[k].body, env, space, x);
                let first = seq![InstrV::Label(p.funs[k].name)];
                let last = seq![InstrV::Ret];
                assert(parts[k] =~= first + c + last);
                lemma_add_within(first + c, last);
                lemma_add_within(first, c);
                assert((first + c).contains(want));
                lemma_concat_within(parts, parts.len() as int, k);
                assert(fs.contains(want));
                assert((h + b + m + fs).contains(want));
            }
        }
    }
    lemma_every_add(h + b + m + fs, t, l);
    lemma_every_add(h + b + m, fs, l);
    lemma_every_add(h + b, m, l);
    lemma_every_add(h, b, l);
    lemma_calls_within_more(p.main, prog_names(p), allowed);
    lemma_code_jumps(p.main, Map::empty(), main_space, allowed);
    lemma_every_concat(parts, parts.len() as int, l);
    assert forall|k: int| 0 <= k < parts.len() implies every(#[trigger] parts[k], q) by {
        let env = entry_frame(p.funs[k].parameters, p.funs[k].parameters.len() as int);
        let space = frame_bytes(p.funs[k].body, p.funs[k].parameters.len()) as i32;
        let c = exp_code(p.funs[k].body, env, space);
        let first = seq![InstrV::Label(p.funs[k].name)];
        let last = seq![InstrV::Ret];
        assert(parts[k] =~= first + c + last);
        assert(every(parts[k], l));
        lemma_every_add(first + c, last, l);
        lemma_every_add(first, c, l);
        lemma_calls_within_more(p.funs[k].body, prog_names(p), allowed);
        lemma_code_jumps(p.funs[k].body, env, space, allowed);
        assert(every(first, q));
        assert(every(last, q));
        lemma_every_add(first, c, q);
        lemma_every_add(first + c, last, q);
    }
    lemma_every_concat(parts, parts.len() as int, q);
    assert(every(h, q));
    assert(every(m, q));
    assert(every(t, q));
    lemma_every_add(h, b, q);
    lemma_every_add(h + b, m, q);
    lemma_every_add(h + b + m, fs, q);
    lemma_every_add(h + b + m + fs, t, q);
}

/// Tagging keeps what every call names.
pub proof fn lemma_tag_targets_in<S>(
    e: ExpV<S>,
    t: nat,
    locals: Set<Seq<char>>,
    globals: Set<Seq<char>>,
)
    requires
        targets_in(e, locals, globals),
    ensures
        targets_in(tag_spec(e, t), locals, globals),
    decreases e,
{
    match e {
        ExpV::Num(..) | ExpV::Bool(..) | ExpV::Var(..) | ExpV::Call(..) => {},
        ExpV::Prim(_, es, _) => {
            let out = tag_operands(es, t + 1);
            assert forall|i: int| 0 <= i < out.len() implies targets_in(
                #[trigger] out[i],
                locals,
                globals,
            ) by {
                assert(targets_in(es[i], locals, globals));
                lemma_tag_targets_in(es[i], t + 1 + total(operand_nodes(es), i), locals, globals);
            }
        },
        ExpV::Let { bindings, body, .. } => {
            let out = tag_bindings(bindings, t + 1);
            assert forall|i: int| 0 <= i < out.len() implies targets_in(
                (#[trigger] out[i]).1,
                locals,
                globals,
            ) by {
                assert(targets_in(bindings[i].1, locals, globals));
                lemma_tag_targets_in(
                    bindings[i].1,
                    t + 1 + total(binding_nodes(bindings), i),
                    locals,
                    globals,
                );
            }
            lemma_tag_targets_in(
                *body,
                t + 1 + total(binding_nodes(bindings), bindings.len() as int),
                locals,
                globals,
            );
        },
        ExpV::If { cond, thn, els, .. } => {
            lemma_tag_targets_in(*cond, t + 1, locals, globals);
            lemma_tag_targets_in(*thn, t + 1 + nodes(*cond), locals, globals);
            lemma_tag_targets_in(*els, t + 1 + nodes(*cond) + nodes(*thn), locals, globals);
        },
        ExpV::FunDefs { decls, body, .. } => {
            let out = tag_group(decls, t + 1, (t + 1) as u32);
            assert forall|i: int| 0 <= i < out.len() implies targets_in(
                (#[trigger] out[i]).body,
                locals,
                globals,
            ) by {
                assert(targets_in(decls[i].body, locals, globals));
                lemma_tag_targets_in(
                    decls[i].body,
                    t + 1 + total(decl_nodes(decls), i),
                    locals,
                    globals,
                );
            }
            lemma_tag_targets_in(
                *body,
                t + 1 + total(decl_nodes(decls), decls.len() as int),
                locals,
                globals,
            );
        },
        ExpV::InternalTailCall(_, args, _) => {
            let out = tag_operands(args, t + 1);
            assert forall|i: int| 0 <= i < out.len() implies targets_in(
                #[trigger] out[i],
                locals,
                globals,
            ) by {
                assert(targets_in(args[i], locals, globals));
                lemma_tag_targets_in(args[i], t + 1 + total(operand_nodes(args), i), locals, globals);
            }
        },
        ExpV::ExternalCall { args, .. } => {
            let out = tag_operands(args, t + 1);
            assert forall|i: int| 0 <= i < out.len() implies targets_in(
                #[trigger] out[i],
                locals,
                globals,
            ) by {
                assert(targets_in(args[i], locals, globals));
                lemma_tag_targets_in(args[i], t + 1 + total(operand_nodes(args), i), locals, globals);
            }
        },
    }
}

/// Tagging keeps what an expression declares.
pub proof fn lemma_tag_declared<S>(e: ExpV<S>, t: nat)
    ensures
        declared(tag_spec(e, t)) == declared(e),
    decreases e,
{
    match e {
        ExpV::Num(..) | ExpV::Bool(..) | ExpV::Var(..) => {},
        ExpV::Prim(_, es, _) => {
            lemma_tag_declared_operands(es, t + 1);
        },
        ExpV::Let { bindings, body, .. } => {
            let out = tag_bindings(bindings, t + 1);
            assert forall|i: int| 0 <= i < out.len() implies binding_declared(out)[i]
                == binding_declared(bindings)[i] by {
                lemma_tag_declared(bindings[i].1, t + 1 + total(binding_nodes(bindings), i));
            }
            assert(binding_declared(out) =~= binding_declared(bindings));
            lemma_tag_declared(*body, t + 1 + total(binding_nodes(bindings), bindings.len() as int));
        },
        ExpV::If { cond, thn, els, .. } => {
            lemma_tag_declared(*cond, t + 1);
            lemma_tag_declared(*thn, t + 1 + nodes(*cond));
            lemma_tag_declared(*els, t + 1 + nodes(*cond) + nodes(*thn));
        },
        ExpV::FunDefs { decls, body, .. } => {
            let out = tag_group(decls, t + 1, (t + 1) as u32);
            assert forall|i: int| 0 <= i < out.len() implies group_declared(out)[i] == group_declared(
                decls,
            )[i] by {
                lemma_tag_declared(decls[i].body, t + 1 + total(decl_nodes(decls), i));
            }
            assert(group_declared(out) =~= group_declared(decls));
            lemma_tag_declared(*body, t + 1 + total(decl_nodes(decls), decls.len() as int));
        },
        ExpV::Call(_, args, _) => {
            lemma_tag_declared_operands(args, t + 1);
        },
        ExpV::InternalTailCall(_, args, _) => {
            lemma_tag_declared_operands(args, t + 1);
        },
        ExpV::ExternalCall { args, .. } => {
            lemma_tag_declared_operands(args, t + 1);
        },
    }
}

/// Tagging keeps what the expressions of a list declare.
pub proof fn lemma_tag_declared_operands<S>(es: Seq<ExpV<S>>, t: nat)
    ensures
        operand_declared(tag_operands(es, t)) == operand_declared(es),
    decreases es,
{
    let out = tag_operands(es, t);
    assert forall|i: int| 0 <= i < out.len() implies operand_declared(out)[i] == operand_declared(
        es,
    )[i] by {
        lemma_tag_declared(es[i], t + total(operand_nodes(es), i));
    }
    assert(operand_declared(out) =~= operand_declared(es));
}

/// Lets folded around an expression call functions of `allowed` alone where the
/// bound expressions and the expression do.
pub proof fn lemma_fold_lets_calls(
    pairs: Seq<(Seq<char>, SeqExpV<()>)>,
    i: int,
    tail: SeqExpV<()>,
    allowed: Set<Seq<char>>,
)
    requires
        0 <= i <= pairs.len(),
        forall|j: int| 0 <= j < pairs.len() ==> calls_within((#[trigger] pairs[j]).1, allowed),
        calls_within(tail, allowed),
    ensures
        calls_within(fold_lets(pairs, i, tail), allowed),
    decreases pairs.len() - i,
{
    if i < pairs.len() {
        lemma_fold_lets_calls(pairs, i + 1, tail, allowed);
        assert(calls_within(pairs[i].1, allowed));
    }
}

/// Lets folded around an expression declare what the bound expressions from `i` on
/// and the expression declare.
pub proof fn lemma_fold_lets_labels(
    pairs: Seq<(Seq<char>, SeqExpV<()>)>,
    i: int,
    tail: SeqExpV<()>,
)
    requires
        0 <= i <= pairs.len(),
    ensures
        labels_in(tail).subset_of(labels_in(fold_lets(pairs, i, tail))),
        forall|j: int|
            i <= j < pairs.len() ==> labels_in((#[trigger] pairs[j]).1).subset_of(
                labels_in(fold_lets(pairs, i, tail)),
            ),
    decreases pairs.len() - i,
{
    if i < pairs.len() {
        lemma_fold_lets_labels(pairs, i + 1, tail);
        let rest = fold_lets(pairs, i + 1, tail);
        let whole = fold_lets(pairs, i, tail);
        assert(labels_in(whole) == labels_in(pairs[i].1).union(labels_in(rest)));
        assert forall|j: int| i <= j < pairs.len() implies labels_in(
            (#[trigger] pairs[j]).1,
        ).subset_of(labels_in(whole)) by {
            if j > i {
                assert(labels_in(pairs[j].1).subset_of(labels_in(rest)));
            }
        }
    }
}

/// Sequentialization keeps what every call names.
pub proof fn lemma_seq_calls_within(e: ExpV<u32>, locals: Set<Seq<char>>, globals: Set<Seq<char>>)
    requires
        targets_in(e, locals, globals),
    ensures
        calls_within(seq_exp(e), locals.union(globals)),
    decreases e,
{
    let allowed = locals.union(globals);
    match e {
        ExpV::Num(..) | ExpV::Bool(..) | ExpV::Var(..) | ExpV::Call(..) => {},
        ExpV::Prim(p, es, t) => {
            if p.unary() && es.len() >= 1 {
                lemma_seq_calls_within(es[0], locals, globals);
                let inner = SeqExpV::Prim(p, seq![ImmExpV::Var(prim1_name(t))], ());
                assert(calls_within(inner, allowed));
            } else if !p.unary() && es.len() >= 2 {
                lemma_seq_calls_within(es[0], locals, globals);
                lemma_seq_calls_within(es[1], locals, globals);
                let inner = SeqExpV::Prim(
                    p,
                    seq![
                        ImmExpV::Var(prim2_first_name(t)),
                        ImmExpV::Var(prim2_second_name(t)),
                    ],
                    (),
                );
                assert(calls_within(inner, allowed));
                let middle = SeqExpV::Let {
                    var: prim2_second_name(t),
                    bound_exp: Box::new(seq_exp(es[1])),
                    body: Box::new(inner),
                    ann: (),
                };
                assert(calls_within(middle, allowed));
            }
        },
        ExpV::Let { bindings, body, .. } => {
            let pairs = seq_bindings(bindings);
            assert forall|j: int| 0 <= j < pairs.len() implies calls_within(
                (#[trigger] pairs[j]).1,
                allowed,
            ) by {
                assert(targets_in(bindings[j].1, locals, globals));
                lemma_seq_calls_within(bindings[j].1, locals, globals);
            }
            lemma_seq_calls_within(*body, locals, globals);
            lemma_fold_lets_calls(pairs, 0, seq_exp(*body), allowed);
        },
        ExpV::If { cond, thn, els, ann } => {
            lemma_seq_calls_within(*cond, locals, globals);
            lemma_seq_calls_within(*thn, locals, globals);
            lemma_seq_calls_within(*els, locals, globals);
            let inner = SeqExpV::If {
                cond: ImmExpV::Var(if_name(ann)),
                thn: Box::new(seq_exp(*thn)),
                els: Box::new(seq_exp(*els)),
                ann: (),
            };
            assert(calls_within(inner, allowed));
        },
        ExpV::FunDefs { decls, body, .. } => {
            let out = seq_decls(decls);
            assert forall|k: int| 0 <= k < out.len() implies calls_within(
                (#[trigger] out[k]).body,
                allowed,
            ) by {
                assert(targets_in(decls[k].body, locals, globals));
                lemma_seq_calls_within(decls[k].body, locals, globals);
            }
            lemma_seq_calls_within(*body, locals, globals);
        },
        ExpV::InternalTailCall(f, args, t) => {
            let pairs = seq_args(args, t);
            assert forall|j: int| 0 <= j < pairs.len() implies calls_within(
                (#[trigger] pairs[j]).1,
                allowed,
            ) by {
                assert(targets_in(args[j], locals, globals));
                lemma_seq_calls_within(args[j], locals, globals);
            }
            let call = SeqExpV::InternalTailCall(f, arg_vars(t, args.len()), ());
            assert(calls_within(call, allowed));
            lemma_fold_lets_calls(pairs, 0, call, allowed);
        },
        ExpV::ExternalCall { fun_name, args, is_tail, ann } => {
            let pairs = seq_args(args, ann);
            assert forall|j: int| 0 <= j < pairs.len() implies calls_within(
                (#[trigger] pairs[j]).1,
                allowed,
            ) by {
                assert(targets_in(args[j], locals, globals));
                lemma_seq_calls_within(args[j], locals, globals);
            }
            let call = SeqExpV::ExternalCall {
                fun_name: fun_name,
                args: arg_vars(ann, args.len()),
                is_tail: is_tail,
                ann: (),
            };
            assert(calls_within(call, allowed));
            lemma_fold_lets_calls(pairs, 0, call, allowed);
        },
    }
}

/// What a lifted expression declares is declared inside its sequential form.
pub proof fn lemma_seq_labels(e: ExpV<u32>, x: Seq<char>)
    requires
        e.calls_classified(),
        e.prims_saturated(),
        declared(e).contains(x),
    ensures
        labels_in(seq_exp(e)).contains(x),
    decreases e,
{
    match e {
        ExpV::Num(..) | ExpV::Bool(..) | ExpV::Var(..) | ExpV::Call(..) => {},
        ExpV::Prim(p, es, t) => {
            let parts = operand_declared(es);
            lemma_part_of(parts, es.len() as int, x);
            let i = choose|i: int| 0 <= i < es.len() && (#[trigger] parts[i]).contains(x);
            lemma_seq_labels(es[i], x);
            if !p.unary() {
                let inner = SeqExpV::Prim(
                    p,
                    seq![
                        ImmExpV::Var(prim2_first_name(t)),
                        ImmExpV::Var(prim2_second_name(t)),
                    ],
                    (),
                );
                let middle = SeqExpV::Let {
                    var: prim2_second_name(t),
                    bound_exp: Box::new(seq_exp(es[1])),
                    body: Box::new(inner),
                    ann: (),
                };
                assert(labels_in(middle) == labels_in(seq_exp(es[1])).union(labels_in(inner)));
            }
        },
        ExpV::Let { bindings, body, .. } => {
            let parts = binding_declared(bindings);
            let pairs = seq_bindings(bindings);
            lemma_fold_lets_labels(pairs, 0, seq_exp(*body));
            let k = choose|k: int| 0 <= k < declared(e).len() && declared(e)[k] == x;
            if k < concat_all(parts).len() {
                assert(concat_all(parts)[k] == x);
                lemma_part_of(parts, bindings.len() as int, x);
                let i = choose|i: int| 0 <= i < bindings.len() && (#[trigger] parts[i]).contains(x);
                lemma_seq_labels(bindings[i].1, x);
                assert(labels_in(pairs[i].1).contains(x));
            } else {
                assert(declared(*body)[k - concat_all(parts).len()] == x);
                lemma_seq_labels(*body, x);
            }
        },
        ExpV::If { cond, thn, els, ann } => {
            let c = declared(*cond);
            let t = declared(*thn);
            let inner = SeqExpV::If {
                cond: ImmExpV::Var(if_name(ann)),
                thn: Box::new(seq_exp(*thn)),
                els: Box::new(seq_exp(*els)),
                ann: (),
            };
            assert(labels_in(inner) == labels_in(seq_exp(*thn)).union(labels_in(seq_exp(*els))));
            let k = choose|k: int| 0 <= k < declared(e).len() && declared(e)[k] == x;
            if k < c.len() {
                assert(c[k] == x);
                lemma_seq_labels(*cond, x);
            } else if k < c.len() + t.len() {
                assert(t[k - c.len()] == x);
                lemma_seq_labels(*thn, x);
            } else {
                assert(declared(*els)[k - c.len() - t.len()] == x);
                lemma_seq_labels(*els, x);
            }
        },
        ExpV::FunDefs { decls, body, .. } => {
            let parts = group_declared(decls);
            let out = seq_decls(decls);
            assert(group_names(out) =~= group_names(decls));
            let k = choose|k: int| 0 <= k < declared(e).len() && declared(e)[k] == x;
            if k < concat_all(parts).len() {
                assert(concat_all(parts)[k] == x);
                lemma_part_of(parts, decls.len() as int, x);
                let i = choose|i: int| 0 <= i < decls.len() && (#[trigger] parts[i]).contains(x);
                let j = choose|j: int| 0 <= j < parts[i].len() && parts[i][j] == x;
                if j == 0 {
                    assert(group_names(decls)[i] == x);
                } else {
                    assert(declared(decls[i].body)[j - 1] == x);
                    lemma_seq_labels(decls[i].body, x);
                    assert(decl_labels(out)[i].contains(x));
                    lemma_union_member(decl_labels(out), out.len() as int, i);
                }
            } else {
                assert(declared(*body)[k - concat_all(parts).len()] == x);
                lemma_seq_labels(*body, x);
            }
        },
        ExpV::InternalTailCall(f, args, t) => {
            let parts = operand_declared(args);
            let pairs = seq_args(args, t);
            lemma_part_of(parts, args.len() as int, x);
            let i = choose|i: int| 0 <= i < args.len() && (#[trigger] parts[i]).contains(x);
            lemma_seq_labels(args[i], x);
            lemma_fold_lets_labels(
                pairs,
                0,
                SeqExpV::InternalTailCall(f, arg_vars(t, args.len()), ()),
            );
            assert(labels_in(pairs[i].1).contains(x));
        },
        ExpV::ExternalCall { fun_name, args, is_tail, ann } => {
            let parts = operand_declared(args);
            let pairs = seq_args(args, ann);
            lemma_part_of(parts, args.len() as int, x);
            let i = choose|i: int| 0 <= i < args.len() && (#[trigger] parts[i]).contains(x);
            lemma_seq_labels(args[i], x);
            lemma_fold_lets_labels(
                pairs,
                0,
                SeqExpV::ExternalCall {
                    fun_name: fun_name,
                    args: arg_vars(ann, args.len()),
                    is_tail: is_tail,
                    ann: (),
                },
            );
            assert(labels_in(pairs[i].1).contains(x));
        },
    }
}

/// Tagging keeps what every call of a sequential expression names, and what the
/// expression declares.
pub proof fn lemma_tag_seq_calls<A>(e: SeqExpV<A>, t: nat, allowed: Set<Seq<char>>)
    ensures
        calls_within(e, allowed) ==> calls_within(tag_seq_spec(e, t), allowed),
        labels_in(tag_seq_spec(e, t)) == labels_in(e),
    decreases e,
{
    match e {
        SeqExpV::Let { bound_exp, body, .. } => {
            lemma_tag_seq_calls(*bound_exp, t + 1, allowed);
            lemma_tag_seq_calls(*body, t + 1 + seq_nodes(*bound_exp), allowed);
        },
        SeqExpV::If { thn, els, .. } => {
            lemma_tag_seq_calls(*thn, t + 1, allowed);
            lemma_tag_seq_calls(*els, t + 1 + seq_nodes(*thn), allowed);
        },
        SeqExpV::FunDefs { decls, body, .. } => {
            let out = tag_seq_decls(decls, t + 1);
            assert(group_names(out) =~= group_names(decls));
            assert forall|k: int| 0 <= k < out.len() implies decl_labels(out)[k] == decl_labels(
                decls,
            )[k] by {
                lemma_tag_seq_calls(decls[k].body, t + 1 + total(seq_decl_nodes(decls), k), allowed);
            }
            assert(decl_labels(out) =~= decl_labels(decls));
            if calls_within(e, allowed) {
                assert forall|k: int| 0 <= k < out.len() implies calls_within(
                    (#[trigger] out[k]).body,
                    allowed,
                ) by {
                    assert(calls_within(decls[k].body, allowed));
                    lemma_tag_seq_calls(
                        decls[k].body,
                        t + 1 + total(seq_decl_nodes(decls), k),
                        allowed,
                    );
                }
            }
            lemma_tag_seq_calls(
                *body,
                t + 1 + total(seq_decl_nodes(decls), decls.len() as int),
                allowed,
            );
        },
        _ => {},
    }
}

} // verus!
