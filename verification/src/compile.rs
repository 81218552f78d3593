//! The whole pipeline, from a surface program to the text of its x86-64 code.

use vstd::prelude::*;
pub use crate::check::{CompileErr, check_prog};
use crate::check::{first_error_prog, verdict, well_formed_prog};
use crate::codegen::{FRAME_LIMIT, compile_to_instrs, frame_fits, prog_code};
use crate::jumps::{
    calls_within, decl_labels, labels_in, lemma_calls_within_more, lemma_program_jumps,
    lemma_seq_calls_within, lemma_seq_labels, lemma_tag_declared, lemma_tag_seq_calls,
    lemma_tag_targets_in, no_dangling_jump, prog_names,
};
use crate::lift::{lambda_lift, lift_prog};
use crate::lift_laws::{lemma_lift_targets, local_labels, targets_in};
use crate::lift_proofs::lemma_lifted_closed;
use crate::limits::{
    reach_upto, slots_upto, take_decl_nodes, take_nodes, take_seq_decl_nodes, take_seq_nodes,
};
use crate::lists::{lemma_union_member, total};
use crate::names::names_of;
use crate::scope::{declared, lift_ready, lifted_prog_ok};
use crate::sequential::{seq_exp, seq_prog, seq_prog_spec};
use crate::sequential_proofs::lemma_program_ready;
use crate::syntax::{Exp, ExpV, FunDeclV, SeqExp, SeqProg, SeqProgV, group_names, seq_decls_view};
use crate::tag::{
    decl_nodes, lemma_lifted_ok_shape, lemma_tag_prims_saturated, lemma_tag_prog_ok,
    lemma_tag_well_formed, nodes, prog_nodes, seq_decl_nodes, sprog_nodes, tag_exp, tag_prog,
    tag_prog_spec, tag_spec, tag_sprog, tag_sprog_spec,
};
use crate::uniquify::{uniq_prog, uniquify};
use crate::uniquify_proofs::{lemma_renamed_ready, lemma_uniq_prims_saturated};
use crate::x86::{instrs_text, instrs_to_string};

verus! {

/// The program after renaming: tagged from 1, then every bound name made unique.
pub open spec fn renamed<S>(p: ExpV<S>) -> ExpV<()> {
    uniq_prog(tag_spec(p, 0))
}

/// The program after lifting, tagged anew: the top-level functions and the main
/// expression.
pub open spec fn lifted<S>(p: ExpV<S>) -> (Seq<FunDeclV<ExpV<u32>, u32>>, ExpV<u32>) {
    tag_prog_spec(lift_prog(renamed(p)).0, lift_prog(renamed(p)).1)
}

/// The program in sequential form, tagged anew.
pub open spec fn sequential<S>(p: ExpV<S>) -> SeqProgV<u32> {
    tag_sprog_spec(seq_prog_spec(lifted(p).0, lifted(p).1))
}

/// The lines with which the text of every program begins.
pub open spec fn prelude_text() -> Seq<char> {
    "section .text\n        global start_here\n        extern snake_error\n        extern print_snake_val\nstart_here:\n"@
}

/// The text of the code of the program `p`.
pub open spec fn program_text<S>(p: ExpV<S>) -> Seq<char> {
    prelude_text() + instrs_text(prog_code(sequential(p))) + "\n"@
}

/// Whether the program is small enough for the machine: at every stage its nodes can
/// be tagged with 32-bit numbers, and every frame can be addressed with 32-bit offsets.
pub open spec fn fits_machine<S>(p: ExpV<S>) -> bool {
    &&& nodes(p) <= u32::MAX
    &&& well_formed_prog(p) ==> {
        &&& prog_nodes(lift_prog(renamed(p)).0, lift_prog(renamed(p)).1) <= u32::MAX
        &&& 1 + sprog_nodes(seq_prog_spec(lifted(p).0, lifted(p).1)) <= u32::MAX
        &&& frame_fits(sequential(p).main, 0)
        &&& forall|k: int|
            0 <= k < sequential(p).funs.len() ==> frame_fits(
                (#[trigger] sequential(p).funs[k]).body,
                sequential(p).funs[k].parameters.len(),
            )
    }
}

/// Every well-formed program whose primitive operations have as many operands as
/// they take, and whose nodes can be tagged, goes through renaming and lifting:
/// after each pass, what the next pass needs holds, and the lifted program is closed.
pub proof fn lemma_pipeline<S>(p: ExpV<S>)
    requires
        p.prims_saturated(),
        well_formed_prog(p),
        nodes(p) <= u32::MAX,
    ensures
        well_formed_prog(tag_spec(p, 0)),
        lift_ready(renamed(p)),
        lifted_prog_ok(lift_prog(renamed(p)).0, lift_prog(renamed(p)).1),
        lifted_prog_ok(lifted(p).0, lifted(p).1),
        lifted(p).1.calls_classified(),
        lifted(p).1.prims_saturated(),
        forall|i: int|
            0 <= i < lifted(p).0.len() ==> (#[trigger] lifted(p).0[i]).body.calls_classified()
                && lifted(p).0[i].body.prims_saturated(),
{
    lemma_tag_well_formed(p, 0, Set::empty(), Map::empty());
    lemma_tag_prims_saturated(p, 0);
    lemma_renamed_ready(p);
    lemma_uniq_prims_saturated(tag_spec(p, 0), Map::empty(), Map::empty());
    lemma_lifted_closed(renamed(p));
    lemma_tag_prog_ok(lift_prog(renamed(p)).0, lift_prog(renamed(p)).1);
    let funs = lifted(p).0;
    lemma_lifted_ok_shape(lifted(p).1, Set::empty());
    assert forall|i: int| 0 <= i < funs.len() implies (#[trigger] funs[i]).body.calls_classified()
        && funs[i].body.prims_saturated() by {
        lemma_lifted_ok_shape(funs[i].body, funs[i].parameters.to_set());
    }
}

/// In the code of every well-formed program, every jump and call goes to a label of
/// the code or to one of the two functions of the runtime.
pub proof fn lemma_compiled_jumps_resolve<S>(p: ExpV<S>)
    requires
        p.prims_saturated(),
        well_formed_prog(p),
        nodes(p) <= u32::MAX,
    ensures
        no_dangling_jump(prog_code(sequential(p))),
{
    lemma_pipeline(p);
    let q = renamed(p);
    lemma_lift_targets(q);
    let ds0 = lift_prog(q).0;
    let m0 = lift_prog(q).1;
    let locals = local_labels(ds0, m0);
    let globals = group_names(ds0).to_set();
    let allowed = locals.union(globals);
    let ds1 = lifted(p).0;
    let m1 = lifted(p).1;
    let sizes = decl_nodes(ds0);
    let sp = seq_prog_spec(ds1, m1);
    let out = sequential(p);
    let seq_sizes = seq_decl_nodes(sp.funs);
    // The main expression.
    let t_main = total(sizes, ds0.len() as int);
    let s_main = 1 + total(seq_sizes, sp.funs.len() as int);
    lemma_tag_targets_in(m0, t_main, locals, globals);
    lemma_tag_declared(m0, t_main);
    lemma_seq_calls_within(m1, locals, globals);
    lemma_tag_seq_calls(sp.main, s_main, allowed);
    // The top-level functions.
    assert(group_names(out.funs) =~= group_names(ds0));
    assert forall|k: int| 0 <= k < out.funs.len() implies calls_within(
        (#[trigger] out.funs[k]).body,
        allowed,
    ) && labels_in(out.funs[k].body) == labels_in(seq_exp(ds1[k].body)) by {
        assert(targets_in(ds0[k].body, locals, globals));
        lemma_tag_targets_in(ds0[k].body, total(sizes, k), locals, globals);
        lemma_tag_declared(ds0[k].body, total(sizes, k));
        lemma_seq_calls_within(ds1[k].body, locals, globals);
        lemma_tag_seq_calls(sp.funs[k].body, 1 + total(seq_sizes, k), allowed);
    }
    assert(allowed.subset_of(prog_names(out))) by {
        assert forall|x: Seq<char>| allowed.contains(x) implies prog_names(out).contains(x) by {
            if globals.contains(x) {
            } else if declared(m0).contains(x) {
                lemma_seq_labels(m1, x);
            } else {
                let k = choose|k: int|
                    0 <= k < ds0.len() && declared(#[trigger] ds0[k].body).contains(x);
                lemma_tag_declared(ds0[k].body, total(sizes, k));
                assert(declared(ds1[k].body).contains(x));
                lemma_seq_labels(ds1[k].body, x);
                lemma_tag_seq_calls(sp.funs[k].body, 1 + total(seq_sizes, k), allowed);
                assert(decl_labels(out.funs)[k].contains(x));
                lemma_union_member(decl_labels(out.funs), out.funs.len() as int, k);
            }
        }
    }
    lemma_calls_within_more(out.main, allowed, prog_names(out));
    assert forall|k: int| 0 <= k < out.funs.len() implies calls_within(
        (#[trigger] out.funs[k]).body,
        prog_names(out),
    ) by {
        lemma_calls_within_more(out.funs[k].body, allowed, prog_names(out));
    }
    lemma_program_jumps(out);
}

fn frame_fits_here(e: &SeqExp<u32>, n: usize) -> (b: bool)
    ensures
        b == frame_fits(e@, n as nat),
{
    if n > FRAME_LIMIT {
        return false;
    }
    let room: u64 = (FRAME_LIMIT - n) as u64;
    slots_upto(e, room + 1) <= room && reach_upto(e, room + 1) <= room
}

fn frames_fit(p: &SeqProg<u32>) -> (b: bool)
    ensures
        b == (frame_fits(p@.main, 0) && forall|k: int|
            0 <= k < p@.funs.len() ==> frame_fits(
                (#[trigger] p@.funs[k]).body,
                p@.funs[k].parameters.len(),
            )),
{
    if !frame_fits_here(&p.main, 0) {
        return false;
    }
    let ghost funs = p@.funs;
    let mut k: usize = 0;
    while k < p.funs.len()
        invariant
            k <= p.funs.len(),
            funs == seq_decls_view(p.funs@),
            forall|j: int|
                0 <= j < k ==> frame_fits((#[trigger] funs[j]).body, funs[j].parameters.len()),
        decreases p.funs.len() - k,
    {
        let fun = &p.funs[k];
        assert(funs[k as int].body == fun.body@);
        assert(funs[k as int].parameters == names_of(fun.parameters@));
        if !frame_fits_here(&fun.body, fun.parameters.len()) {
            assert(!frame_fits(p@.funs[k as int].body, p@.funs[k as int].parameters.len()));
            return false;
        }
        k += 1;
    }
    true
}

/// Compiles the program `p` to the text of its code, or reports the first error where
/// `p` is not well formed; returns `None` where `p` is too large for the machine.
pub fn try_compile_to_string<Span1: Clone>(p: &Exp<Span1>) -> (r: Option<
    Result<String, CompileErr<Span1>>,
>)
    requires
        p@.is_surface(),
        p@.prims_saturated(),
    ensures
        r is Some <==> fits_machine(p@),
        r is Some ==> verdict(r->0, first_error_prog(p@)),
        r is Some ==> (r->0 is Ok <==> well_formed_prog(p@)),
        r is Some && r->0 is Ok ==> r->0->Ok_0@ == program_text(p@),
{
    if take_nodes(p, 0xFFFF_FFFF).is_none() {
        return None;
    }
    match check_prog(p) {
        Err(e) => {
            return Some(Err(e));
        },
        Ok(_) => {},
    }
    proof {
        lemma_pipeline(p@);
    }
    let mut tag: u32 = 0;
    let tagged = tag_exp(p, &mut tag);
    let uniq_p = uniquify(&tagged);
    let (defs, main) = lambda_lift(&uniq_p);
    match take_decl_nodes(&defs, 0xFFFF_FFFF) {
        None => {
            return None;
        },
        Some(left) => {
            if take_nodes(&main, left).is_none() {
                return None;
            }
        },
    }
    let (t_defs, t_main) = tag_prog(&defs, &main);
    let plain = seq_prog(&t_defs, &t_main);
    match take_seq_decl_nodes(&plain.funs, 0xFFFF_FFFE) {
        None => {
            return None;
        },
        Some(left) => {
            if take_seq_nodes(&plain.main, left).is_none() {
                return None;
            }
        },
    }
    let seq_p = tag_sprog(&plain);
    if !frames_fit(&seq_p) {
        return None;
    }
    proof {
        lemma_program_ready(lifted(p@).0, lifted(p@).1);
    }
    let instrs = compile_to_instrs(&seq_p);
    let body: String = instrs_to_string(&instrs);
    let mut out: String = String::from_str(
        "section .text\n        global start_here\n        extern snake_error\n        extern print_snake_val\nstart_here:\n",
    );
    out.append(body.as_str());
    out.append("\n");
    Some(Ok(out))
}

/// Compiles the program `p` to the text of its code, or reports the first error where
/// `p` is not well formed.
pub fn compile_to_string<Span1: Clone>(p: &Exp<Span1>) -> (r: Result<String, CompileErr<Span1>>)
    requires
        p@.is_surface(),
        p@.prims_saturated(),
        fits_machine(p@),
    ensures
        verdict(r, first_error_prog(p@)),
        r is Ok <==> well_formed_prog(p@),
        r is Ok ==> r->Ok_0@ == program_text(p@),
{
    try_compile_to_string(p).unwrap()
}

} // verus!
