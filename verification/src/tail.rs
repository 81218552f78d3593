//! Programs whose functions stay inside the code of the function that declares
//! them: the meaning of tail calls, and the law that the code of an expression in
//! tail position returns with the value of the expression in `rax`, or traps with
//! its error.

use vstd::prelude::*;
use crate::calls::{bound_args, call_head, lemma_tail_call_binds, lemma_tail_call_runs};
use crate::codegen::{
    FRAME_LIMIT, IF_ERROR, code_ready, decl_codes, done_label, else_label, entry_frame, exp_code,
    imm_bound, reach, slot_offset, store,
};
use crate::control::{
    branch, embedded, ending, exec, if_head, is_plain, label_index, labels_unique,
    lemma_code_goes_on, lemma_embedded_add, lemma_exec_jump, lemma_exec_label, lemma_exec_stretch,
    lemma_if_head_runs, lemma_if_layout, lemma_label_found, lemma_labels_not_trap,
};
use crate::lists::{concat_all, concat_upto, every};
use crate::machine::{
    Machine, Res, Run, Val, eval, fresh_lets, imm_in_range, imm_val, lemma_bind_slot, lemma_run_end,
    lemma_step_done, lits_in_range, packed, run, slots_hold, step, val_bits, val_ok,
};
use crate::syntax::{FunDeclV, Prim, SeqExpV};
use crate::text::decimal;
use crate::x86::{InstrV, Reg};

verus! {

/// The functions in scope once the first `n` declarations of a group were added to
/// `funs`.
pub open spec fn with_decls(
    funs: Map<Seq<char>, FunDeclV<SeqExpV<u32>, u32>>,
    ds: Seq<FunDeclV<SeqExpV<u32>, u32>>,
    n: int,
) -> Map<Seq<char>, FunDeclV<SeqExpV<u32>, u32>>
    decreases n,
{
    if n <= 0 || n > ds.len() {
        funs
    } else {
        with_decls(funs, ds, n - 1).insert(ds[n - 1].name, ds[n - 1])
    }
}

/// What a sequential expression with local functions comes to where the variables
/// have the values `venv` and `funs` holds the functions in scope, with at most
/// `fuel` calls. A call binds the parameters of the function to the values of the
/// arguments and goes on with the body of the function, which reads its parameters
/// alone. Printing and calls of top-level functions are not covered, nor a run of
/// more than `fuel` calls.
pub open spec fn eval_calls(
    e: SeqExpV<u32>,
    venv: Map<Seq<char>, Val>,
    funs: Map<Seq<char>, FunDeclV<SeqExpV<u32>, u32>>,
    fuel: nat,
) -> Res
    decreases fuel, e,
{
    match e {
        SeqExpV::Let { var, bound_exp, body, .. } => match eval(*bound_exp, venv) {
            Res::Value(v) => eval_calls(*body, venv.insert(var, v), funs, fuel),
            other => other,
        },
        SeqExpV::If { cond, thn, els, .. } => match imm_val(cond, venv) {
            Val::Num(_) => Res::Error(IF_ERROR, val_bits(imm_val(cond, venv))),
            Val::Bool(true) => eval_calls(*thn, venv, funs, fuel),
            Val::Bool(false) => eval_calls(*els, venv, funs, fuel),
        },
        SeqExpV::FunDefs { decls, body, .. } => eval_calls(
            *body,
            venv,
            with_decls(funs, decls, decls.len() as int),
            fuel,
        ),
        SeqExpV::InternalTailCall(f, args, _) => if fuel > 0 && funs.contains_key(f)
            && funs[f].parameters.len() == args.len() {
            eval_calls(
                funs[f].body,
                bound_args(funs[f].parameters, args, venv, args.len() as int),
                funs,
                (fuel - 1) as nat,
            )
        } else {
            Res::Unsupported
        },
        SeqExpV::ExternalCall { .. } => Res::Unsupported,
        _ => eval(e, venv),
    }
}

/// Whether the code of `e`, which stands in tail position where the variables `vars`
/// lie in the first `n` slots of a frame of `space` bytes, can be run on the model:
/// its numbers are in range, its variables bound and new where they are bound, its
/// frame holds what it binds and what its calls hand over, and the same holds of
/// its local functions, each in a frame with its parameters alone.
pub open spec fn tail_ready(e: SeqExpV<u32>, vars: Set<Seq<char>>, n: nat, space: i32) -> bool
    decreases e,
{
    match e {
        SeqExpV::Let { var, bound_exp, body, .. } => {
            &&& lits_in_range(*bound_exp)
            &&& code_ready(*bound_exp, vars)
            &&& fresh_lets(*bound_exp, vars)
            &&& n + reach(*bound_exp) <= FRAME_LIMIT
            &&& n < FRAME_LIMIT
            &&& !vars.contains(var)
            &&& tail_ready(*body, vars.insert(var), n + 1, space)
        },
        SeqExpV::If { cond, thn, els, .. } => {
            &&& imm_in_range(cond)
            &&& imm_bound(cond, vars)
            &&& tail_ready(*thn, vars, n, space)
            &&& tail_ready(*els, vars, n, space)
        },
        SeqExpV::FunDefs { decls, body, .. } => {
            &&& forall|k: int|
                0 <= k < decls.len() ==> (#[trigger] decls[k]).parameters.no_duplicates()
                    && decls[k].name != "snake_err"@ && tail_ready(
                    decls[k].body,
                    decls[k].parameters.to_set(),
                    decls[k].parameters.len(),
                    space,
                )
            &&& tail_ready(*body, vars, n, space)
        },
        SeqExpV::InternalTailCall(_, args, _) => {
            &&& forall|k: int|
                0 <= k < args.len() ==> imm_bound(#[trigger] args[k], vars) && imm_in_range(
                    args[k],
                )
            &&& args.len() <= FRAME_LIMIT
            &&& 8 * n <= space + 8
            &&& 8 * args.len() <= space + 8
        },
        SeqExpV::ExternalCall { .. } => false,
        _ => lits_in_range(e) && code_ready(e, vars) && n <= FRAME_LIMIT,
    }
}

/// Whether the declaration `d` stands in `code` at the place `at`: its label, the
/// code of its body in a frame with its parameters, and a return.
pub open spec fn laid_at(
    code: Seq<InstrV>,
    at: int,
    d: FunDeclV<SeqExpV<u32>, u32>,
    space: i32,
) -> bool {
    let body = exp_code(d.body, entry_frame(d.parameters, d.parameters.len() as int), space);
    &&& 0 <= at
    &&& at + 1 + body.len() < code.len()
    &&& code[at] == InstrV::Label(d.name)
    &&& embedded(code, at + 1, body)
    &&& code[at + 1 + body.len()] == InstrV::Ret
}

/// Whether every function of `funs` stands in `code` under its name and can be run
/// on the model in a frame of `space` bytes.
pub open spec fn funs_ready(
    code: Seq<InstrV>,
    funs: Map<Seq<char>, FunDeclV<SeqExpV<u32>, u32>>,
    space: i32,
) -> bool {
    forall|f: Seq<char>| #[trigger]
        funs.contains_key(f) ==> {
            &&& funs[f].name == f
            &&& f != "snake_err"@
            &&& funs[f].parameters.no_duplicates()
            &&& tail_ready(funs[f].body, funs[f].parameters.to_set(), funs[f].parameters.len(), space)
            &&& exists|at: int| #[trigger] laid_at(code, at, funs[f], space)
        }
}

/// Whether the run returns from the place `q` of `code` within `k` steps without
/// doing anything else: through labels and jumps alone.
pub open spec fn reaches_ret(code: Seq<InstrV>, q: int, k: nat) -> bool
    decreases k,
{
    &&& 0 <= q < code.len()
    &&& (code[q] == InstrV::Ret || (k > 0 && match code[q] {
        InstrV::Label(_) => reaches_ret(code, q + 1, (k - 1) as nat),
        InstrV::Jmp(l) => l != "snake_err"@ && code.contains(InstrV::Label(l)) && reaches_ret(
            code,
            label_index(code, l),
            (k - 1) as nat,
        ),
        _ => false,
    }))
}

/// Whether the run of `code` from the place `pc` and the machine `m`, with `steps`
/// steps, ends as the result `r` says: returned, in the machine `last`, with the
/// bits of the value in `rax`, or in the trap with the code and the bits of the
/// error. Where the meaning does not cover the expression, nothing is said.
pub open spec fn ends(
    code: Seq<InstrV>,
    pc: int,
    m: Machine,
    steps: nat,
    r: Res,
    last: Machine,
) -> bool {
    match r {
        Res::Value(v) => val_ok(v) && last.regs[Reg::Rax] == val_bits(v) && exec(
            code,
            pc,
            m,
            steps,
        ) == Run::Done(last),
        Res::Error(c, bits) => exec(code, pc, m, steps) == Run::Trap(c, bits),
        Res::Unsupported => true,
    }
}

/// A run that returns or traps does the same with more steps.
pub proof fn lemma_exec_more(code: Seq<InstrV>, pc: int, m: Machine, steps: nat, more: nat)
    requires
        exec(code, pc, m, steps) is Done || exec(code, pc, m, steps) is Trap,
        more >= steps,
    ensures
        exec(code, pc, m, more) == exec(code, pc, m, steps),
    decreases steps,
{
    if 0 <= pc < code.len() && steps > 0 {
        match branch(code[pc], m) {
            Some((l, taken)) => {
                if !taken {
                    lemma_exec_more(code, pc + 1, m, (steps - 1) as nat, (more - 1) as nat);
                } else if l != "snake_err"@ && code.contains(InstrV::Label(l)) {
                    lemma_exec_more(
                        code,
                        label_index(code, l),
                        m,
                        (steps - 1) as nat,
                        (more - 1) as nat,
                    );
                }
            },
            None => {
                if code[pc] is Label {
                    lemma_exec_more(code, pc + 1, m, (steps - 1) as nat, (more - 1) as nat);
                } else if code[pc] != InstrV::Ret {
                    match step(code[pc], m) {
                        Run::Done(next) => {
                            lemma_exec_more(
                                code,
                                pc + 1,
                                next,
                                (steps - 1) as nat,
                                (more - 1) as nat,
                            );
                        },
                        _ => {},
                    }
                }
            },
        }
    }
}

/// Where the run returns from a place through labels and jumps alone, it is done
/// there, in the machine that it came with.
pub proof fn lemma_ret_reached(code: Seq<InstrV>, q: int, k: nat, m: Machine, steps: nat)
    requires
        reaches_ret(code, q, k),
        steps > k,
    ensures
        exec(code, q, m, steps) == Run::Done(m),
    decreases k,
{
    if code[q] != InstrV::Ret {
        match code[q] {
            InstrV::Label(_) => {
                lemma_ret_reached(code, q + 1, (k - 1) as nat, m, (steps - 1) as nat);
            },
            InstrV::Jmp(l) => {
                lemma_ret_reached(
                    code,
                    label_index(code, l),
                    (k - 1) as nat,
                    m,
                    (steps - 1) as nat,
                );
            },
            _ => {},
        }
    }
}

/// The frame of a function at its entry holds exactly its parameters, in its first
/// slots.
pub proof fn lemma_entry_frame(params: Seq<Seq<char>>, n: int)
    requires
        params.no_duplicates(),
        0 <= n <= params.len(),
    ensures
        entry_frame(params, n).dom() =~= params.take(n).to_set(),
        entry_frame(params, n).dom().finite(),
        entry_frame(params, n).len() == n,
        packed(entry_frame(params, n)),
    decreases n,
{
    let frame = entry_frame(params, n);
    if n > 0 {
        lemma_entry_frame(params, n - 1);
        let before = entry_frame(params, n - 1);
        let x = params[n - 1];
        assert(params.take(n) =~= params.take(n - 1).push(x));
        params.take(n - 1).lemma_push_to_set_commute(x);
        assert(!before.contains_key(x)) by {
            let earlier = params.take(n - 1);
            if earlier.contains(x) {
                let k = choose|k: int| 0 <= k < earlier.len() && earlier[k] == x;
                assert(params[k] == params[n - 1]);
            }
        }
        assert(frame.dom() =~= before.dom().insert(x));
        assert forall|y: Seq<char>| #[trigger] frame.contains_key(y) implies exists|k: nat|
            k < frame.len() && frame[y] == #[trigger] slot_offset(k) by {
            if y == x {
                let last = (n - 1) as nat;
                assert(last < frame.len() && frame[y] == slot_offset(last));
            } else {
                let k = choose|k: nat| k < before.len() && before[y] == #[trigger] slot_offset(k);
                assert(k < frame.len() && frame[y] == slot_offset(k));
            }
        }
    } else {
        assert(params.take(0) =~= Seq::<Seq<char>>::empty());
    }
}

/// A function in scope under a group is one of the group or was in scope before.
pub proof fn lemma_with_decls(
    funs: Map<Seq<char>, FunDeclV<SeqExpV<u32>, u32>>,
    ds: Seq<FunDeclV<SeqExpV<u32>, u32>>,
    n: int,
    f: Seq<char>,
)
    requires
        0 <= n <= ds.len(),
        with_decls(funs, ds, n).contains_key(f),
    ensures
        (exists|k: int| 0 <= k < n && with_decls(funs, ds, n)[f] == #[trigger] ds[k] && ds[k].name
            == f) || (funs.contains_key(f) && with_decls(funs, ds, n)[f] == funs[f]),
    decreases n,
{
    if n > 0 {
        if f == ds[n - 1].name {
            assert(with_decls(funs, ds, n)[f] == ds[n - 1]);
        } else {
            lemma_with_decls(funs, ds, n - 1, f);
            if exists|k: int|
                0 <= k < n - 1 && with_decls(funs, ds, n - 1)[f] == #[trigger] ds[k] && ds[k].name
                    == f {
                let k = choose|k: int|
                    0 <= k < n - 1 && with_decls(funs, ds, n - 1)[f] == #[trigger] ds[k]
                        && ds[k].name == f;
                assert(0 <= k < n && with_decls(funs, ds, n)[f] == ds[k] && ds[k].name == f);
            }
        }
    }
}

/// A part of pieces of code that stand in code one after the other stands in it
/// behind the parts before it.
pub proof fn lemma_part_embedded(
    code: Seq<InstrV>,
    pc: int,
    parts: Seq<Seq<InstrV>>,
    n: int,
    k: int,
)
    requires
        0 <= k < n <= parts.len(),
        embedded(code, pc, concat_upto(parts, n)),
    ensures
        embedded(code, pc + concat_upto(parts, k).len(), parts[k]),
    decreases n,
{
    lemma_embedded_add(code, pc, concat_upto(parts, n - 1), parts[n - 1]);
    if k < n - 1 {
        lemma_part_embedded(code, pc, parts, n - 1, k);
    }
}

/// The code of an expression in tail position, inside code that holds the functions
/// in scope, returns with the value of the expression in `rax`, or traps with its
/// error: the variables lie in the frame as `env` says and hold the values `venv`,
/// and behind the code of the expression the run returns through labels and jumps
/// alone. The result gives the machine at the return and a number of steps that
/// is enough.
pub proof fn lemma_tail_runs(
    code: Seq<InstrV>,
    pc: int,
    e: SeqExpV<u32>,
    env: Map<Seq<char>, i32>,
    venv: Map<Seq<char>, Val>,
    funs: Map<Seq<char>, FunDeclV<SeqExpV<u32>, u32>>,
    space: i32,
    m: Machine,
    fuel: nat,
    k: nat,
) -> (out: (Machine, nat))
    requires
        embedded(code, pc, exp_code(e, env, space)),
        labels_unique(code),
        reaches_ret(code, pc + exp_code(e, env, space).len(), k),
        0 <= space <= 8 * (FRAME_LIMIT + 1),
        tail_ready(e, env.dom(), env.len(), space),
        packed(env),
        slots_hold(env, venv, m),
        funs_ready(code, funs, space),
    ensures
        ends(code, pc, m, out.1, eval_calls(e, venv, funs, fuel), out.0),
    decreases fuel, e, 1nat,
{
    match e {
        SeqExpV::Let { .. } => lemma_tail_let(code, pc, e, env, venv, funs, space, m, fuel, k),
        SeqExpV::If { .. } => lemma_tail_if(code, pc, e, env, venv, funs, space, m, fuel, k),
        SeqExpV::FunDefs { .. } => lemma_tail_group(code, pc, e, env, venv, funs, space, m, fuel, k),
        SeqExpV::InternalTailCall(..) => lemma_tail_call(
            code,
            pc,
            e,
            env,
            venv,
            funs,
            space,
            m,
            fuel,
            k,
        ),
        SeqExpV::ExternalCall { .. } => (m, 0),
        _ => {
            let len = exp_code(e, env, space).len();
            let steps = len + k + 1;
            let end = lemma_code_goes_on(code, pc, e, env, venv, space, m, steps);
            match eval(e, venv) {
                Res::Value(_) => {
                    lemma_ret_reached(code, pc + len, k, end.0, (steps - end.1) as nat);
                    (end.0, steps)
                },
                _ => (m, steps),
            }
        },
    }
}

/// `lemma_tail_runs` for a `Let`.
pub proof fn lemma_tail_let(
    code: Seq<InstrV>,
    pc: int,
    e: SeqExpV<u32>,
    env: Map<Seq<char>, i32>,
    venv: Map<Seq<char>, Val>,
    funs: Map<Seq<char>, FunDeclV<SeqExpV<u32>, u32>>,
    space: i32,
    m: Machine,
    fuel: nat,
    k: nat,
) -> (out: (Machine, nat))
    requires
        e is Let,
        embedded(code, pc, exp_code(e, env, space)),
        labels_unique(code),
        reaches_ret(code, pc + exp_code(e, env, space).len(), k),
        0 <= space <= 8 * (FRAME_LIMIT + 1),
        tail_ready(e, env.dom(), env.len(), space),
        packed(env),
        slots_hold(env, venv, m),
        funs_ready(code, funs, space),
    ensures
        ends(code, pc, m, out.1, eval_calls(e, venv, funs, fuel), out.0),
    decreases fuel, e, 0nat,
{
    let var = e->Let_var;
    let bound_exp = e->Let_bound_exp;
    let body = e->Let_body;
    let part = exp_code(e, env, space);
    let off = slot_offset(env.len());
    let env2 = env.insert(var, off);
    let a = exp_code(*bound_exp, env, space);
    let b = seq![InstrV::Comment("Let var: "@ + var), store(off as int)];
    let c = exp_code(*body, env2, space);
    assert(part == a + b + c);
    lemma_embedded_add(code, pc, a + b, c);
    lemma_embedded_add(code, pc, a, b);
    let probe = lemma_code_goes_on(code, pc, *bound_exp, env, venv, space, m, a.len());
    match eval(*bound_exp, venv) {
        Res::Value(v) => {
            let first = ending(*bound_exp, env, venv, space, m);
            let m1 = first.0;
            let m2 = Machine { slots: m1.slots.insert(off as int, val_bits(v)), ..m1 };
            let venv2 = venv.insert(var, v);
            lemma_bind_slot(env, venv, var, v, m1);
            assert(env2.dom() =~= env.dom().insert(var));
            let at_body = pc + a.len() + 2;
            let rest = lemma_tail_runs(code, at_body, *body, env2, venv2, funs, space, m2, fuel, k);
            let steps = a.len() + 2 + rest.1;
            let again = lemma_code_goes_on(code, pc, *bound_exp, env, venv, space, m, steps);
            let left = (steps - first.1) as nat;
            assert(step(b[0], m1) == Run::Done(m1));
            assert(step(b[1], m1) == Run::Done(m2));
            lemma_step_done(b, 0, m1, m1);
            lemma_step_done(b, 1, m1, m2);
            lemma_run_end(b, m2);
            assert(every(b, is_plain()));
            lemma_exec_stretch(code, pc + a.len(), b, 0, m1, left);
            assert(exec(code, pc, m, steps) == exec(code, at_body, m2, (left - 2) as nat));
            match eval_calls(*body, venv2, funs, fuel) {
                Res::Unsupported => {},
                _ => {
                    lemma_exec_more(code, at_body, m2, rest.1, (left - 2) as nat);
                },
            }
            (rest.0, steps)
        },
        _ => (m, a.len()),
    }
}

/// Behind the first branch of an `If` in tail position, and behind the second, the
/// run returns through labels and jumps alone.
pub proof fn lemma_if_returns(
    code: Seq<InstrV>,
    at_middle: int,
    at_last: int,
    ann: u32,
    k: nat,
)
    requires
        labels_unique(code),
        0 <= at_middle < code.len(),
        0 <= at_last < code.len(),
        code[at_middle] == InstrV::Jmp(done_label(ann)),
        code[at_last] == InstrV::Label(done_label(ann)),
        reaches_ret(code, at_last + 1, k),
    ensures
        reaches_ret(code, at_last, k + 1),
        reaches_ret(code, at_middle, k + 2),
{
    lemma_labels_not_trap(Prim::Eq, ann);
    lemma_label_found(code, at_last, done_label(ann));
    assert(reaches_ret(code, at_last, k + 1));
}

/// `lemma_tail_runs` for an `If`.
pub proof fn lemma_tail_if(
    code: Seq<InstrV>,
    pc: int,
    e: SeqExpV<u32>,
    env: Map<Seq<char>, i32>,
    venv: Map<Seq<char>, Val>,
    funs: Map<Seq<char>, FunDeclV<SeqExpV<u32>, u32>>,
    space: i32,
    m: Machine,
    fuel: nat,
    k: nat,
) -> (out: (Machine, nat))
    requires
        e is If,
        embedded(code, pc, exp_code(e, env, space)),
        labels_unique(code),
        reaches_ret(code, pc + exp_code(e, env, space).len(), k),
        0 <= space <= 8 * (FRAME_LIMIT + 1),
        tail_ready(e, env.dom(), env.len(), space),
        packed(env),
        slots_hold(env, venv, m),
        funs_ready(code, funs, space),
    ensures
        ends(code, pc, m, out.1, eval_calls(e, venv, funs, fuel), out.0),
    decreases fuel, e, 0nat,
{
    let cond = e->If_cond;
    let thn = e->If_thn;
    let els = e->If_els;
    let ann = e->If_ann;
    let head = if_head(cond, env);
    let a = exp_code(*thn, env, space);
    let b = exp_code(*els, env, space);
    lemma_if_layout(code, pc, e, env, space);
    lemma_if_head_runs(cond, env, venv, m);
    let at_jump = pc + 10;
    let at_thn = at_jump + 1;
    let at_middle = at_thn + a.len();
    let at_els = at_middle + 2;
    let at_last = at_els + b.len();
    lemma_labels_not_trap(Prim::Eq, ann);
    lemma_if_returns(code, at_middle, at_last, ann, k);
    match imm_val(cond, venv) {
        Val::Num(_) => {
            lemma_exec_stretch(code, pc, head, 0, m, 10);
            (m, 10)
        },
        Val::Bool(c) => {
            let m1 = run(head, m)->Done_0;
            assert(slots_hold(env, venv, m1));
            if c {
                let rest = lemma_tail_runs(code, at_thn, *thn, env, venv, funs, space, m1, fuel, k + 2);
                let steps = 11 + rest.1;
                lemma_exec_stretch(code, pc, head, 0, m, steps);
                lemma_exec_jump(
                    code,
                    at_jump,
                    else_label(ann),
                    false,
                    at_middle + 1,
                    m1,
                    (steps - 10) as nat,
                );
                assert(exec(code, pc, m, steps) == exec(code, at_thn, m1, rest.1));
                (rest.0, steps)
            } else {
                let rest = lemma_tail_runs(code, at_els, *els, env, venv, funs, space, m1, fuel, k + 1);
                let steps = 12 + rest.1;
                lemma_exec_stretch(code, pc, head, 0, m, steps);
                lemma_exec_jump(
                    code,
                    at_jump,
                    else_label(ann),
                    true,
                    at_middle + 1,
                    m1,
                    (steps - 10) as nat,
                );
                lemma_exec_label(code, at_middle + 1, m1, (steps - 11) as nat);
                assert(exec(code, pc, m, steps) == exec(code, at_els, m1, rest.1));
                (rest.0, steps)
            }
        },
    }
}

/// The functions in scope under a group stand in the code that holds the group.
pub proof fn lemma_group_ready(
    code: Seq<InstrV>,
    pc: int,
    e: SeqExpV<u32>,
    env: Map<Seq<char>, i32>,
    funs: Map<Seq<char>, FunDeclV<SeqExpV<u32>, u32>>,
    space: i32,
)
    requires
        e is FunDefs,
        embedded(code, pc, exp_code(e, env, space)),
        tail_ready(e, env.dom(), env.len(), space),
        funs_ready(code, funs, space),
    ensures
        funs_ready(code, with_decls(funs, e->FunDefs_decls, e->FunDefs_decls.len() as int), space),
        embedded(code, pc + 1, exp_code(*e->FunDefs_body, env, space)),
        pc + 1 + exp_code(*e->FunDefs_body, env, space).len() < code.len(),
        code[pc + 1 + exp_code(*e->FunDefs_body, env, space).len()] == InstrV::Ret,
        0 <= pc < code.len(),
        code[pc] is Comment,
{
    let decls = e->FunDefs_decls;
    let body = e->FunDefs_body;
    let ann = e->FunDefs_ann;
    let n = decls.len() as int;
    let part = exp_code(e, env, space);
    let first = seq![InstrV::Comment("FunDefs"@ + decimal(ann as nat) + "_body"@)];
    let b = exp_code(*body, env, space);
    let middle = seq![
        InstrV::Ret,
        InstrV::Comment("FunDefs"@ + decimal(ann as nat) + "_decls"@),
    ];
    let parts = decl_codes(decls, space);
    let all = concat_all(parts);
    assert(part == first + b + middle + all);
    lemma_embedded_add(code, pc, first + b + middle, all);
    lemma_embedded_add(code, pc, first + b, middle);
    lemma_embedded_add(code, pc, first, b);
    assert(code[pc + 0] == first[0]);
    let at_middle = pc + 1 + b.len();
    assert(code[at_middle + 0] == middle[0]);
    let at_decls = at_middle + 2;
    let funs2 = with_decls(funs, decls, n);
    assert forall|f: Seq<char>| #[trigger] funs2.contains_key(f) implies funs2[f].name == f && f
        != "snake_err"@ && funs2[f].parameters.no_duplicates() && tail_ready(
        funs2[f].body,
        funs2[f].parameters.to_set(),
        funs2[f].parameters.len(),
        space,
    ) && exists|at: int| #[trigger] laid_at(code, at, funs2[f], space) by {
        lemma_with_decls(funs, decls, n, f);
        if exists|j: int| 0 <= j < n && funs2[f] == #[trigger] decls[j] && decls[j].name == f {
            let j = choose|j: int| 0 <= j < n && funs2[f] == #[trigger] decls[j] && decls[j].name == f;
            let d = decls[j];
            lemma_part_embedded(code, at_decls, parts, n, j);
            let at = at_decls + concat_upto(parts, j).len();
            let inner = exp_code(d.body, entry_frame(d.parameters, d.parameters.len() as int), space);
            let head = seq![InstrV::Label(d.name)];
            let last = seq![InstrV::Ret];
            assert(parts[j] == head + inner + last);
            lemma_embedded_add(code, at, head + inner, last);
            lemma_embedded_add(code, at, head, inner);
            assert(code[at + 0] == head[0]);
            assert(code[at + 1 + inner.len() + 0] == last[0]);
            assert(laid_at(code, at, d, space));
        } else {
            assert(funs.contains_key(f));
            let at = choose|at: int| #[trigger] laid_at(code, at, funs[f], space);
            assert(laid_at(code, at, funs2[f], space));
        }
    }
}

/// `lemma_tail_runs` for a group of functions.
pub proof fn lemma_tail_group(
    code: Seq<InstrV>,
    pc: int,
    e: SeqExpV<u32>,
    env: Map<Seq<char>, i32>,
    venv: Map<Seq<char>, Val>,
    funs: Map<Seq<char>, FunDeclV<SeqExpV<u32>, u32>>,
    space: i32,
    m: Machine,
    fuel: nat,
    k: nat,
) -> (out: (Machine, nat))
    requires
        e is FunDefs,
        embedded(code, pc, exp_code(e, env, space)),
        labels_unique(code),
        0 <= space <= 8 * (FRAME_LIMIT + 1),
        tail_ready(e, env.dom(), env.len(), space),
        packed(env),
        slots_hold(env, venv, m),
        funs_ready(code, funs, space),
    ensures
        ends(code, pc, m, out.1, eval_calls(e, venv, funs, fuel), out.0),
    decreases fuel, e, 0nat,
{
    let decls = e->FunDefs_decls;
    let body = e->FunDefs_body;
    let funs2 = with_decls(funs, decls, decls.len() as int);
    lemma_group_ready(code, pc, e, env, funs, space);
    let b = exp_code(*body, env, space);
    assert(reaches_ret(code, pc + 1 + b.len(), 0));
    let rest = lemma_tail_runs(code, pc + 1, *body, env, venv, funs2, space, m, fuel, 0);
    let steps = 1 + rest.1;
    assert(step(code[pc], m) == Run::Done(m));
    assert(exec(code, pc, m, steps) == exec(code, pc + 1, m, rest.1));
    (rest.0, steps)
}

/// `lemma_tail_runs` for a tail call.
pub proof fn lemma_tail_call(
    code: Seq<InstrV>,
    pc: int,
    e: SeqExpV<u32>,
    env: Map<Seq<char>, i32>,
    venv: Map<Seq<char>, Val>,
    funs: Map<Seq<char>, FunDeclV<SeqExpV<u32>, u32>>,
    space: i32,
    m: Machine,
    fuel: nat,
    k: nat,
) -> (out: (Machine, nat))
    requires
        e is InternalTailCall,
        embedded(code, pc, exp_code(e, env, space)),
        labels_unique(code),
        0 <= space <= 8 * (FRAME_LIMIT + 1),
        tail_ready(e, env.dom(), env.len(), space),
        packed(env),
        slots_hold(env, venv, m),
        funs_ready(code, funs, space),
    ensures
        ends(code, pc, m, out.1, eval_calls(e, venv, funs, fuel), out.0),
    decreases fuel, e, 0nat,
{
    let f = e->InternalTailCall_0;
    let args = e->InternalTailCall_1;
    let t = e->InternalTailCall_2;
    if fuel > 0 && funs.contains_key(f) && funs[f].parameters.len() == args.len() {
        let d = funs[f];
        let params = d.parameters;
        let n = params.len() as int;
        let at = choose|at: int| #[trigger] laid_at(code, at, d, space);
        let frame = entry_frame(params, n);
        let values = bound_args(params, args, venv, n);
        let head = call_head(args, env, space);
        let after = run(head, m)->Done_0;
        lemma_entry_frame(params, n);
        assert(params.take(n) =~= params);
        lemma_tail_call_binds(params, args, env, venv, space, m);
        let inner = exp_code(d.body, frame, space);
        assert(reaches_ret(code, at + 1 + inner.len(), 0));
        let rest = lemma_tail_runs(
            code,
            at + 1,
            d.body,
            frame,
            values,
            funs,
            space,
            after,
            (fuel - 1) as nat,
            0,
        );
        let steps = head.len() + 2 + rest.1;
        let same = lemma_tail_call_runs(code, pc, at, f, params, args, t, env, venv, space, m, steps);
        assert(exec(code, pc, m, steps) == exec(code, at + 1, after, rest.1));
        (rest.0, steps)
    } else {
        (m, 0)
    }
}

/// The code of the body of a function, with the return behind it, returns with the
/// value of the body in `rax`, or traps with its error, where the body holds
/// primitive operations, `Let`, `If`, local functions and tail calls of local
/// functions: so a function that calls itself in tail position runs in the frame
/// that it started in, and finds each argument in the slot of its parameter. The
/// result gives the machine at the return and a number of steps that is enough.
pub proof fn lemma_body_returns(
    e: SeqExpV<u32>,
    env: Map<Seq<char>, i32>,
    venv: Map<Seq<char>, Val>,
    space: i32,
    m: Machine,
    fuel: nat,
) -> (out: (Machine, nat))
    requires
        labels_unique(exp_code(e, env, space) + seq![InstrV::Ret]),
        0 <= space <= 8 * (FRAME_LIMIT + 1),
        tail_ready(e, env.dom(), env.len(), space),
        packed(env),
        slots_hold(env, venv, m),
    ensures
        ends(
            exp_code(e, env, space) + seq![InstrV::Ret],
            0,
            m,
            out.1,
            eval_calls(e, venv, Map::empty(), fuel),
            out.0,
        ),
{
    let body = exp_code(e, env, space);
    let last = seq![InstrV::Ret];
    let code = body + last;
    assert(embedded(code, 0, body)) by {
        assert forall|j: int| 0 <= j < body.len() implies #[trigger] code[0 + j] == body[j] by {}
    }
    assert(code[body.len() as int] == last[0]);
    assert(reaches_ret(code, body.len() as int, 0));
    lemma_tail_runs(code, 0, e, env, venv, Map::empty(), space, m, fuel, 0)
}

} // verus!
