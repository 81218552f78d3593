//! Tail calls on the model of the processor: a tail call leaves the values of its
//! arguments in the slots where the function that it jumps to finds its
//! parameters, and hands the run to the label of the function.

use vstd::prelude::*;
use crate::codegen::{
    FRAME_LIMIT, entry_frame, exp_code, fetch, imm_arg, imm_bound, lemma_entry_slot, load,
    shift_args, slot_offset, stage_args, store,
};
use crate::control::{
    embedded, exec, is_plain, labels_unique, lemma_embedded_add, lemma_exec_jump, lemma_exec_label,
    lemma_exec_stretch,
};
use crate::lists::{every, lemma_every_add};
use crate::machine::{
    Machine, Run, Val, imm_in_range, imm_val, lemma_load_runs, lemma_run_add, lemma_run_end,
    lemma_step_done, packed, run, slots_hold, step, val_bits, val_ok, with_reg,
};
use crate::syntax::{ImmExpV, SeqExpV};
use crate::x86::{InstrV, Reg};

verus! {

/// The offset below the frame of `space` bytes at which argument `k` of a call is
/// staged.
pub open spec fn staged_at(space: i32, k: int) -> int {
    -space - (16 + 8 * k)
}

/// Whether the arguments of a call can be staged below a frame of `space` bytes
/// that holds the variables of `env`, and moved into its first slots: the frame
/// holds the variables and as many slots as the call has arguments.
pub open spec fn frame_holds(env: Map<Seq<char>, i32>, args: Seq<ImmExpV>, space: i32) -> bool {
    &&& 0 <= space <= 8 * (FRAME_LIMIT + 1)
    &&& args.len() <= FRAME_LIMIT
    &&& 8 * env.len() <= space + 8
    &&& 8 * args.len() <= space + 8
}

/// Staging the first `n` arguments of a call leaves their values below the frame and
/// the variables as they were.
pub proof fn lemma_stage_runs(
    args: Seq<ImmExpV>,
    n: int,
    env: Map<Seq<char>, i32>,
    venv: Map<Seq<char>, Val>,
    space: i32,
    m: Machine,
)
    requires
        0 <= n <= args.len(),
        forall|k: int|
            0 <= k < args.len() ==> imm_bound(#[trigger] args[k], env.dom()) && imm_in_range(
                args[k],
            ),
        slots_hold(env, venv, m),
        packed(env),
        frame_holds(env, args, space),
    ensures
        every(stage_args(args, n, env, space), is_plain()),
        run(stage_args(args, n, env, space), m) is Done,
        slots_hold(env, venv, run(stage_args(args, n, env, space), m)->Done_0),
        forall|k: int|
            0 <= k < n ==> run(stage_args(args, n, env, space), m)->Done_0.slots[staged_at(
                space,
                k,
            )] == val_bits(imm_val(#[trigger] args[k], venv)),
        forall|k: int| 0 <= k < n ==> val_ok(imm_val(#[trigger] args[k], venv)),
    decreases n,
{
    let code = stage_args(args, n, env, space);
    if n > 0 {
        let before = stage_args(args, n - 1, env, space);
        let at = staged_at(space, n - 1);
        let two = seq![load(Reg::Rax, imm_arg(args[n - 1], env)), store(at)];
        assert(code == before + two);
        lemma_stage_runs(args, n - 1, env, venv, space, m);
        let m1 = run(before, m)->Done_0;
        assert(imm_bound(args[n - 1], env.dom()) && imm_in_range(args[n - 1]));
        lemma_load_runs(args[n - 1], Reg::Rax, env, venv, m1);
        let v = val_bits(imm_val(args[n - 1], venv));
        let m2 = with_reg(m1, Reg::Rax, v);
        let m3 = Machine { slots: m2.slots.insert(at, v), ..m2 };
        assert((at as i32) as int == at);
        assert(step(two[0], m1) == Run::Done(m2));
        assert(step(two[1], m2) == Run::Done(m3));
        lemma_step_done(two, 0, m1, m2);
        lemma_step_done(two, 1, m2, m3);
        lemma_run_end(two, m3);
        lemma_run_add(before, two, m);
        assert(every(two, is_plain()));
        lemma_every_add(before, two, is_plain());
        assert forall|x: Seq<char>| #[trigger] env.contains_key(x) implies m3.slots[env[x] as int]
            == val_bits(venv[x]) by {
            let j = choose|j: nat| j < env.len() && env[x] == #[trigger] slot_offset(j);
            assert(env[x] as int != at);
        }
        assert forall|k: int| 0 <= k < n implies m3.slots[staged_at(space, k)] == val_bits(
            imm_val(#[trigger] args[k], venv),
        ) by {
            if k < n - 1 {
                assert(staged_at(space, k) != at);
            }
        }
    } else {
        lemma_run_end(code, m);
    }
}

/// Moving `n` staged values up puts value `k` into slot `k` of the frame.
pub proof fn lemma_shift_runs(n: int, total: int, space: i32, vals: Seq<u64>, m: Machine)
    requires
        0 <= n <= total,
        total == vals.len(),
        0 <= space <= 8 * (FRAME_LIMIT + 1),
        total <= FRAME_LIMIT,
        8 * total <= space + 8,
        forall|k: int| 0 <= k < total ==> m.slots[staged_at(space, k)] == #[trigger] vals[k],
    ensures
        every(shift_args(n, space), is_plain()),
        run(shift_args(n, space), m) is Done,
        forall|k: int|
            0 <= k < total ==> run(shift_args(n, space), m)->Done_0.slots[staged_at(space, k)]
                == #[trigger] vals[k],
        forall|k: int|
            0 <= k < n ==> run(shift_args(n, space), m)->Done_0.slots[-8 * (k + 1)]
                == #[trigger] vals[k],
    decreases n,
{
    let code = shift_args(n, space);
    if n > 0 {
        let before = shift_args(n - 1, space);
        let from = staged_at(space, n - 1);
        let to = -8 * n;
        let two = seq![fetch(-space - 8 * n - 8), store(to)];
        assert(code == before + two);
        lemma_shift_runs(n - 1, total, space, vals, m);
        let m1 = run(before, m)->Done_0;
        assert(-space - 8 * n - 8 == from);
        assert((from as i32) as int == from);
        assert((to as i32) as int == to);
        let v = vals[n - 1];
        assert(m1.slots[from] == v);
        let m2 = with_reg(m1, Reg::Rax, v);
        let m3 = Machine { slots: m2.slots.insert(to, v), ..m2 };
        assert(step(two[0], m1) == Run::Done(m2));
        assert(step(two[1], m2) == Run::Done(m3));
        lemma_step_done(two, 0, m1, m2);
        lemma_step_done(two, 1, m2, m3);
        lemma_run_end(two, m3);
        lemma_run_add(before, two, m);
        assert(every(two, is_plain()));
        lemma_every_add(before, two, is_plain());
        assert forall|k: int| 0 <= k < total implies m3.slots[staged_at(space, k)]
            == #[trigger] vals[k] by {
            assert(staged_at(space, k) != to);
        }
        assert forall|k: int| 0 <= k < n implies m3.slots[-8 * (k + 1)] == #[trigger] vals[k] by {
            if k < n - 1 {
                assert(-8 * (k + 1) != to);
            }
        }
    } else {
        lemma_run_end(code, m);
    }
}

/// The values that the first `n` parameters get from the arguments of a call.
pub open spec fn bound_args(
    params: Seq<Seq<char>>,
    args: Seq<ImmExpV>,
    venv: Map<Seq<char>, Val>,
    n: int,
) -> Map<Seq<char>, Val>
    decreases n,
{
    if n <= 0 || n > params.len() {
        Map::empty()
    } else {
        bound_args(params, args, venv, n - 1).insert(params[n - 1], imm_val(args[n - 1], venv))
    }
}

/// Where no parameter stands twice, parameter `k` gets the value of argument `k`.
pub proof fn lemma_bound_arg(
    params: Seq<Seq<char>>,
    args: Seq<ImmExpV>,
    venv: Map<Seq<char>, Val>,
    n: int,
    k: int,
)
    requires
        params.no_duplicates(),
        0 <= k < n <= params.len(),
    ensures
        bound_args(params, args, venv, n).contains_key(params[k]),
        bound_args(params, args, venv, n)[params[k]] == imm_val(args[k], venv),
    decreases n,
{
    if k < n - 1 {
        lemma_bound_arg(params, args, venv, n - 1, k);
    }
}

/// The variables of the frame of a function at its entry are its first `n`
/// parameters.
pub proof fn lemma_entry_dom(params: Seq<Seq<char>>, n: int, x: Seq<char>)
    requires
        0 <= n <= params.len(),
        entry_frame(params, n).contains_key(x),
    ensures
        exists|k: int| 0 <= k < n && #[trigger] params[k] == x,
    decreases n,
{
    if n > 0 {
        if x != params[n - 1] {
            lemma_entry_dom(params, n - 1, x);
            let k = choose|k: int| 0 <= k < n - 1 && #[trigger] params[k] == x;
            assert(0 <= k < n && params[k] == x);
        }
    }
}

/// The instructions of a tail call before its jump: the staging of the arguments
/// and their move into the first slots of the frame.
pub open spec fn call_head(args: Seq<ImmExpV>, env: Map<Seq<char>, i32>, space: i32) -> Seq<InstrV> {
    seq![InstrV::Comment("InCall"@)] + stage_args(args, args.len() as int, env, space)
        + shift_args(args.len() as int, space)
}

/// A tail call, before it jumps, leaves the value of each argument in the slot where
/// a function with as many parameters finds the parameter: the frame of the
/// function at its entry holds the values that the parameters get from the
/// arguments.
pub proof fn lemma_tail_call_binds(
    params: Seq<Seq<char>>,
    args: Seq<ImmExpV>,
    env: Map<Seq<char>, i32>,
    venv: Map<Seq<char>, Val>,
    space: i32,
    m: Machine,
)
    requires
        params.no_duplicates(),
        params.len() == args.len(),
        forall|k: int|
            0 <= k < args.len() ==> imm_bound(#[trigger] args[k], env.dom()) && imm_in_range(
                args[k],
            ),
        slots_hold(env, venv, m),
        packed(env),
        frame_holds(env, args, space),
    ensures
        every(call_head(args, env, space), is_plain()),
        run(call_head(args, env, space), m) is Done,
        slots_hold(
            entry_frame(params, params.len() as int),
            bound_args(params, args, venv, params.len() as int),
            run(call_head(args, env, space), m)->Done_0,
        ),
{
    let n = args.len() as int;
    let first = seq![InstrV::Comment("InCall"@)];
    let stage = stage_args(args, n, env, space);
    let shift = shift_args(n, space);
    lemma_stage_runs(args, n, env, venv, space, m);
    assert(step(first[0], m) == Run::Done(m));
    lemma_step_done(first, 0, m, m);
    lemma_run_end(first, m);
    lemma_run_add(first, stage, m);
    let m1 = run(stage, m)->Done_0;
    let vals = Seq::new(n as nat, |k: int| val_bits(imm_val(args[k], venv)));
    lemma_shift_runs(n, n, space, vals, m1);
    lemma_run_add(first + stage, shift, m);
    let m2 = run(shift, m1)->Done_0;
    assert(every(first, is_plain()));
    lemma_every_add(first, stage, is_plain());
    lemma_every_add(first + stage, shift, is_plain());
    let frame = entry_frame(params, n);
    let values = bound_args(params, args, venv, n);
    assert forall|x: Seq<char>| #[trigger] frame.contains_key(x) implies values.contains_key(x)
        && val_ok(values[x]) && m2.slots[frame[x] as int] == val_bits(values[x]) by {
        lemma_entry_dom(params, n, x);
        let k = choose|k: int| 0 <= k < n && #[trigger] params[k] == x;
        lemma_entry_slot(params, n, k);
        lemma_bound_arg(params, args, venv, n, k);
        assert(val_ok(imm_val(args[k], venv)));
        assert(m2.slots[-8 * (k + 1)] == vals[k]);
    }
}

/// A tail call inside code hands the run to the label of the function that it
/// names, with the value of each argument in the slot where the function finds its
/// parameter.
pub proof fn lemma_tail_call_runs(
    code: Seq<InstrV>,
    pc: int,
    at: int,
    f: Seq<char>,
    params: Seq<Seq<char>>,
    args: Seq<ImmExpV>,
    t: u32,
    env: Map<Seq<char>, i32>,
    venv: Map<Seq<char>, Val>,
    space: i32,
    m: Machine,
    fuel: nat,
) -> (after: Machine)
    requires
        embedded(code, pc, exp_code(SeqExpV::InternalTailCall(f, args, t), env, space)),
        labels_unique(code),
        0 <= at < code.len(),
        code[at] == InstrV::Label(f),
        f != "snake_err"@,
        params.no_duplicates(),
        params.len() == args.len(),
        forall|k: int|
            0 <= k < args.len() ==> imm_bound(#[trigger] args[k], env.dom()) && imm_in_range(
                args[k],
            ),
        slots_hold(env, venv, m),
        packed(env),
        frame_holds(env, args, space),
        fuel > call_head(args, env, space).len() + 1,
    ensures
        exec(code, pc, m, fuel) == exec(
            code,
            at + 1,
            after,
            (fuel - call_head(args, env, space).len() - 2) as nat,
        ),
        slots_hold(
            entry_frame(params, params.len() as int),
            bound_args(params, args, venv, params.len() as int),
            after,
        ),
        after == run(call_head(args, env, space), m)->Done_0,
{
    let head = call_head(args, env, space);
    let jump = seq![InstrV::Jmp(f)];
    let part = exp_code(SeqExpV::InternalTailCall(f, args, t), env, space);
    assert(part =~= head + jump);
    lemma_embedded_add(code, pc, head, jump);
    lemma_tail_call_binds(params, args, env, venv, space, m);
    lemma_exec_stretch(code, pc, head, 0, m, fuel);
    let after = run(head, m)->Done_0;
    let at_jump = pc + head.len();
    assert(code[at_jump + 0] == jump[0]);
    let left = (fuel - head.len()) as nat;
    lemma_exec_jump(code, at_jump, f, true, at, after, left);
    lemma_exec_label(code, at, after, (left - 1) as nat);
    after
}

} // verus!
