//! The model of the processor with jumps inside the code, and the law for
//! expressions with branches: the code of an expression without printing and calls
//! leaves the value of the expression in `rax`, or traps as the meaning of the
//! expression says.

use vstd::prelude::*;
use crate::codegen::{
    FRAME_LIMIT, IF_ERROR, SNAKE_FALSE, SNAKE_TRUE, code_ready, compare_jump, compare_label,
    done_label, else_label, exp_code, if_check_code, imm_arg, imm_bound, load, on_rax,
    overflow_check_code, prim1_check_code, prim1_code, prim2_check_code, prim2_code, reach,
    slot_offset, store,
};
use crate::lists::{every, lemma_every_add};
use crate::machine::{
    Machine, Res, Run, Val, binary_loads, ends_as, eval, fresh_lets, imm_in_range, imm_val,
    lemma_binary_loads_run, lemma_binary_runs, lemma_bind_slot, lemma_bool_check_runs,
    lemma_imm_runs, lemma_load_runs, lemma_run_add, lemma_run_end, lemma_step_done,
    lemma_unary_runs, lemma_unbind_slot, lemma_val_tag, lemma_word_of_double, lits_in_range,
    operand_error, packed, prim2_result, run, run_from, slots_hold, step, val_bits, val_ok,
    with_flags, with_reg,
};
use crate::syntax::{ImmExpV, Prim, SeqExpV};
use crate::text::decimal;
use crate::value::signed_of;
use crate::x86::{Arg32, Arg64, InstrV, Reg};

verus! {

/// Where a jump goes and whether it is taken, for an instruction that jumps.
pub open spec fn branch(i: InstrV, m: Machine) -> Option<(Seq<char>, bool)> {
    match i {
        InstrV::Jmp(l) => Some((l, true)),
        InstrV::Je(l) => Some((l, m.zero)),
        InstrV::Jz(l) => Some((l, m.zero)),
        InstrV::Jne(l) => Some((l, !m.zero)),
        InstrV::Jnz(l) => Some((l, !m.zero)),
        InstrV::Jl(l) => Some((l, m.sign != m.overflow)),
        InstrV::Jle(l) => Some((l, m.zero || m.sign != m.overflow)),
        InstrV::Jg(l) => Some((l, !m.zero && m.sign == m.overflow)),
        InstrV::Jge(l) => Some((l, m.sign == m.overflow)),
        InstrV::Jo(l) => Some((l, m.overflow)),
        InstrV::Jno(l) => Some((l, !m.overflow)),
        _ => None,
    }
}

/// The place of the label `l` in `code`.
pub open spec fn label_index(code: Seq<InstrV>, l: Seq<char>) -> int {
    choose|i: int| 0 <= i < code.len() && code[i] == InstrV::Label(l)
}

/// Whether no label stands twice in `code`.
pub open spec fn labels_unique(code: Seq<InstrV>) -> bool {
    forall|i: int, j: int|
        0 <= i < code.len() && 0 <= j < code.len() && code[i] is Label && #[trigger] code[i]
            == #[trigger] code[j] ==> i == j
}

/// What `code` does from the instruction at `pc` on, in at most `fuel` steps: a jump
/// to the trap ends the run in the trap, a jump that is taken goes on at its label,
/// and the run is done where it returns or leaves the code at its end.
pub open spec fn exec(code: Seq<InstrV>, pc: int, m: Machine, fuel: nat) -> Run
    decreases fuel,
{
    if pc < 0 || pc >= code.len() {
        Run::Done(m)
    } else if fuel == 0 {
        Run::Stuck
    } else {
        match branch(code[pc], m) {
            Some((l, taken)) => if !taken {
                exec(code, pc + 1, m, (fuel - 1) as nat)
            } else if l == "snake_err"@ {
                Run::Trap(m.regs[Reg::Rdi], m.regs[Reg::Rsi])
            } else if code.contains(InstrV::Label(l)) {
                exec(code, label_index(code, l), m, (fuel - 1) as nat)
            } else {
                Run::Stuck
            },
            None => if code[pc] is Label {
                exec(code, pc + 1, m, (fuel - 1) as nat)
            } else if code[pc] == InstrV::Ret {
                Run::Done(m)
            } else {
                match step(code[pc], m) {
                    Run::Done(next) => exec(code, pc + 1, next, (fuel - 1) as nat),
                    other => other,
                }
            },
        }
    }
}

/// Whether an instruction is no label and no return, and jumps nowhere but to the
/// trap.
pub open spec fn plain(i: InstrV) -> bool {
    match i {
        InstrV::Jo(l) | InstrV::Jnz(l) | InstrV::Jz(l) => l == "snake_err"@,
        InstrV::Label(_) | InstrV::Ret | InstrV::Jmp(_) | InstrV::Je(_) | InstrV::Jne(_)
        | InstrV::Jl(_) | InstrV::Jle(_) | InstrV::Jg(_) | InstrV::Jge(_) | InstrV::Jno(_) => false,
        _ => true,
    }
}

/// `plain`, as a predicate on instructions.
pub open spec fn is_plain() -> spec_fn(InstrV) -> bool {
    |i: InstrV| plain(i)
}

/// Whether `part` stands in `code` from the place `pc` on.
pub open spec fn embedded(code: Seq<InstrV>, pc: int, part: Seq<InstrV>) -> bool {
    &&& 0 <= pc
    &&& pc + part.len() <= code.len()
    &&& forall|j: int| 0 <= j < part.len() ==> #[trigger] code[pc + j] == part[j]
}

/// Where two pieces of code, one after the other, stand in code, each of them does.
pub proof fn lemma_embedded_add(code: Seq<InstrV>, pc: int, a: Seq<InstrV>, b: Seq<InstrV>)
    requires
        embedded(code, pc, a + b),
    ensures
        embedded(code, pc, a),
        embedded(code, pc + a.len(), b),
{
    assert forall|j: int| 0 <= j < a.len() implies #[trigger] code[pc + j] == a[j] by {
        assert((a + b)[j] == a[j]);
    }
    assert forall|j: int| 0 <= j < b.len() implies #[trigger] code[pc + a.len() + j] == b[j] by {
        assert((a + b)[a.len() + j] == b[j]);
        assert(code[pc + (a.len() + j)] == (a + b)[a.len() + j]);
    }
}

/// A label that stands at a place of code without a label twice is found there.
pub proof fn lemma_label_found(code: Seq<InstrV>, p: int, l: Seq<char>)
    requires
        labels_unique(code),
        0 <= p < code.len(),
        code[p] == InstrV::Label(l),
    ensures
        code.contains(InstrV::Label(l)),
        label_index(code, l) == p,
{
    let i = label_index(code, l);
    assert(0 <= i < code.len() && code[i] == InstrV::Label(l));
    assert(code[p] is Label && code[p] == code[i]);
}

/// A stretch of plain instructions inside code runs as it runs alone: to its end,
/// from where the code goes on, or into the trap.
pub proof fn lemma_exec_stretch(code: Seq<InstrV>, pc: int, part: Seq<InstrV>, i: int, m: Machine, fuel: nat)
    requires
        embedded(code, pc, part),
        0 <= i <= part.len(),
        fuel >= part.len() - i,
        every(part, is_plain()),
    ensures
        match run_from(part, i, m) {
            Run::Done(next) => exec(code, pc + i, m, fuel) == exec(
                code,
                pc + part.len(),
                next,
                (fuel - (part.len() - i)) as nat,
            ),
            other => exec(code, pc + i, m, fuel) == other,
        },
    decreases part.len() - i,
{
    if i < part.len() {
        assert(code[pc + i] == part[i]);
        assert(is_plain()(part[i]));
        match step(part[i], m) {
            Run::Done(next) => {
                lemma_exec_stretch(code, pc, part, i + 1, next, (fuel - 1) as nat);
            },
            _ => {},
        }
    }
}

/// A label hands the run on to the next instruction.
pub proof fn lemma_exec_label(code: Seq<InstrV>, pc: int, m: Machine, fuel: nat)
    requires
        0 <= pc < code.len(),
        code[pc] is Label,
        fuel > 0,
    ensures
        exec(code, pc, m, fuel) == exec(code, pc + 1, m, (fuel - 1) as nat),
{
}

/// A jump to the label `l` of the code goes on at the label where it is taken, and at
/// the next instruction where it is not.
pub proof fn lemma_exec_jump(
    code: Seq<InstrV>,
    pc: int,
    l: Seq<char>,
    taken: bool,
    target: int,
    m: Machine,
    fuel: nat,
)
    requires
        labels_unique(code),
        0 <= pc < code.len(),
        0 <= target < code.len(),
        branch(code[pc], m) == Some((l, taken)),
        l != "snake_err"@,
        code[target] == InstrV::Label(l),
        fuel > 0,
    ensures
        taken ==> exec(code, pc, m, fuel) == exec(code, target, m, (fuel - 1) as nat),
        !taken ==> exec(code, pc, m, fuel) == exec(code, pc + 1, m, (fuel - 1) as nat),
{
    lemma_label_found(code, target, l);
}

/// A plain stretch inside code that ends as a result says hands the run on to what
/// follows it, with that result, or traps as the result says.
pub proof fn lemma_plain_runs(
    code: Seq<InstrV>,
    pc: int,
    part: Seq<InstrV>,
    m: Machine,
    fuel: nat,
    r: Res,
    env: Map<Seq<char>, i32>,
    venv: Map<Seq<char>, Val>,
) -> (end: (Machine, nat))
    requires
        embedded(code, pc, part),
        every(part, is_plain()),
        fuel >= part.len(),
        ends_as(run(part, m), r, env, venv),
    ensures
        goes_on(code, pc, part.len() as int, m, fuel, end, r, env, venv),
        run(part, m) is Done ==> end == (run(part, m)->Done_0, part.len()),
{
    lemma_exec_stretch(code, pc, part, 0, m, fuel);
    match run(part, m) {
        Run::Done(next) => (next, part.len()),
        _ => (m, 0),
    }
}

/// Whether the code of an expression, which takes `len` instructions from the place
/// `pc` of `code` on, run from the machine `m` with `fuel` steps, comes to what the
/// result `r` of the expression says: for a value, the run goes on behind the
/// expression from the machine `end.0`, which holds the bits of the value in `rax`
/// and every slot that `env` names as it was, with `end.1` steps fewer, which are at
/// most `len`; for an error, the run ends in the trap with the code and the bits of
/// the error. Where the meaning does not cover the expression, nothing is said.
pub open spec fn goes_on(
    code: Seq<InstrV>,
    pc: int,
    len: int,
    m: Machine,
    fuel: nat,
    end: (Machine, nat),
    r: Res,
    env: Map<Seq<char>, i32>,
    venv: Map<Seq<char>, Val>,
) -> bool {
    match r {
        Res::Value(v) => {
            &&& val_ok(v)
            &&& end.1 <= len
            &&& exec(code, pc, m, fuel) == exec(code, pc + len, end.0, (fuel - end.1) as nat)
            &&& end.0.regs[Reg::Rax] == val_bits(v)
            &&& slots_hold(env, venv, end.0)
        },
        Res::Error(c, bits) => exec(code, pc, m, fuel) == Run::Trap(c, bits),
        Res::Unsupported => true,
    }
}

/// The code of a primitive operation other than the comparisons is plain.
pub proof fn lemma_prim_code_plain(
    p: Prim,
    is: Seq<ImmExpV>,
    t: u32,
    env: Map<Seq<char>, i32>,
    space: i32,
)
    requires
        p.unary() || p == Prim::Add || p == Prim::Sub || p == Prim::Mul || p == Prim::And || p
            == Prim::Or,
    ensures
        every(exp_code(SeqExpV::Prim(p, is, t), env, space), is_plain()),
{
    let code = exp_code(SeqExpV::Prim(p, is, t), env, space);
    let q = is_plain();
    assert(every(overflow_check_code(), q));
    if p.unary() && is.len() >= 1 {
        let head = code.subrange(0, 2);
        let c = prim1_check_code(Reg::Rax, p);
        let tail = prim1_code(p, space);
        assert(code =~= head + c + tail);
        assert(every(head, q));
        assert(every(c, q));
        assert(every(tail, q)) by {
            if p == Prim::Add1 || p == Prim::Sub1 {
                assert(tail =~= tail.subrange(0, 2) + overflow_check_code());
                assert(every(tail.subrange(0, 2), q));
                lemma_every_add(tail.subrange(0, 2), overflow_check_code(), q);
            }
        }
        lemma_every_add(head, c, q);
        lemma_every_add(head + c, tail, q);
    } else if !p.unary() && is.len() >= 2 {
        lemma_binary_loads_plain(p, is, env);
        let loads = binary_loads(p, is, env);
        let tail = prim2_code(p, t);
        assert(code =~= loads + tail);
        assert(every(tail, q)) by {
            if p == Prim::Add || p == Prim::Sub {
                assert(tail =~= tail.subrange(0, 2) + overflow_check_code());
                assert(every(tail.subrange(0, 2), q));
                lemma_every_add(tail.subrange(0, 2), overflow_check_code(), q);
            } else if p == Prim::Mul {
                assert(tail =~= tail.subrange(0, 3) + overflow_check_code());
                assert(every(tail.subrange(0, 3), q));
                lemma_every_add(tail.subrange(0, 3), overflow_check_code(), q);
            }
        }
        lemma_every_add(loads, tail, q);
    }
}

/// The instructions that load and check the operands of a binary operation are plain.
pub proof fn lemma_binary_loads_plain(p: Prim, is: Seq<ImmExpV>, env: Map<Seq<char>, i32>)
    ensures
        every(binary_loads(p, is, env), is_plain()),
{
    let q = is_plain();
    let h1 = seq![InstrV::Comment("Prim2"@), load(Reg::Rax, imm_arg(is[0], env))];
    let c1 = prim2_check_code(Reg::Rax, p);
    let h2 = seq![load(Reg::R10, imm_arg(is[1], env))];
    let c2 = prim2_check_code(Reg::R10, p);
    assert(every(h1, q));
    assert(every(c1, q));
    assert(every(h2, q));
    assert(every(c2, q));
    lemma_every_add(h1, c1, q);
    lemma_every_add(h1 + c1, h2, q);
    lemma_every_add(h1 + c1 + h2, c2, q);
}

/// No label that the code of an expression makes is the label of the trap.
pub proof fn lemma_labels_not_trap(p: Prim, t: u32)
    ensures
        compare_label(p, t) != "snake_err"@,
        else_label(t) != "snake_err"@,
        done_label(t) != "snake_err"@,
{
    reveal_strlit("snake_err");
    reveal_strlit("less_than#");
    reveal_strlit("greater_than#");
    reveal_strlit("less_equal#");
    reveal_strlit("greater_equal#");
    reveal_strlit("equal#");
    reveal_strlit("unequal#");
    reveal_strlit("if_false#");
    reveal_strlit("done#");
    let d = decimal(t as nat);
    assert(compare_label(p, t)[0] != 's');
    assert(else_label(t)[0] == 'i');
    assert(done_label(t)[0] == 'd');
    assert("snake_err"@[0] == 's');
}

/// The flags after `cmp` on the bits of two values tell how the values compare: the
/// jump of a comparison is taken exactly where the comparison holds.
pub proof fn lemma_compare_flags(p: Prim, a: Val, b: Val, l: Seq<char>, m: Machine)
    requires
        p == Prim::Lt || p == Prim::Gt || p == Prim::Le || p == Prim::Ge || p == Prim::Eq || p
            == Prim::Neq,
        val_ok(a),
        val_ok(b),
        operand_error(p, a, b) is None,
    ensures
        prim2_result(p, a, b) is Value,
        prim2_result(p, a, b)->Value_0 is Bool,
        branch(
            compare_jump(p, l),
            with_flags(m, signed_of(val_bits(a)) - signed_of(val_bits(b))),
        ) == Some((l, prim2_result(p, a, b)->Value_0->Bool_0)),
{
    let exact = signed_of(val_bits(a)) - signed_of(val_bits(b));
    let after = with_flags(m, exact);
    assert(-0x1_0000_0000_0000_0000 < exact < 0x1_0000_0000_0000_0000);
    assert(after.zero <==> exact == 0) by {
        if exact >= 0 {
            assert(exact % 0x1_0000_0000_0000_0000 == exact);
        } else {
            assert(exact % 0x1_0000_0000_0000_0000 == exact + 0x1_0000_0000_0000_0000);
        }
    }
    assert((after.sign != after.overflow) <==> exact < 0) by {
        if exact >= 0 {
            assert(exact % 0x1_0000_0000_0000_0000 == exact);
        } else {
            assert(exact % 0x1_0000_0000_0000_0000 == exact + 0x1_0000_0000_0000_0000);
        }
    }
    lemma_word_of_double(a->Num_0);
    lemma_word_of_double(b->Num_0);
}

/// The instructions of a comparison up to its jump: the loads and checks of the
/// operands, the comparison of the two, and the move of `true` to `rax`.
pub open spec fn compare_head(p: Prim, is: Seq<ImmExpV>, env: Map<Seq<char>, i32>) -> Seq<InstrV> {
    binary_loads(p, is, env) + seq![
        InstrV::Comment("Compare"@),
        InstrV::Cmp(on_rax(Arg32::Reg(Reg::R10))),
        load(Reg::Rax, Arg64::Unsigned(SNAKE_TRUE)),
    ]
}

/// The instructions of a comparison up to its jump are plain; they trap on an
/// operand of the wrong kind, and else leave `true` in `rax`, the slots as they were,
/// and flags by which the jump of the comparison is taken exactly where the
/// comparison holds.
pub proof fn lemma_compare_head_runs(
    p: Prim,
    is: Seq<ImmExpV>,
    l: Seq<char>,
    env: Map<Seq<char>, i32>,
    venv: Map<Seq<char>, Val>,
    m: Machine,
)
    requires
        p == Prim::Lt || p == Prim::Gt || p == Prim::Le || p == Prim::Ge || p == Prim::Eq || p
            == Prim::Neq,
        is.len() == 2,
        imm_bound(is[0], env.dom()),
        imm_bound(is[1], env.dom()),
        imm_in_range(is[0]),
        imm_in_range(is[1]),
        slots_hold(env, venv, m),
    ensures
        every(compare_head(p, is, env), is_plain()),
        match prim2_result(p, imm_val(is[0], venv), imm_val(is[1], venv)) {
            Res::Value(v) => {
                &&& v is Bool
                &&& run(compare_head(p, is, env), m) is Done
                &&& run(compare_head(p, is, env), m)->Done_0.slots == m.slots
                &&& run(compare_head(p, is, env), m)->Done_0.regs[Reg::Rax] == SNAKE_TRUE
                &&& branch(compare_jump(p, l), run(compare_head(p, is, env), m)->Done_0) == Some(
                    (l, v->Bool_0),
                )
            },
            Res::Error(c, bits) => run(compare_head(p, is, env), m) == Run::Trap(c, bits),
            Res::Unsupported => false,
        },
{
    let a = imm_val(is[0], venv);
    let b = imm_val(is[1], venv);
    let loads = binary_loads(p, is, env);
    let three = seq![
        InstrV::Comment("Compare"@),
        InstrV::Cmp(on_rax(Arg32::Reg(Reg::R10))),
        load(Reg::Rax, Arg64::Unsigned(SNAKE_TRUE)),
    ];
    lemma_binary_loads_run(p, is, env, venv, m);
    lemma_binary_loads_plain(p, is, env);
    assert(every(three, is_plain()));
    lemma_every_add(loads, three, is_plain());
    lemma_run_add(loads, three, m);
    if operand_error(p, a, b) is None {
        let m4 = run(loads, m)->Done_0;
        let m5 = with_flags(m4, signed_of(val_bits(a)) - signed_of(val_bits(b)));
        let m6 = with_reg(m5, Reg::Rax, SNAKE_TRUE);
        assert(step(three[0], m4) == Run::Done(m4));
        assert(step(three[1], m4) == Run::Done(m5));
        assert(step(three[2], m5) == Run::Done(m6));
        lemma_step_done(three, 0, m4, m4);
        lemma_step_done(three, 1, m4, m5);
        lemma_step_done(three, 2, m5, m6);
        lemma_run_end(three, m6);
        lemma_compare_flags(p, a, b, l, m4);
        assert(branch(compare_jump(p, l), m6) == branch(compare_jump(p, l), m5));
    }
}

/// The code of a comparison inside code runs as its meaning says.
#[verifier::rlimit(60)]
pub proof fn lemma_compare_runs(
    code: Seq<InstrV>,
    pc: int,
    p: Prim,
    is: Seq<ImmExpV>,
    t: u32,
    env: Map<Seq<char>, i32>,
    venv: Map<Seq<char>, Val>,
    space: i32,
    m: Machine,
    fuel: nat,
) -> (end: (Machine, nat))
    requires
        p == Prim::Lt || p == Prim::Gt || p == Prim::Le || p == Prim::Ge || p == Prim::Eq || p
            == Prim::Neq,
        embedded(code, pc, exp_code(SeqExpV::Prim(p, is, t), env, space)),
        labels_unique(code),
        lits_in_range(SeqExpV::Prim(p, is, t)),
        code_ready(SeqExpV::Prim(p, is, t), env.dom()),
        slots_hold(env, venv, m),
        fuel >= exp_code(SeqExpV::Prim(p, is, t), env, space).len(),
    ensures
        goes_on(
            code,
            pc,
            exp_code(SeqExpV::Prim(p, is, t), env, space).len() as int,
            m,
            fuel,
            end,
            eval(SeqExpV::Prim(p, is, t), venv),
            env,
            venv,
        ),
        eval(SeqExpV::Prim(p, is, t), venv) is Value ==> end == ending(
            SeqExpV::Prim(p, is, t),
            env,
            venv,
            space,
            m,
        ),
{
    let part = exp_code(SeqExpV::Prim(p, is, t), env, space);
    let l = compare_label(p, t);
    let head = compare_head(p, is, env);
    let rest = seq![
        compare_jump(p, l),
        load(Reg::Rax, Arg64::Unsigned(SNAKE_FALSE)),
        InstrV::Label(l),
    ];
    assert(part =~= head + rest);
    lemma_embedded_add(code, pc, head, rest);
    let q = pc + head.len();
    assert(code[q + 0] == rest[0]);
    assert(code[q + 1] == rest[1]);
    assert(code[q + 2] == rest[2]);
    assert(imm_bound(is[0], env.dom()) && imm_bound(is[1], env.dom()));
    assert(imm_in_range(is[0]) && imm_in_range(is[1]));
    lemma_compare_head_runs(p, is, l, env, venv, m);
    lemma_exec_stretch(code, pc, head, 0, m, fuel);
    lemma_labels_not_trap(p, t);
    match prim2_result(p, imm_val(is[0], venv), imm_val(is[1], venv)) {
        Res::Value(v) => {
            let m6 = run(head, m)->Done_0;
            let holds = v->Bool_0;
            assert(v == Val::Bool(holds));
            assert(compares(p));
            let f1 = (fuel - head.len()) as nat;
            lemma_exec_jump(code, q, l, holds, q + 2, m6, f1);
            if holds {
                lemma_exec_label(code, q + 2, m6, (f1 - 1) as nat);
                (m6, head.len() + 2)
            } else {
                let m7 = with_reg(m6, Reg::Rax, SNAKE_FALSE);
                assert(step(code[q + 1], m6) == Run::Done(m7));
                assert(exec(code, q + 1, m6, (f1 - 1) as nat) == exec(
                    code,
                    q + 2,
                    m7,
                    (f1 - 2) as nat,
                ));
                lemma_exec_label(code, q + 2, m7, (f1 - 2) as nat);
                (m7, head.len() + 3)
            }
        },
        _ => (m, 0),
    }
}

/// Whether an operation is one of the six comparisons.
pub open spec fn compares(p: Prim) -> bool {
    p == Prim::Lt || p == Prim::Gt || p == Prim::Le || p == Prim::Ge || p == Prim::Eq || p
        == Prim::Neq
}

/// The machine at the end of the code of an expression that comes to a value, and
/// the number of steps that the code takes from the machine `m`.
pub open spec fn ending(
    e: SeqExpV<u32>,
    env: Map<Seq<char>, i32>,
    venv: Map<Seq<char>, Val>,
    space: i32,
    m: Machine,
) -> (Machine, nat)
    decreases e,
{
    match e {
        SeqExpV::Let { var, bound_exp, body, .. } => {
            let first = ending(*bound_exp, env, venv, space, m);
            let v = eval(*bound_exp, venv)->Value_0;
            let off = slot_offset(env.len());
            let bound = Machine { slots: first.0.slots.insert(off as int, val_bits(v)), ..first.0 };
            let last = ending(*body, env.insert(var, off), venv.insert(var, v), space, bound);
            (last.0, first.1 + 2 + last.1)
        },
        SeqExpV::If { cond, thn, els, .. } => {
            let checked = run(if_head(cond, env), m)->Done_0;
            let last = if imm_val(cond, venv) == Val::Bool(true) {
                ending(*thn, env, venv, space, checked)
            } else {
                ending(*els, env, venv, space, checked)
            };
            (last.0, 13 + last.1)
        },
        SeqExpV::Prim(p, is, _) => if compares(p) {
            let head = compare_head(p, is, env);
            let compared = run(head, m)->Done_0;
            if prim2_result(p, imm_val(is[0], venv), imm_val(is[1], venv)) == Res::Value(
                Val::Bool(true),
            ) {
                (compared, head.len() + 2)
            } else {
                (with_reg(compared, Reg::Rax, SNAKE_FALSE), head.len() + 3)
            }
        } else {
            (run(exp_code(e, env, space), m)->Done_0, exp_code(e, env, space).len())
        },
        _ => (run(exp_code(e, env, space), m)->Done_0, exp_code(e, env, space).len()),
    }
}

/// The code of an expression inside code, started where the slots hold the values of
/// the variables, comes to what the meaning of the expression says.
pub proof fn lemma_code_goes_on(
    code: Seq<InstrV>,
    pc: int,
    e: SeqExpV<u32>,
    env: Map<Seq<char>, i32>,
    venv: Map<Seq<char>, Val>,
    space: i32,
    m: Machine,
    fuel: nat,
) -> (end: (Machine, nat))
    requires
        embedded(code, pc, exp_code(e, env, space)),
        labels_unique(code),
        lits_in_range(e),
        code_ready(e, env.dom()),
        fresh_lets(e, env.dom()),
        packed(env),
        env.len() + reach(e) <= FRAME_LIMIT,
        slots_hold(env, venv, m),
        fuel >= exp_code(e, env, space).len(),
    ensures
        goes_on(
            code,
            pc,
            exp_code(e, env, space).len() as int,
            m,
            fuel,
            end,
            eval(e, venv),
            env,
            venv,
        ),
        eval(e, venv) is Value ==> end == ending(e, env, venv, space, m),
    decreases e, 1nat,
{
    let part = exp_code(e, env, space);
    match e {
        SeqExpV::Imm(i, _) => {
            lemma_imm_runs(i, env, venv, m);
            assert(every(part, is_plain()));
            lemma_plain_runs(code, pc, part, m, fuel, eval(e, venv), env, venv)
        },
        SeqExpV::Prim(p, is, t) => {
            if p == Prim::Print {
                (m, 0)
            } else if p.unary() {
                lemma_unary_runs(p, is, t, env, venv, space, m);
                lemma_prim_code_plain(p, is, t, env, space);
                lemma_plain_runs(code, pc, part, m, fuel, eval(e, venv), env, venv)
            } else if p == Prim::Add || p == Prim::Sub || p == Prim::Mul || p == Prim::And || p
                == Prim::Or {
                lemma_binary_runs(p, is, t, env, venv, space, m);
                lemma_prim_code_plain(p, is, t, env, space);
                lemma_plain_runs(code, pc, part, m, fuel, eval(e, venv), env, venv)
            } else {
                lemma_compare_runs(code, pc, p, is, t, env, venv, space, m, fuel)
            }
        },
        SeqExpV::Let { .. } => lemma_let_goes_on(code, pc, e, env, venv, space, m, fuel),
        SeqExpV::If { .. } => lemma_if_goes_on(code, pc, e, env, venv, space, m, fuel),
        _ => (m, 0),
    }
}

/// `lemma_code_goes_on` for a `Let`.
#[verifier::rlimit(40)]
pub proof fn lemma_let_goes_on(
    code: Seq<InstrV>,
    pc: int,
    e: SeqExpV<u32>,
    env: Map<Seq<char>, i32>,
    venv: Map<Seq<char>, Val>,
    space: i32,
    m: Machine,
    fuel: nat,
) -> (end: (Machine, nat))
    requires
        e is Let,
        embedded(code, pc, exp_code(e, env, space)),
        labels_unique(code),
        lits_in_range(e),
        code_ready(e, env.dom()),
        fresh_lets(e, env.dom()),
        packed(env),
        env.len() + reach(e) <= FRAME_LIMIT,
        slots_hold(env, venv, m),
        fuel >= exp_code(e, env, space).len(),
    ensures
        goes_on(
            code,
            pc,
            exp_code(e, env, space).len() as int,
            m,
            fuel,
            end,
            eval(e, venv),
            env,
            venv,
        ),
        eval(e, venv) is Value ==> end == ending(e, env, venv, space, m),
    decreases e, 0nat,
{
    let var = e->Let_var;
    let bound_exp = e->Let_bound_exp;
    let body = e->Let_body;
    let part = exp_code(e, env, space);
    let off = slot_offset(env.len());
    let env2 = env.insert(var, off);
    let a = exp_code(*bound_exp, env, space);
    let b = seq![InstrV::Comment("Let var: "@ + var), store(off as int)];
    let c = exp_code(*body, env2, space);
    assert(part == a + b + c);
    lemma_embedded_add(code, pc, a + b, c);
    lemma_embedded_add(code, pc, a, b);
    let first = lemma_code_goes_on(code, pc, *bound_exp, env, venv, space, m, fuel);
    match eval(*bound_exp, venv) {
        Res::Value(v) => {
            let m1 = first.0;
            let f1 = (fuel - first.1) as nat;
            let m2 = Machine { slots: m1.slots.insert(off as int, val_bits(v)), ..m1 };
            assert(step(b[0], m1) == Run::Done(m1));
            assert(step(b[1], m1) == Run::Done(m2));
            lemma_step_done(b, 0, m1, m1);
            lemma_step_done(b, 1, m1, m2);
            lemma_run_end(b, m2);
            assert(every(b, is_plain()));
            lemma_exec_stretch(code, pc + a.len(), b, 0, m1, f1);
            lemma_bind_slot(env, venv, var, v, m1);
            assert(env2.dom() =~= env.dom().insert(var));
            let f2 = (f1 - 2) as nat;
            let last = lemma_code_goes_on(
                code,
                pc + a.len() + 2,
                *body,
                env2,
                venv.insert(var, v),
                space,
                m2,
                f2,
            );
            match eval(*body, venv.insert(var, v)) {
                Res::Value(_) => {
                    assert forall|y: Seq<char>| #[trigger]
                        env.contains_key(y) implies venv.contains_key(y) by {}
                    lemma_unbind_slot(env, venv, var, off, v, last.0);
                    (last.0, first.1 + 2 + last.1)
                },
                _ => (m, 0),
            }
        },
        _ => (m, 0),
    }
}

/// The instructions of an `If` up to its first jump: the load and the check of the
/// condition, and its comparison with `false`.
pub open spec fn if_head(cond: ImmExpV, env: Map<Seq<char>, i32>) -> Seq<InstrV> {
    seq![InstrV::Comment("If"@), load(Reg::Rax, imm_arg(cond, env))] + if_check_code(Reg::Rax)
        + seq![
        load(Reg::R10, Arg64::Unsigned(SNAKE_FALSE)),
        InstrV::Cmp(on_rax(Arg32::Reg(Reg::R10))),
    ]
}

/// The instructions of an `If` up to its first jump are plain.
pub proof fn lemma_if_head_plain(cond: ImmExpV, env: Map<Seq<char>, i32>)
    ensures
        every(if_head(cond, env), is_plain()),
{
    let head = seq![InstrV::Comment("If"@), load(Reg::Rax, imm_arg(cond, env))];
    let check = if_check_code(Reg::Rax);
    let two = seq![
        load(Reg::R10, Arg64::Unsigned(SNAKE_FALSE)),
        InstrV::Cmp(on_rax(Arg32::Reg(Reg::R10))),
    ];
    let q = is_plain();
    assert(every(head, q));
    assert(every(check, q));
    assert(every(two, q));
    lemma_every_add(head, check, q);
    lemma_every_add(head + check, two, q);
}

/// The instructions of an `If` up to its first jump trap on a condition that is a
/// number, and else set the zero flag exactly where the condition is `false`.
pub proof fn lemma_if_head_runs(
    cond: ImmExpV,
    env: Map<Seq<char>, i32>,
    venv: Map<Seq<char>, Val>,
    m: Machine,
)
    requires
        imm_in_range(cond),
        imm_bound(cond, env.dom()),
        slots_hold(env, venv, m),
    ensures
        every(if_head(cond, env), is_plain()),
        if_head(cond, env).len() == 10,
        match imm_val(cond, venv) {
            Val::Num(_) => run(if_head(cond, env), m) == Run::Trap(
                IF_ERROR,
                val_bits(imm_val(cond, venv)),
            ),
            Val::Bool(b) => run(if_head(cond, env), m) is Done && run(
                if_head(cond, env),
                m,
            )->Done_0.slots == m.slots && run(if_head(cond, env), m)->Done_0.zero == !b,
        },
{
    let v = imm_val(cond, venv);
    let head = seq![InstrV::Comment("If"@), load(Reg::Rax, imm_arg(cond, env))];
    let check = if_check_code(Reg::Rax);
    let two = seq![
        load(Reg::R10, Arg64::Unsigned(SNAKE_FALSE)),
        InstrV::Cmp(on_rax(Arg32::Reg(Reg::R10))),
    ];
    lemma_if_head_plain(cond, env);
    lemma_run_add(head + check, two, m);
    lemma_run_add(head, check, m);
    lemma_load_runs(cond, Reg::Rax, env, venv, m);
    let m1 = with_reg(m, Reg::Rax, val_bits(v));
    assert(step(head[0], m) == Run::Done(m));
    lemma_step_done(head, 0, m, m);
    lemma_step_done(head, 1, m, m1);
    lemma_run_end(head, m1);
    lemma_val_tag(v);
    lemma_bool_check_runs(Reg::Rax, IF_ERROR, m1);
    if v is Bool {
        let m2 = run(check, m1)->Done_0;
        let m3 = with_reg(m2, Reg::R10, SNAKE_FALSE);
        let exact = signed_of(val_bits(v)) - signed_of(SNAKE_FALSE);
        let m4 = with_flags(m3, exact);
        assert(step(two[0], m2) == Run::Done(m3));
        assert(step(two[1], m3) == Run::Done(m4));
        lemma_step_done(two, 0, m2, m3);
        lemma_step_done(two, 1, m3, m4);
        lemma_run_end(two, m4);
        if v->Bool_0 {
            assert(exact == -0x8000_0000_0000_0000);
            assert(exact % 0x1_0000_0000_0000_0000 == 0x8000_0000_0000_0000);
        } else {
            assert(exact == 0);
        }
    }
}

/// Where the parts of the code of an `If` stand, the code standing at `pc`: the
/// instructions up to the first jump, the jump to the second branch, the first
/// branch, the jump to the end, the label and the code of the second branch, and
/// the label of the end.
#[verifier::rlimit(50)]
pub proof fn lemma_if_layout(
    code: Seq<InstrV>,
    pc: int,
    e: SeqExpV<u32>,
    env: Map<Seq<char>, i32>,
    space: i32,
)
    requires
        e is If,
        embedded(code, pc, exp_code(e, env, space)),
    ensures
        ({
            let a = exp_code(*e->If_thn, env, space);
            let b = exp_code(*e->If_els, env, space);
            &&& exp_code(e, env, space).len() == 14 + a.len() + b.len()
            &&& embedded(code, pc, if_head(e->If_cond, env))
            &&& code[pc + 10] == InstrV::Je(else_label(e->If_ann))
            &&& embedded(code, pc + 11, a)
            &&& code[pc + 11 + a.len()] == InstrV::Jmp(done_label(e->If_ann))
            &&& code[pc + 12 + a.len()] == InstrV::Label(else_label(e->If_ann))
            &&& embedded(code, pc + 13 + a.len(), b)
            &&& code[pc + 13 + a.len() + b.len()] == InstrV::Label(done_label(e->If_ann))
        }),
{
    let cond = e->If_cond;
    let ann = e->If_ann;
    let part = exp_code(e, env, space);
    let head = if_head(cond, env);
    let jump = seq![InstrV::Je(else_label(ann))];
    let a = exp_code(*e->If_thn, env, space);
    let middle = seq![InstrV::Jmp(done_label(ann)), InstrV::Label(else_label(ann))];
    let b = exp_code(*e->If_els, env, space);
    let last = seq![InstrV::Label(done_label(ann))];
    assert(head.len() == 10);
    assert(part =~= head + jump + a + middle + b + last);
    lemma_embedded_add(code, pc, head + jump + a + middle + b, last);
    lemma_embedded_add(code, pc, head + jump + a + middle, b);
    lemma_embedded_add(code, pc, head + jump + a, middle);
    lemma_embedded_add(code, pc, head + jump, a);
    lemma_embedded_add(code, pc, head, jump);
    let at_middle = pc + 11 + a.len();
    let at_last = at_middle + 2 + b.len();
    assert(code[pc + 10 + 0] == jump[0]);
    assert(code[at_middle + 0] == middle[0]);
    assert(code[at_middle + 1] == middle[1]);
    assert(code[at_last + 0] == last[0]);
}

/// `lemma_code_goes_on` for an `If`.
pub proof fn lemma_if_goes_on(
    code: Seq<InstrV>,
    pc: int,
    e: SeqExpV<u32>,
    env: Map<Seq<char>, i32>,
    venv: Map<Seq<char>, Val>,
    space: i32,
    m: Machine,
    fuel: nat,
) -> (end: (Machine, nat))
    requires
        e is If,
        embedded(code, pc, exp_code(e, env, space)),
        labels_unique(code),
        lits_in_range(e),
        code_ready(e, env.dom()),
        fresh_lets(e, env.dom()),
        packed(env),
        env.len() + reach(e) <= FRAME_LIMIT,
        slots_hold(env, venv, m),
        fuel >= exp_code(e, env, space).len(),
    ensures
        goes_on(
            code,
            pc,
            exp_code(e, env, space).len() as int,
            m,
            fuel,
            end,
            eval(e, venv),
            env,
            venv,
        ),
        eval(e, venv) is Value ==> end == ending(e, env, venv, space, m),
    decreases e, 0nat,
{
    let cond = e->If_cond;
    let thn = e->If_thn;
    let els = e->If_els;
    let ann = e->If_ann;
    let head = if_head(cond, env);
    let a = exp_code(*thn, env, space);
    let b = exp_code(*els, env, space);
    lemma_if_layout(code, pc, e, env, space);
    lemma_if_head_runs(cond, env, venv, m);
    let at_jump = pc + 10;
    let at_thn = at_jump + 1;
    let at_middle = at_thn + a.len();
    let at_els = at_middle + 2;
    let at_last = at_els + b.len();
    lemma_exec_stretch(code, pc, head, 0, m, fuel);
    lemma_labels_not_trap(Prim::Eq, ann);
    match imm_val(cond, venv) {
        Val::Num(_) => (m, 0),
        Val::Bool(c) => {
            let m1 = run(head, m)->Done_0;
            let f1 = (fuel - 10) as nat;
            assert(slots_hold(env, venv, m1));
            assert(exec(code, pc, m, fuel) == exec(code, at_jump, m1, f1));
            lemma_exec_jump(code, at_jump, else_label(ann), !c, at_middle + 1, m1, f1);
            if c {
                let f2 = (f1 - 1) as nat;
                assert(exec(code, pc, m, fuel) == exec(code, at_thn, m1, f2));
                let end = lemma_code_goes_on(code, at_thn, *thn, env, venv, space, m1, f2);
                match eval(*thn, venv) {
                    Res::Value(_) => {
                        let f3 = (f2 - end.1) as nat;
                        lemma_if_leaves(code, at_middle, at_last, ann, end.0, f3);
                        (end.0, 13 + end.1)
                    },
                    _ => (m, 0),
                }
            } else {
                let f2 = (f1 - 2) as nat;
                lemma_exec_label(code, at_middle + 1, m1, (f1 - 1) as nat);
                assert(exec(code, pc, m, fuel) == exec(code, at_els, m1, f2));
                let end = lemma_code_goes_on(code, at_els, *els, env, venv, space, m1, f2);
                match eval(*els, venv) {
                    Res::Value(_) => {
                        let f3 = (f2 - end.1) as nat;
                        lemma_exec_label(code, at_last, end.0, f3);
                        (end.0, 13 + end.1)
                    },
                    _ => (m, 0),
                }
            }
        },
    }
}

/// The jump at the end of the first branch of an `If` leaves the `If` at its end.
pub proof fn lemma_if_leaves(
    code: Seq<InstrV>,
    at_jump: int,
    at_last: int,
    ann: u32,
    m: Machine,
    fuel: nat,
)
    requires
        labels_unique(code),
        0 <= at_jump < code.len(),
        0 <= at_last < code.len(),
        code[at_jump] == InstrV::Jmp(done_label(ann)),
        code[at_last] == InstrV::Label(done_label(ann)),
        fuel >= 2,
    ensures
        exec(code, at_jump, m, fuel) == exec(code, at_last + 1, m, (fuel - 2) as nat),
{
    lemma_labels_not_trap(Prim::Eq, ann);
    lemma_exec_jump(code, at_jump, done_label(ann), true, at_last, m, fuel);
    lemma_exec_label(code, at_last, m, (fuel - 1) as nat);
}

/// The code of an expression without printing, local functions and calls, started
/// where the slots hold the values of the variables, ends as the meaning of the
/// expression says: with the bits of the value in `rax`, or in the trap with the
/// code and the bits of the error; and it leaves the slots of the variables as they
/// were. So arithmetic that leaves the range traps with the error of an overflow,
/// and an operation, a comparison or an `If` on a value of the wrong kind traps
/// with its error and that value.
pub proof fn lemma_code_runs(
    e: SeqExpV<u32>,
    env: Map<Seq<char>, i32>,
    venv: Map<Seq<char>, Val>,
    space: i32,
    m: Machine,
)
    requires
        labels_unique(exp_code(e, env, space)),
        lits_in_range(e),
        code_ready(e, env.dom()),
        fresh_lets(e, env.dom()),
        packed(env),
        env.len() + reach(e) <= FRAME_LIMIT,
        slots_hold(env, venv, m),
    ensures
        ends_as(
            exec(exp_code(e, env, space), 0, m, exp_code(e, env, space).len()),
            eval(e, venv),
            env,
            venv,
        ),
{
    let code = exp_code(e, env, space);
    let end = lemma_code_goes_on(code, 0, e, env, venv, space, m, code.len());
}

} // verus!
