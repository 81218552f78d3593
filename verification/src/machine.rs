//! A model of the processor for code that runs straight through, and the meaning of
//! expressions without printing, local functions and calls. The model covers no jump
//! but the jumps to the trap; the lemmas say what the stretches of code that hold no
//! other jump do: the loads, the checks of the kind of a value, arithmetic, logic and
//! the tests of the kind of a value.

use vstd::prelude::*;
use crate::codegen::{
    ARITH_ERROR, CMP_ERROR, FRAME_LIMIT, IF_ERROR, LOGIC_ERROR, NOT_MASK, OVFL_ERROR, SNAKE_FALSE,
    SNAKE_TRUE, TAG_MASK, bool_check_code, code_ready, exp_code, imm_arg, imm_bound, load,
    num_check_code, overflow_check_code, prim1_check_code, prim1_code, prim2_check_code, prim2_code,
    slot_offset,
};
use crate::syntax::{ImmExpV, Prim, SeqExpV};
use crate::value::{
    fits_word, in_range, lemma_kind_bits, lemma_tagged_int, lemma_tagged_product, signed_of,
};
use crate::x86::{Arg32, Arg64, BinArgs, InstrV, MovArgs, Reg, Reg32};

verus! {

/// What the code sees of the processor: the registers, the words at each offset from
/// the stack pointer, and the three flags that the code reads.
pub struct Machine {
    pub regs: Map<Reg, u64>,
    pub slots: Map<int, u64>,
    pub zero: bool,
    pub sign: bool,
    pub overflow: bool,
}

/// How a run of code ends: at its end, in the trap with the code of an error in
/// `rdi` and a value in `rsi`, or at an instruction that the model does not cover.
pub enum Run {
    Done(Machine),
    Trap(u64, u64),
    Stuck,
}

/// The 64 bits that stand for `i`, taken modulo two to the 64.
pub open spec fn word(i: int) -> u64 {
    (i % 0x1_0000_0000_0000_0000) as u64
}

/// The machine with `v` in the register `r`.
pub open spec fn with_reg(m: Machine, r: Reg, v: u64) -> Machine {
    Machine { regs: m.regs.insert(r, v), ..m }
}

/// The value of a 64-bit operand, where the model covers it: memory is reached from
/// the stack pointer alone.
pub open spec fn read64(a: Arg64, m: Machine) -> Option<u64> {
    match a {
        Arg64::Reg(r) => Some(m.regs[r]),
        Arg64::Signed(n) => Some(word(n as int)),
        Arg64::Unsigned(n) => Some(n),
        Arg64::Mem(mr) => if mr.reg == Reg::Rsp {
            Some(m.slots[mr.offset as int])
        } else {
            None
        },
    }
}

/// The value of a 32-bit operand, extended to 64 bits.
pub open spec fn read32(a: Arg32, m: Machine) -> Option<u64> {
    match a {
        Arg32::Reg(r) => Some(m.regs[r]),
        Arg32::Signed(n) => Some(word(n as int)),
        Arg32::Unsigned(n) => Some(n as u64),
        Arg32::Mem(mr) => if mr.reg == Reg::Rsp {
            Some(m.slots[mr.offset as int])
        } else {
            None
        },
    }
}

/// The two operands of a binary instruction on a register.
pub open spec fn operands(a: BinArgs, m: Machine) -> Option<(Reg, u64, u64)> {
    match a {
        BinArgs::ToReg(dst, src) => match read32(src, m) {
            Some(b) => Some((dst, m.regs[dst], b)),
            None => None,
        },
        BinArgs::ToMem(..) => None,
    }
}

/// The machine with the flags that an arithmetic instruction with the exact result
/// `exact` sets: whether the result is zero and whether it is negative, both of the
/// result modulo two to the 64, and whether the exact result is no signed number of
/// 64 bits.
pub open spec fn with_flags(m: Machine, exact: int) -> Machine {
    Machine {
        zero: word(exact) == 0,
        sign: signed_of(word(exact)) < 0,
        overflow: !(-0x8000_0000_0000_0000 <= exact <= 0x7FFF_FFFF_FFFF_FFFF),
        ..m
    }
}

/// The machine after an arithmetic instruction with the exact result `exact` for the
/// register `dst`: the register holds the result modulo two to the 64.
pub open spec fn after_arith(m: Machine, dst: Reg, exact: int) -> Machine {
    Machine { regs: m.regs.insert(dst, word(exact)), ..with_flags(m, exact) }
}

/// The machine after a bitwise instruction with the result `v` for the register `dst`.
pub open spec fn after_logic(m: Machine, dst: Reg, v: u64) -> Machine {
    Machine {
        regs: m.regs.insert(dst, v),
        zero: v == 0,
        sign: signed_of(v) < 0,
        overflow: false,
        ..m
    }
}

/// What a conditional jump to `label` does where `taken` says whether it is taken:
/// the model covers jumps to the trap alone.
pub open spec fn jump_to_trap(label: Seq<char>, taken: bool, m: Machine) -> Run {
    if label != "snake_err"@ {
        Run::Stuck
    } else if taken {
        Run::Trap(m.regs[Reg::Rdi], m.regs[Reg::Rsi])
    } else {
        Run::Done(m)
    }
}

/// What one instruction does, where the model covers it: moves, arithmetic and
/// bitwise instructions on a register, the shift to the left, the shift to the right
/// by one bit, `test`, `cmp`, comments, and the conditional jumps to the trap. Shifts leave
/// the flags as they are: the code never reads the flags after a shift.
pub open spec fn step(i: InstrV, m: Machine) -> Run {
    match i {
        InstrV::Comment(_) => Run::Done(m),
        InstrV::Mov(MovArgs::ToReg(dst, src)) => match read64(src, m) {
            Some(v) => Run::Done(with_reg(m, dst, v)),
            None => Run::Stuck,
        },
        InstrV::Mov(MovArgs::ToMem(mr, Reg32::Reg(r))) => if mr.reg == Reg::Rsp {
            Run::Done(Machine { slots: m.slots.insert(mr.offset as int, m.regs[r]), ..m })
        } else {
            Run::Stuck
        },
        InstrV::Add(a) => match operands(a, m) {
            Some((dst, x, y)) => Run::Done(after_arith(m, dst, signed_of(x) + signed_of(y))),
            None => Run::Stuck,
        },
        InstrV::Sub(a) => match operands(a, m) {
            Some((dst, x, y)) => Run::Done(after_arith(m, dst, signed_of(x) - signed_of(y))),
            None => Run::Stuck,
        },
        InstrV::IMul(a) => match operands(a, m) {
            Some((dst, x, y)) => Run::Done(after_arith(m, dst, signed_of(x) * signed_of(y))),
            None => Run::Stuck,
        },
        InstrV::And(a) => match operands(a, m) {
            Some((dst, x, y)) => Run::Done(after_logic(m, dst, x & y)),
            None => Run::Stuck,
        },
        InstrV::Or(a) => match operands(a, m) {
            Some((dst, x, y)) => Run::Done(after_logic(m, dst, x | y)),
            None => Run::Stuck,
        },
        InstrV::Xor(a) => match operands(a, m) {
            Some((dst, x, y)) => Run::Done(after_logic(m, dst, x ^ y)),
            None => Run::Stuck,
        },
        InstrV::Shl(a) => match operands(a, m) {
            Some((dst, x, y)) => if y < 64 {
                Run::Done(with_reg(m, dst, x << y))
            } else {
                Run::Stuck
            },
            None => Run::Stuck,
        },
        InstrV::Sar(a) => match operands(a, m) {
            Some((dst, x, y)) => if y == 1 {
                Run::Done(with_reg(m, dst, word(signed_of(x) / 2)))
            } else {
                Run::Stuck
            },
            None => Run::Stuck,
        },
        InstrV::Test(a) => match operands(a, m) {
            Some((_, x, y)) => Run::Done(
                Machine { zero: x & y == 0, sign: signed_of(x & y) < 0, overflow: false, ..m },
            ),
            None => Run::Stuck,
        },
        InstrV::Cmp(a) => match operands(a, m) {
            Some((_, x, y)) => Run::Done(with_flags(m, signed_of(x) - signed_of(y))),
            None => Run::Stuck,
        },
        InstrV::Jo(l) => jump_to_trap(l, m.overflow, m),
        InstrV::Jnz(l) => jump_to_trap(l, !m.zero, m),
        InstrV::Jz(l) => jump_to_trap(l, m.zero, m),
        _ => Run::Stuck,
    }
}

/// What the instructions of `code` from the `i`th on do, one after the other.
pub open spec fn run_from(code: Seq<InstrV>, i: int, m: Machine) -> Run
    decreases code.len() - i,
{
    if i < 0 || i >= code.len() {
        Run::Done(m)
    } else {
        match step(code[i], m) {
            Run::Done(next) => run_from(code, i + 1, next),
            other => other,
        }
    }
}

/// What the instructions of `code` do, one after the other.
pub open spec fn run(code: Seq<InstrV>, m: Machine) -> Run {
    run_from(code, 0, m)
}

/// What `rest` does after a run that ended as `first` says.
pub open spec fn and_then(first: Run, rest: Seq<InstrV>) -> Run {
    match first {
        Run::Done(m) => run(rest, m),
        other => other,
    }
}

/// The end of two pieces of code runs as the second piece does.
pub proof fn lemma_run_second(a: Seq<InstrV>, b: Seq<InstrV>, j: int, m: Machine)
    requires
        0 <= j <= b.len(),
    ensures
        run_from(a + b, a.len() + j, m) == run_from(b, j, m),
    decreases b.len() - j,
{
    if j < b.len() {
        assert((a + b)[a.len() + j] == b[j]);
        match step(b[j], m) {
            Run::Done(next) => {
                lemma_run_second(a, b, j + 1, next);
            },
            _ => {},
        }
    }
}

/// Two pieces of code, one after the other, run as the first and then the second.
pub proof fn lemma_run_from_add(a: Seq<InstrV>, b: Seq<InstrV>, i: int, m: Machine)
    requires
        0 <= i <= a.len(),
    ensures
        run_from(a + b, i, m) == and_then(run_from(a, i, m), b),
    decreases a.len() - i,
{
    if i < a.len() {
        assert((a + b)[i] == a[i]);
        match step(a[i], m) {
            Run::Done(next) => {
                lemma_run_from_add(a, b, i + 1, next);
            },
            _ => {},
        }
    } else {
        lemma_run_second(a, b, 0, m);
    }
}

/// Two pieces of code, one after the other, run as the first and then the second.
pub proof fn lemma_run_add(a: Seq<InstrV>, b: Seq<InstrV>, m: Machine)
    ensures
        run(a + b, m) == and_then(run(a, m), b),
{
    lemma_run_from_add(a, b, 0, m);
}

/// A value of a program.
pub enum Val {
    Num(int),
    Bool(bool),
}

/// The bits that stand for a value in the code: a number doubled, or one of the two
/// booleans.
pub open spec fn val_bits(v: Val) -> u64 {
    match v {
        Val::Num(n) => word(2 * n),
        Val::Bool(true) => SNAKE_TRUE,
        Val::Bool(false) => SNAKE_FALSE,
    }
}

/// Whether a value is one that a program can hold: a boolean, or a number in range.
pub open spec fn val_ok(v: Val) -> bool {
    match v {
        Val::Num(n) => in_range(n),
        Val::Bool(_) => true,
    }
}

/// What an expression comes to: a value, a run-time error with its code and the
/// bits that go with it, or nothing that this meaning covers.
pub enum Res {
    Value(Val),
    Error(u64, u64),
    Unsupported,
}

/// The number `exact` as a value, or the overflow error where it is out of range; the
/// bits that go with the error are those that the instruction left, `left`.
pub open spec fn checked(exact: int, left: int) -> Res {
    if in_range(exact) {
        Res::Value(Val::Num(exact))
    } else {
        Res::Error(OVFL_ERROR, word(left))
    }
}

/// What a unary operation comes to on the value `v`.
pub open spec fn prim1_result(p: Prim, v: Val) -> Res {
    match p {
        Prim::Add1 => match v {
            Val::Num(n) => checked(n + 1, 2 * n + 2),
            Val::Bool(_) => Res::Error(ARITH_ERROR, val_bits(v)),
        },
        Prim::Sub1 => match v {
            Val::Num(n) => checked(n - 1, 2 * n - 2),
            Val::Bool(_) => Res::Error(ARITH_ERROR, val_bits(v)),
        },
        Prim::Not => match v {
            Val::Bool(b) => Res::Value(Val::Bool(!b)),
            Val::Num(_) => Res::Error(LOGIC_ERROR, val_bits(v)),
        },
        Prim::IsNum => Res::Value(Val::Bool(v is Num)),
        Prim::IsBool => Res::Value(Val::Bool(v is Bool)),
        _ => Res::Unsupported,
    }
}

/// What a binary operation comes to on the values `a` and `b`: the first operand is
/// checked before the second.
pub open spec fn prim2_result(p: Prim, a: Val, b: Val) -> Res {
    match p {
        Prim::Add | Prim::Sub | Prim::Mul => match (a, b) {
            (Val::Bool(_), _) => Res::Error(ARITH_ERROR, val_bits(a)),
            (_, Val::Bool(_)) => Res::Error(ARITH_ERROR, val_bits(b)),
            (Val::Num(x), Val::Num(y)) => if p == Prim::Add {
                checked(x + y, 2 * x + 2 * y)
            } else if p == Prim::Sub {
                checked(x - y, 2 * x - 2 * y)
            } else {
                checked(x * y, x * (2 * y))
            },
        },
        Prim::And | Prim::Or => match (a, b) {
            (Val::Num(_), _) => Res::Error(LOGIC_ERROR, val_bits(a)),
            (_, Val::Num(_)) => Res::Error(LOGIC_ERROR, val_bits(b)),
            (Val::Bool(x), Val::Bool(y)) => Res::Value(
                Val::Bool(
                    if p == Prim::And {
                        x && y
                    } else {
                        x || y
                    },
                ),
            ),
        },
        Prim::Lt | Prim::Gt | Prim::Le | Prim::Ge | Prim::Eq | Prim::Neq => match (a, b) {
            (Val::Bool(_), _) => Res::Error(CMP_ERROR, val_bits(a)),
            (_, Val::Bool(_)) => Res::Error(CMP_ERROR, val_bits(b)),
            (Val::Num(x), Val::Num(y)) => Res::Value(
                Val::Bool(
                    if p == Prim::Lt {
                        x < y
                    } else if p == Prim::Gt {
                        x > y
                    } else if p == Prim::Le {
                        x <= y
                    } else if p == Prim::Ge {
                        x >= y
                    } else if p == Prim::Eq {
                        x == y
                    } else {
                        x != y
                    },
                ),
            ),
        },
        _ => Res::Unsupported,
    }
}

/// The value of an immediate operand where the variables have the values `venv`.
pub open spec fn imm_val(i: ImmExpV, venv: Map<Seq<char>, Val>) -> Val {
    match i {
        ImmExpV::Num(n) => Val::Num(n as int),
        ImmExpV::Bool(b) => Val::Bool(b),
        ImmExpV::Var(x) => venv[x],
    }
}

/// What a sequential expression comes to where the variables have the values
/// `venv`. Printing, local functions and calls are not covered.
pub open spec fn eval<A>(e: SeqExpV<A>, venv: Map<Seq<char>, Val>) -> Res
    decreases e,
{
    match e {
        SeqExpV::Imm(i, _) => Res::Value(imm_val(i, venv)),
        SeqExpV::Prim(p, is, _) => if p.unary() && is.len() == 1 {
            prim1_result(p, imm_val(is[0], venv))
        } else if !p.unary() && is.len() == 2 {
            prim2_result(p, imm_val(is[0], venv), imm_val(is[1], venv))
        } else {
            Res::Unsupported
        },
        SeqExpV::Let { var, bound_exp, body, .. } => match eval(*bound_exp, venv) {
            Res::Value(v) => eval(*body, venv.insert(var, v)),
            other => other,
        },
        SeqExpV::If { cond, thn, els, .. } => match imm_val(cond, venv) {
            Val::Num(_) => Res::Error(IF_ERROR, val_bits(imm_val(cond, venv))),
            Val::Bool(true) => eval(*thn, venv),
            Val::Bool(false) => eval(*els, venv),
        },
        _ => Res::Unsupported,
    }
}

/// A number in range doubled, as a word, is the number doubled as a signed number.
pub proof fn lemma_word_of_double(n: int)
    requires
        in_range(n),
    ensures
        signed_of(word(2 * n)) == 2 * n,
        word(2 * n) % 2 == 0,
        word(2 * n) & 1 == 0,
{
    let w = word(2 * n);
    if n >= 0 {
        assert((2 * n) % 0x1_0000_0000_0000_0000 == 2 * n);
    } else {
        assert((2 * n) % 0x1_0000_0000_0000_0000 == 2 * n + 0x1_0000_0000_0000_0000);
    }
    assert(w % 2 == 0 ==> w & 1 == 0) by (bit_vector);
}

/// The word of a signed number of 64 bits stands for that number.
pub proof fn lemma_word_signed(i: int)
    requires
        fits_word(i),
    ensures
        signed_of(word(i)) == i,
{
    if i >= 0 {
        assert(i % 0x1_0000_0000_0000_0000 == i);
    } else {
        assert(i % 0x1_0000_0000_0000_0000 == i + 0x1_0000_0000_0000_0000);
    }
}

/// The lowest bit of the bits of a value tells a number from a boolean.
pub proof fn lemma_val_tag(v: Val)
    requires
        val_ok(v),
    ensures
        v is Num <==> val_bits(v) & 1 == 0,
        v is Bool <==> val_bits(v) & 1 == 1,
        1u64 & val_bits(v) == val_bits(v) & 1,
{
    let x = val_bits(v);
    assert(1u64 & x == x & 1) by (bit_vector);
    assert(x & 1 == 0 || x & 1 == 1) by (bit_vector);
    match v {
        Val::Num(n) => {
            lemma_word_of_double(n);
        },
        Val::Bool(b) => {
            assert(0xFFFF_FFFF_FFFF_FFFFu64 & 1 == 1) by (bit_vector);
            assert(0x7FFF_FFFF_FFFF_FFFFu64 & 1 == 1) by (bit_vector);
        },
    }
}

/// What the check for overflow does: it traps with the code of an overflow and the
/// value in `rax` where the overflow flag is set, and else changes nothing that the
/// code goes on with.
pub proof fn lemma_overflow_check_runs(m: Machine)
    ensures
        m.overflow ==> run(overflow_check_code(), m) == Run::Trap(OVFL_ERROR, m.regs[Reg::Rax]),
        !m.overflow ==> run(overflow_check_code(), m) is Done && same_state(
            run(overflow_check_code(), m)->Done_0,
            m,
        ),
{
    reveal_with_fuel(run_from, 6);
    let code = overflow_check_code();
    let m1 = with_reg(m, Reg::Rdi, OVFL_ERROR);
    let m2 = with_reg(m1, Reg::Rsi, m.regs[Reg::Rax]);
    assert(step(code[0], m) == Run::Done(m));
    assert(step(code[1], m) == Run::Done(m1));
    assert(step(code[2], m1) == Run::Done(m2));
}

/// Whether the machine `after` holds what the machine `before` held in `rax`, in
/// `r10` and in every slot.
pub open spec fn same_state(after: Machine, before: Machine) -> bool {
    &&& after.slots == before.slots
    &&& after.regs[Reg::Rax] == before.regs[Reg::Rax]
    &&& after.regs[Reg::R10] == before.regs[Reg::R10]
}

/// What the check for a number does on the value in `reg`, which is `rax` or `r10`:
/// it traps with `code` and the value where the value is none, and else changes
/// nothing that the code goes on with.
pub proof fn lemma_num_check_runs(reg: Reg, code: u64, m: Machine)
    requires
        reg == Reg::Rax || reg == Reg::R10,
    ensures
        m.regs[reg] & 1 != 0 ==> run(num_check_code(reg, code), m) == Run::Trap(code, m.regs[reg]),
        m.regs[reg] & 1 == 0 ==> run(num_check_code(reg, code), m) is Done && same_state(
            run(num_check_code(reg, code), m)->Done_0,
            m,
        ),
{
    reveal_with_fuel(run_from, 8);
    let is = num_check_code(reg, code);
    let v = m.regs[reg];
    let m1 = with_reg(m, Reg::Rdi, code);
    let m2 = with_reg(m1, Reg::Rsi, v);
    let m3 = with_reg(m2, Reg::Rbx, TAG_MASK);
    let m4 = Machine {
        zero: TAG_MASK & v == 0,
        sign: signed_of(TAG_MASK & v) < 0,
        overflow: false,
        ..m3
    };
    assert(1u64 & v == v & 1) by (bit_vector);
    assert(step(is[0], m) == Run::Done(m));
    assert(step(is[1], m) == Run::Done(m1));
    assert(step(is[2], m1) == Run::Done(m2));
    assert(step(is[3], m2) == Run::Done(m3));
    assert(step(is[4], m3) == Run::Done(m4));
}

/// What the check for a boolean does on the value in `reg`, which is `rax` or `r10`:
/// it traps with `code` and the value where the value is none, and else changes
/// nothing that the code goes on with.
pub proof fn lemma_bool_check_runs(reg: Reg, code: u64, m: Machine)
    requires
        reg == Reg::Rax || reg == Reg::R10,
    ensures
        m.regs[reg] & 1 == 0 ==> run(bool_check_code(reg, code), m) == Run::Trap(code, m.regs[reg]),
        m.regs[reg] & 1 != 0 ==> run(bool_check_code(reg, code), m) is Done && same_state(
            run(bool_check_code(reg, code), m)->Done_0,
            m,
        ),
{
    reveal_with_fuel(run_from, 8);
    let is = bool_check_code(reg, code);
    let v = m.regs[reg];
    let m1 = with_reg(m, Reg::Rdi, code);
    let m2 = with_reg(m1, Reg::Rsi, v);
    let m3 = with_reg(m2, Reg::Rbx, TAG_MASK);
    let m4 = Machine {
        zero: TAG_MASK & v == 0,
        sign: signed_of(TAG_MASK & v) < 0,
        overflow: false,
        ..m3
    };
    assert(1u64 & v == v & 1) by (bit_vector);
    assert(step(is[0], m) == Run::Done(m));
    assert(step(is[1], m) == Run::Done(m1));
    assert(step(is[2], m1) == Run::Done(m2));
    assert(step(is[3], m2) == Run::Done(m3));
    assert(step(is[4], m3) == Run::Done(m4));
}

/// Whether the slots that `env` names hold the bits of the values that `venv` gives
/// the variables, each a value that a program can hold.
pub open spec fn slots_hold(env: Map<Seq<char>, i32>, venv: Map<Seq<char>, Val>, m: Machine) -> bool {
    forall|x: Seq<char>| #[trigger]
        env.contains_key(x) ==> venv.contains_key(x) && val_ok(venv[x]) && m.slots[env[x] as int]
            == val_bits(venv[x])
}

/// Whether the variables of `env` lie in the first slots of the frame, as many as
/// `env` holds variables.
pub open spec fn packed(env: Map<Seq<char>, i32>) -> bool {
    &&& env.dom().finite()
    &&& forall|x: Seq<char>| #[trigger]
        env.contains_key(x) ==> exists|k: nat| k < env.len() && env[x] == #[trigger] slot_offset(k)
}

/// Whether every number that is written in `e`, outside local functions, is in range.
pub open spec fn lits_in_range<A>(e: SeqExpV<A>) -> bool
    decreases e,
{
    match e {
        SeqExpV::Imm(i, _) => imm_in_range(i),
        SeqExpV::Prim(_, is, _) => forall|k: int| 0 <= k < is.len() ==> imm_in_range(#[trigger] is[k]),
        SeqExpV::Let { bound_exp, body, .. } => lits_in_range(*bound_exp) && lits_in_range(*body),
        SeqExpV::If { cond, thn, els, .. } => imm_in_range(cond) && lits_in_range(*thn)
            && lits_in_range(*els),
        _ => true,
    }
}

/// Whether an immediate operand, if it is a number, is in range.
pub open spec fn imm_in_range(i: ImmExpV) -> bool {
    match i {
        ImmExpV::Num(n) => in_range(n as int),
        _ => true,
    }
}

/// Whether every `Let` of `e`, outside local functions, binds a variable that is not
/// in scope where the `Let` stands, `vars` being in scope around `e`.
pub open spec fn fresh_lets<A>(e: SeqExpV<A>, vars: Set<Seq<char>>) -> bool
    decreases e,
{
    match e {
        SeqExpV::Let { var, bound_exp, body, .. } => {
            &&& !vars.contains(var)
            &&& fresh_lets(*bound_exp, vars)
            &&& fresh_lets(*body, vars.insert(var))
        },
        SeqExpV::If { thn, els, .. } => fresh_lets(*thn, vars) && fresh_lets(*els, vars),
        _ => true,
    }
}

/// Loading an immediate operand puts the bits of its value into the register.
pub proof fn lemma_load_runs(
    i: ImmExpV,
    reg: Reg,
    env: Map<Seq<char>, i32>,
    venv: Map<Seq<char>, Val>,
    m: Machine,
)
    requires
        imm_bound(i, env.dom()),
        imm_in_range(i),
        slots_hold(env, venv, m),
    ensures
        step(load(reg, imm_arg(i, env)), m) == Run::Done(
            with_reg(m, reg, val_bits(imm_val(i, venv))),
        ),
        val_ok(imm_val(i, venv)),
{
    match i {
        ImmExpV::Num(n) => {
            lemma_tagged_int(n);
        },
        ImmExpV::Bool(_) => {},
        ImmExpV::Var(x) => {
            assert(env.contains_key(x));
        },
    }
}

/// Whether a run ended as the result `r` of an expression says: with the bits of the
/// value in `rax` and every slot that `env` names as it was, or in the trap with the
/// code and the bits of the error. Where the meaning does not cover the expression,
/// nothing is said.
pub open spec fn ends_as(
    run: Run,
    r: Res,
    env: Map<Seq<char>, i32>,
    venv: Map<Seq<char>, Val>,
) -> bool {
    match r {
        Res::Value(v) => val_ok(v) && run is Done && run->Done_0.regs[Reg::Rax] == val_bits(v)
            && slots_hold(env, venv, run->Done_0),
        Res::Error(code, bits) => run == Run::Trap(code, bits),
        Res::Unsupported => true,
    }
}

/// An instruction that the machine gets past hands the run on to the next.
pub proof fn lemma_step_done(code: Seq<InstrV>, i: int, m: Machine, next: Machine)
    requires
        0 <= i < code.len(),
        step(code[i], m) == Run::Done(next),
    ensures
        run_from(code, i, m) == run_from(code, i + 1, next),
{
}

/// A run ends where the code ends.
pub proof fn lemma_run_end(code: Seq<InstrV>, m: Machine)
    ensures
        run_from(code, code.len() as int, m) == Run::Done(m),
{
}

/// What the code of `Add1` and `Sub1` does to a number in `rax`: it adds `delta`,
/// which is 2 or -2, to the doubled number, and traps where the result overflows.
pub proof fn lemma_step_arith_runs(p: Prim, n: int, space: i32, m: Machine)
    requires
        p == Prim::Add1 || p == Prim::Sub1,
        in_range(n),
        m.regs[Reg::Rax] == word(2 * n),
    ensures
        ({
            let delta: int = if p == Prim::Add1 {
                1
            } else {
                -1
            };
            if in_range(n + delta) {
                run(prim1_code(p, space), m) is Done && run(prim1_code(p, space), m)->Done_0.slots
                    == m.slots && run(prim1_code(p, space), m)->Done_0.regs[Reg::Rax] == word(
                    2 * (n + delta),
                )
            } else {
                run(prim1_code(p, space), m) == Run::Trap(OVFL_ERROR, word(2 * n + 2 * delta))
            }
        }),
{
    let code = prim1_code(p, space);
    let delta: int = if p == Prim::Add1 {
        1
    } else {
        -1
    };
    let head = code.subrange(0, 2);
    assert(code =~= head + overflow_check_code());
    lemma_word_of_double(n);
    assert(word(2) == 2);
    assert(signed_of(2u64) == 2);
    let m2 = after_arith(m, Reg::Rax, 2 * n + 2 * delta);
    assert(step(head[0], m) == Run::Done(m));
    assert(step(head[1], m) == Run::Done(m2));
    lemma_step_done(head, 0, m, m);
    lemma_step_done(head, 1, m, m2);
    lemma_run_end(head, m2);
    lemma_run_add(head, overflow_check_code(), m);
    lemma_overflow_check_runs(m2);
}

/// What the code of `Not` does to a boolean in `rax`: it leaves the other boolean.
pub proof fn lemma_not_runs(b: bool, space: i32, m: Machine)
    requires
        m.regs[Reg::Rax] == val_bits(Val::Bool(b)),
    ensures
        run(prim1_code(Prim::Not, space), m) is Done,
        run(prim1_code(Prim::Not, space), m)->Done_0.slots == m.slots,
        run(prim1_code(Prim::Not, space), m)->Done_0.regs[Reg::Rax] == val_bits(Val::Bool(!b)),
{
    let code = prim1_code(Prim::Not, space);
    let x = m.regs[Reg::Rax];
    assert(0xFFFF_FFFF_FFFF_FFFFu64 ^ 0x8000_0000_0000_0000 == 0x7FFF_FFFF_FFFF_FFFFu64)
        by (bit_vector);
    assert(0x7FFF_FFFF_FFFF_FFFFu64 ^ 0x8000_0000_0000_0000 == 0xFFFF_FFFF_FFFF_FFFFu64)
        by (bit_vector);
    let m1 = with_reg(m, Reg::R10, NOT_MASK);
    let m2 = after_logic(m1, Reg::Rax, x ^ NOT_MASK);
    assert(step(code[0], m) == Run::Done(m));
    assert(step(code[1], m) == Run::Done(m1));
    assert(step(code[2], m1) == Run::Done(m2));
    lemma_step_done(code, 0, m, m);
    lemma_step_done(code, 1, m, m1);
    lemma_step_done(code, 2, m1, m2);
    lemma_run_end(code, m2);
}

/// What the code of `IsNum` and `IsBool` does to a value in `rax`: it leaves the
/// boolean that says whether the value is of the kind.
#[verifier::rlimit(40)]
pub proof fn lemma_kind_runs(p: Prim, v: Val, space: i32, m: Machine)
    requires
        p == Prim::IsNum || p == Prim::IsBool,
        val_ok(v),
        m.regs[Reg::Rax] == val_bits(v),
    ensures
        run(prim1_code(p, space), m) is Done,
        run(prim1_code(p, space), m)->Done_0.slots == m.slots,
        run(prim1_code(p, space), m)->Done_0.regs[Reg::Rax] == val_bits(
            Val::Bool(
                if p == Prim::IsNum {
                    v is Num
                } else {
                    v is Bool
                },
            ),
        ),
{
    let code = prim1_code(p, space);
    let x = val_bits(v);
    lemma_val_tag(v);
    lemma_kind_bits(x);
    let m1 = with_reg(m, Reg::R10, TAG_MASK);
    let m2 = after_logic(m1, Reg::Rax, x & 1);
    let m3 = with_reg(m2, Reg::Rax, (x & 1) << 63);
    assert(step(code[0], m) == Run::Done(m));
    assert(step(code[1], m) == Run::Done(m1));
    assert(step(code[2], m1) == Run::Done(m2));
    assert(step(code[3], m2) == Run::Done(m3));
    lemma_step_done(code, 0, m, m);
    lemma_step_done(code, 1, m, m1);
    lemma_step_done(code, 2, m1, m2);
    lemma_step_done(code, 3, m2, m3);
    if p == Prim::IsNum {
        let m4 = with_reg(m3, Reg::R10, SNAKE_TRUE);
        let m5 = after_logic(m4, Reg::Rax, ((x & 1) << 63) ^ SNAKE_TRUE);
        assert(step(code[4], m3) == Run::Done(m4));
        assert(step(code[5], m4) == Run::Done(m5));
        lemma_step_done(code, 4, m3, m4);
        lemma_step_done(code, 5, m4, m5);
        lemma_run_end(code, m5);
    } else {
        let m4 = with_reg(m3, Reg::R10, SNAKE_FALSE);
        let m5 = after_logic(m4, Reg::Rax, ((x & 1) << 63) | SNAKE_FALSE);
        assert(step(code[4], m3) == Run::Done(m4));
        assert(step(code[5], m4) == Run::Done(m5));
        lemma_step_done(code, 4, m3, m4);
        lemma_step_done(code, 5, m4, m5);
        lemma_run_end(code, m5);
    }
}

/// The code of a unary operation, run with the bits of a value in `rax`, ends as the
/// operation on the value says.
pub proof fn lemma_prim1_runs(
    p: Prim,
    v: Val,
    space: i32,
    env: Map<Seq<char>, i32>,
    venv: Map<Seq<char>, Val>,
    m: Machine,
)
    requires
        p == Prim::Add1 || p == Prim::Sub1 || p == Prim::Not || p == Prim::IsNum || p
            == Prim::IsBool,
        val_ok(v),
        m.regs[Reg::Rax] == val_bits(v),
        slots_hold(env, venv, m),
    ensures
        ends_as(
            run(prim1_check_code(Reg::Rax, p) + prim1_code(p, space), m),
            prim1_result(p, v),
            env,
            venv,
        ),
{
    let check = prim1_check_code(Reg::Rax, p);
    let code = prim1_code(p, space);
    lemma_run_add(check, code, m);
    lemma_val_tag(v);
    if p == Prim::Add1 || p == Prim::Sub1 {
        lemma_num_check_runs(Reg::Rax, ARITH_ERROR, m);
        if v is Num {
            let m1 = run(check, m)->Done_0;
            lemma_step_arith_runs(p, v->Num_0, space, m1);
        }
    } else if p == Prim::Not {
        lemma_bool_check_runs(Reg::Rax, LOGIC_ERROR, m);
        if v is Bool {
            let m1 = run(check, m)->Done_0;
            lemma_not_runs(v->Bool_0, space, m1);
        }
    } else {
        assert(check =~= Seq::<InstrV>::empty());
        lemma_run_end(check, m);
        lemma_kind_runs(p, v, space, m);
    }
}

/// What the code of `Add` and `Sub` does to two numbers in `rax` and `r10`: it leaves
/// the doubled sum or difference, and traps where that overflows.
pub proof fn lemma_add_sub_runs(p: Prim, x: int, y: int, t: u32, m: Machine)
    requires
        p == Prim::Add || p == Prim::Sub,
        in_range(x),
        in_range(y),
        m.regs[Reg::Rax] == word(2 * x),
        m.regs[Reg::R10] == word(2 * y),
    ensures
        ({
            let r: int = if p == Prim::Add {
                x + y
            } else {
                x - y
            };
            if in_range(r) {
                run(prim2_code(p, t), m) is Done && run(prim2_code(p, t), m)->Done_0.slots == m.slots
                    && run(prim2_code(p, t), m)->Done_0.regs[Reg::Rax] == word(2 * r)
            } else {
                run(prim2_code(p, t), m) == Run::Trap(OVFL_ERROR, word(2 * r))
            }
        }),
{
    let code = prim2_code(p, t);
    let r: int = if p == Prim::Add {
        x + y
    } else {
        x - y
    };
    let head = code.subrange(0, 2);
    assert(code =~= head + overflow_check_code());
    lemma_word_of_double(x);
    lemma_word_of_double(y);
    let m2 = after_arith(m, Reg::Rax, 2 * r);
    assert(step(head[0], m) == Run::Done(m));
    assert(step(head[1], m) == Run::Done(m2));
    lemma_step_done(head, 0, m, m);
    lemma_step_done(head, 1, m, m2);
    lemma_run_end(head, m2);
    lemma_run_add(head, overflow_check_code(), m);
    lemma_overflow_check_runs(m2);
}

/// What the code of `Mul` does to two numbers in `rax` and `r10`: it leaves the
/// doubled product, and traps where that overflows.
pub proof fn lemma_mul_runs(x: int, y: int, t: u32, m: Machine)
    requires
        in_range(x),
        in_range(y),
        m.regs[Reg::Rax] == word(2 * x),
        m.regs[Reg::R10] == word(2 * y),
    ensures
        in_range(x * y) ==> run(prim2_code(Prim::Mul, t), m) is Done && run(
            prim2_code(Prim::Mul, t),
            m,
        )->Done_0.slots == m.slots && run(prim2_code(Prim::Mul, t), m)->Done_0.regs[Reg::Rax]
            == word(2 * (x * y)),
        !in_range(x * y) ==> run(prim2_code(Prim::Mul, t), m) == Run::Trap(
            OVFL_ERROR,
            word(x * (2 * y)),
        ),
{
    let code = prim2_code(Prim::Mul, t);
    let head = code.subrange(0, 3);
    assert(code =~= head + overflow_check_code());
    lemma_word_of_double(x);
    lemma_word_of_double(y);
    lemma_word_signed(x);
    lemma_tagged_product(x, y);
    let m1 = with_reg(m, Reg::Rax, word(x));
    let m2 = after_arith(m1, Reg::Rax, x * (2 * y));
    assert(step(head[0], m) == Run::Done(m));
    assert(step(head[1], m) == Run::Done(m1));
    assert(step(head[2], m1) == Run::Done(m2));
    lemma_step_done(head, 0, m, m);
    lemma_step_done(head, 1, m, m1);
    lemma_step_done(head, 2, m1, m2);
    lemma_run_end(head, m2);
    lemma_run_add(head, overflow_check_code(), m);
    lemma_overflow_check_runs(m2);
}

/// What the code of `And` and `Or` does to two booleans in `rax` and `r10`.
pub proof fn lemma_and_or_runs(p: Prim, a: bool, b: bool, t: u32, m: Machine)
    requires
        p == Prim::And || p == Prim::Or,
        m.regs[Reg::Rax] == val_bits(Val::Bool(a)),
        m.regs[Reg::R10] == val_bits(Val::Bool(b)),
    ensures
        run(prim2_code(p, t), m) is Done,
        run(prim2_code(p, t), m)->Done_0.slots == m.slots,
        run(prim2_code(p, t), m)->Done_0.regs[Reg::Rax] == val_bits(
            Val::Bool(
                if p == Prim::And {
                    a && b
                } else {
                    a || b
                },
            ),
        ),
{
    let code = prim2_code(p, t);
    let x = m.regs[Reg::Rax];
    let y = m.regs[Reg::R10];
    assert(0xFFFF_FFFF_FFFF_FFFFu64 & 0xFFFF_FFFF_FFFF_FFFFu64 == 0xFFFF_FFFF_FFFF_FFFFu64)
        by (bit_vector);
    assert(0xFFFF_FFFF_FFFF_FFFFu64 & 0x7FFF_FFFF_FFFF_FFFFu64 == 0x7FFF_FFFF_FFFF_FFFFu64)
        by (bit_vector);
    assert(0x7FFF_FFFF_FFFF_FFFFu64 & 0xFFFF_FFFF_FFFF_FFFFu64 == 0x7FFF_FFFF_FFFF_FFFFu64)
        by (bit_vector);
    assert(0x7FFF_FFFF_FFFF_FFFFu64 & 0x7FFF_FFFF_FFFF_FFFFu64 == 0x7FFF_FFFF_FFFF_FFFFu64)
        by (bit_vector);
    assert(0xFFFF_FFFF_FFFF_FFFFu64 | 0xFFFF_FFFF_FFFF_FFFFu64 == 0xFFFF_FFFF_FFFF_FFFFu64)
        by (bit_vector);
    assert(0xFFFF_FFFF_FFFF_FFFFu64 | 0x7FFF_FFFF_FFFF_FFFFu64 == 0xFFFF_FFFF_FFFF_FFFFu64)
        by (bit_vector);
    assert(0x7FFF_FFFF_FFFF_FFFFu64 | 0xFFFF_FFFF_FFFF_FFFFu64 == 0xFFFF_FFFF_FFFF_FFFFu64)
        by (bit_vector);
    assert(0x7FFF_FFFF_FFFF_FFFFu64 | 0x7FFF_FFFF_FFFF_FFFFu64 == 0x7FFF_FFFF_FFFF_FFFFu64)
        by (bit_vector);
    let v: u64 = if p == Prim::And {
        x & y
    } else {
        x | y
    };
    let m1 = after_logic(m, Reg::Rax, v);
    assert(step(code[0], m) == Run::Done(m1));
    lemma_step_done(code, 0, m, m1);
    lemma_run_end(code, m1);
}

/// The check that a binary operation makes on an operand in `reg`, which is `rax` or
/// `r10`, traps on a value of the wrong kind with the error of the operation, and
/// else changes nothing that the code goes on with.
pub proof fn lemma_prim2_check_runs(p: Prim, reg: Reg, v: Val, m: Machine)
    requires
        !p.unary(),
        reg == Reg::Rax || reg == Reg::R10,
        val_ok(v),
        m.regs[reg] == val_bits(v),
    ensures
        ({
            let wants_num = p != Prim::And && p != Prim::Or;
            let code = if p == Prim::Add || p == Prim::Sub || p == Prim::Mul {
                ARITH_ERROR
            } else if wants_num {
                CMP_ERROR
            } else {
                LOGIC_ERROR
            };
            if (v is Num) == wants_num {
                run(prim2_check_code(reg, p), m) is Done && same_state(
                    run(prim2_check_code(reg, p), m)->Done_0,
                    m,
                )
            } else {
                run(prim2_check_code(reg, p), m) == Run::Trap(code, val_bits(v))
            }
        }),
{
    lemma_val_tag(v);
    if p == Prim::Add || p == Prim::Sub || p == Prim::Mul {
        lemma_num_check_runs(reg, ARITH_ERROR, m);
    } else if p == Prim::And || p == Prim::Or {
        lemma_bool_check_runs(reg, LOGIC_ERROR, m);
    } else {
        lemma_num_check_runs(reg, CMP_ERROR, m);
    }
}

/// The code of a binary operation, run after both operands passed their checks, ends
/// as the operation on the values says.
pub proof fn lemma_prim2_op_runs(
    p: Prim,
    a: Val,
    b: Val,
    t: u32,
    env: Map<Seq<char>, i32>,
    venv: Map<Seq<char>, Val>,
    m: Machine,
)
    requires
        p == Prim::Add || p == Prim::Sub || p == Prim::Mul || p == Prim::And || p == Prim::Or,
        val_ok(a),
        val_ok(b),
        (a is Num) == (p == Prim::Add || p == Prim::Sub || p == Prim::Mul),
        (b is Num) == (p == Prim::Add || p == Prim::Sub || p == Prim::Mul),
        m.regs[Reg::Rax] == val_bits(a),
        m.regs[Reg::R10] == val_bits(b),
        slots_hold(env, venv, m),
    ensures
        ends_as(run(prim2_code(p, t), m), prim2_result(p, a, b), env, venv),
{
    if p == Prim::Add || p == Prim::Sub {
        lemma_add_sub_runs(p, a->Num_0, b->Num_0, t, m);
    } else if p == Prim::Mul {
        lemma_mul_runs(a->Num_0, b->Num_0, t, m);
        lemma_tagged_product(a->Num_0, b->Num_0);
    } else {
        lemma_and_or_runs(p, a->Bool_0, b->Bool_0, t, m);
    }
}

/// The offset of a slot is the offset of no other slot.
pub proof fn lemma_slot_offsets_differ(j: nat, k: nat)
    requires
        j <= FRAME_LIMIT,
        k <= FRAME_LIMIT,
        j != k,
    ensures
        slot_offset(j) != slot_offset(k),
{
}

/// Binding a new variable to the next slot keeps the variables in the first slots,
/// and the slots hold the values once the new slot holds the value of the variable.
pub proof fn lemma_bind_slot(
    env: Map<Seq<char>, i32>,
    venv: Map<Seq<char>, Val>,
    x: Seq<char>,
    v: Val,
    m: Machine,
)
    requires
        packed(env),
        env.len() < FRAME_LIMIT,
        !env.contains_key(x),
        val_ok(v),
        slots_hold(env, venv, m),
    ensures
        packed(env.insert(x, slot_offset(env.len()))),
        env.insert(x, slot_offset(env.len())).len() == env.len() + 1,
        slots_hold(
            env.insert(x, slot_offset(env.len())),
            venv.insert(x, v),
            Machine { slots: m.slots.insert(slot_offset(env.len()) as int, val_bits(v)), ..m },
        ),
{
    let off = slot_offset(env.len());
    let env2 = env.insert(x, off);
    let venv2 = venv.insert(x, v);
    let m2 = Machine { slots: m.slots.insert(off as int, val_bits(v)), ..m };
    assert(env2.dom() =~= env.dom().insert(x));
    assert forall|y: Seq<char>| #[trigger] env2.contains_key(y) implies exists|k: nat|
        k < env2.len() && env2[y] == #[trigger] slot_offset(k) by {
        if y == x {
            assert(env.len() < env2.len() && env2[y] == slot_offset(env.len()));
        } else {
            assert(env.contains_key(y));
            let k = choose|k: nat| k < env.len() && env[y] == #[trigger] slot_offset(k);
            assert(k < env2.len() && env2[y] == slot_offset(k));
        }
    }
    assert forall|y: Seq<char>| #[trigger] env2.contains_key(y) implies venv2.contains_key(y)
        && val_ok(venv2[y]) && m2.slots[env2[y] as int] == val_bits(venv2[y]) by {
        if y != x {
            assert(env.contains_key(y));
            let k = choose|k: nat| k < env.len() && env[y] == #[trigger] slot_offset(k);
            lemma_slot_offsets_differ(k, env.len());
        }
    }
}

/// Slots that hold the values of the variables of a frame with one more variable
/// hold the values of the variables of the frame.
pub proof fn lemma_unbind_slot(
    env: Map<Seq<char>, i32>,
    venv: Map<Seq<char>, Val>,
    x: Seq<char>,
    off: i32,
    v: Val,
    m: Machine,
)
    requires
        !env.contains_key(x),
        slots_hold(env.insert(x, off), venv.insert(x, v), m),
        forall|y: Seq<char>| #[trigger] env.contains_key(y) ==> venv.contains_key(y),
    ensures
        slots_hold(env, venv, m),
{
    let env2 = env.insert(x, off);
    assert forall|y: Seq<char>| #[trigger] env.contains_key(y) implies venv.contains_key(y)
        && val_ok(venv[y]) && m.slots[env[y] as int] == val_bits(venv[y]) by {
        assert(env2.contains_key(y));
    }
}

/// The code of an immediate leaves its value in `rax`.
pub proof fn lemma_imm_runs(
    i: ImmExpV,
    env: Map<Seq<char>, i32>,
    venv: Map<Seq<char>, Val>,
    m: Machine,
)
    requires
        imm_in_range(i),
        imm_bound(i, env.dom()),
        slots_hold(env, venv, m),
    ensures
        ends_as(
            run(seq![load(Reg::Rax, imm_arg(i, env))], m),
            Res::Value(imm_val(i, venv)),
            env,
            venv,
        ),
{
    let code = seq![load(Reg::Rax, imm_arg(i, env))];
    lemma_load_runs(i, Reg::Rax, env, venv, m);
    let m1 = with_reg(m, Reg::Rax, val_bits(imm_val(i, venv)));
    lemma_step_done(code, 0, m, m1);
    lemma_run_end(code, m1);
}

/// The code of a unary operation other than `Print` runs as its meaning says.
pub proof fn lemma_unary_runs(
    p: Prim,
    is: Seq<ImmExpV>,
    t: u32,
    env: Map<Seq<char>, i32>,
    venv: Map<Seq<char>, Val>,
    space: i32,
    m: Machine,
)
    requires
        p.unary(),
        p != Prim::Print,
        lits_in_range(SeqExpV::Prim(p, is, t)),
        code_ready(SeqExpV::Prim(p, is, t), env.dom()),
        slots_hold(env, venv, m),
    ensures
        ends_as(
            run(exp_code(SeqExpV::Prim(p, is, t), env, space), m),
            eval(SeqExpV::Prim(p, is, t), venv),
            env,
            venv,
        ),
{
    let code = exp_code(SeqExpV::Prim(p, is, t), env, space);
    let a = imm_val(is[0], venv);
    let head = seq![InstrV::Comment("Prim1"@), load(Reg::Rax, imm_arg(is[0], env))];
    let rest = prim1_check_code(Reg::Rax, p) + prim1_code(p, space);
    assert(code =~= head + rest);
    assert(imm_bound(is[0], env.dom()));
    assert(imm_in_range(is[0]));
    lemma_load_runs(is[0], Reg::Rax, env, venv, m);
    let m1 = with_reg(m, Reg::Rax, val_bits(a));
    assert(step(head[0], m) == Run::Done(m));
    lemma_step_done(head, 0, m, m);
    lemma_step_done(head, 1, m, m1);
    lemma_run_end(head, m1);
    lemma_run_add(head, rest, m);
    lemma_prim1_runs(p, a, space, env, venv, m1);
}

/// The error of the operands `a` and `b` of the binary operation `p`, if one of them is
/// of the wrong kind: the first operand is checked before the second.
pub open spec fn operand_error(p: Prim, a: Val, b: Val) -> Option<(u64, u64)> {
    let wants_num = p != Prim::And && p != Prim::Or;
    let code = if p == Prim::Add || p == Prim::Sub || p == Prim::Mul {
        ARITH_ERROR
    } else if wants_num {
        CMP_ERROR
    } else {
        LOGIC_ERROR
    };
    if (a is Num) != wants_num {
        Some((code, val_bits(a)))
    } else if (b is Num) != wants_num {
        Some((code, val_bits(b)))
    } else {
        None
    }
}

/// The instructions that load and check the operands of a binary operation.
pub open spec fn binary_loads(p: Prim, is: Seq<ImmExpV>, env: Map<Seq<char>, i32>) -> Seq<InstrV> {
    seq![InstrV::Comment("Prim2"@), load(Reg::Rax, imm_arg(is[0], env))] + prim2_check_code(
        Reg::Rax,
        p,
    ) + seq![load(Reg::R10, imm_arg(is[1], env))] + prim2_check_code(Reg::R10, p)
}

/// The instructions that load and check the operands of a binary operation trap on
/// an operand of the wrong kind, with the error of the operation and the operand,
/// and else leave the bits of the operands in `rax` and `r10`.
pub proof fn lemma_binary_loads_run(
    p: Prim,
    is: Seq<ImmExpV>,
    env: Map<Seq<char>, i32>,
    venv: Map<Seq<char>, Val>,
    m: Machine,
)
    requires
        !p.unary(),
        is.len() == 2,
        imm_bound(is[0], env.dom()),
        imm_bound(is[1], env.dom()),
        imm_in_range(is[0]),
        imm_in_range(is[1]),
        slots_hold(env, venv, m),
    ensures
        val_ok(imm_val(is[0], venv)),
        val_ok(imm_val(is[1], venv)),
        match operand_error(p, imm_val(is[0], venv), imm_val(is[1], venv)) {
            Some((code, bits)) => run(binary_loads(p, is, env), m) == Run::Trap(code, bits),
            None => run(binary_loads(p, is, env), m) is Done && run(
                binary_loads(p, is, env),
                m,
            )->Done_0.slots == m.slots && run(binary_loads(p, is, env), m)->Done_0.regs[Reg::Rax]
                == val_bits(imm_val(is[0], venv)) && run(
                binary_loads(p, is, env),
                m,
            )->Done_0.regs[Reg::R10] == val_bits(imm_val(is[1], venv)),
        },
{
    let a = imm_val(is[0], venv);
    let b = imm_val(is[1], venv);
    let h1 = seq![InstrV::Comment("Prim2"@), load(Reg::Rax, imm_arg(is[0], env))];
    let c1 = prim2_check_code(Reg::Rax, p);
    let h2 = seq![load(Reg::R10, imm_arg(is[1], env))];
    let c2 = prim2_check_code(Reg::R10, p);
    lemma_run_add(h1 + c1 + h2, c2, m);
    lemma_run_add(h1 + c1, h2, m);
    lemma_run_add(h1, c1, m);
    lemma_load_runs(is[0], Reg::Rax, env, venv, m);
    let m1 = with_reg(m, Reg::Rax, val_bits(a));
    assert(step(h1[0], m) == Run::Done(m));
    lemma_step_done(h1, 0, m, m);
    lemma_step_done(h1, 1, m, m1);
    lemma_run_end(h1, m1);
    let wants_num = p != Prim::And && p != Prim::Or;
    lemma_prim2_check_runs(p, Reg::Rax, a, m1);
    if (a is Num) == wants_num {
        let m2 = run(c1, m1)->Done_0;
        assert(slots_hold(env, venv, m2));
        lemma_load_runs(is[1], Reg::R10, env, venv, m2);
        let m3 = with_reg(m2, Reg::R10, val_bits(b));
        lemma_step_done(h2, 0, m2, m3);
        lemma_run_end(h2, m3);
        lemma_prim2_check_runs(p, Reg::R10, b, m3);
    }
}

/// The code of an operation of arithmetic or logic on two operands runs as its meaning
/// says.
pub proof fn lemma_binary_runs(
    p: Prim,
    is: Seq<ImmExpV>,
    t: u32,
    env: Map<Seq<char>, i32>,
    venv: Map<Seq<char>, Val>,
    space: i32,
    m: Machine,
)
    requires
        p == Prim::Add || p == Prim::Sub || p == Prim::Mul || p == Prim::And || p == Prim::Or,
        lits_in_range(SeqExpV::Prim(p, is, t)),
        code_ready(SeqExpV::Prim(p, is, t), env.dom()),
        slots_hold(env, venv, m),
    ensures
        ends_as(
            run(exp_code(SeqExpV::Prim(p, is, t), env, space), m),
            eval(SeqExpV::Prim(p, is, t), venv),
            env,
            venv,
        ),
{
    let code = exp_code(SeqExpV::Prim(p, is, t), env, space);
    let a = imm_val(is[0], venv);
    let b = imm_val(is[1], venv);
    let loads = binary_loads(p, is, env);
    let op = prim2_code(p, t);
    assert(code =~= loads + op);
    lemma_run_add(loads, op, m);
    assert(imm_bound(is[0], env.dom()) && imm_bound(is[1], env.dom()));
    assert(imm_in_range(is[0]) && imm_in_range(is[1]));
    lemma_binary_loads_run(p, is, env, venv, m);
    if operand_error(p, a, b) is None {
        let m4 = run(loads, m)->Done_0;
        assert(slots_hold(env, venv, m4));
        lemma_prim2_op_runs(p, a, b, t, env, venv, m4);
    }
}

} // verus!
