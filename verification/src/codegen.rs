//! Code generation: from a tagged program in sequential form to x86-64 instructions
//! that work on tagged values.

use vstd::prelude::*;
use crate::frame::Frame;
use crate::lists::{concat_all, concat_upto};
use crate::names::names_of;
use crate::syntax::{
    FunDecl, FunDeclV, ImmExp, ImmExpV, Prim, SeqExp, SeqExpV, SeqProg, SeqProgV, imms_view,
    seq_decls_view,
};
use crate::text::{decimal, joined, with_number};
use crate::x86::{
    Arg32, Arg64, BinArgs, Instr, InstrV, MemRef, MovArgs, Reg, Reg32, instrs_view,
    lemma_instrs_view_add, lemma_instrs_view_push,
};

verus! {

/// The code of the run-time error "arithmetic on a boolean".
pub const ARITH_ERROR: u64 = 0;

/// The code of the run-time error "comparison of a boolean".
pub const CMP_ERROR: u64 = 1;

/// The code of the run-time error "condition is a number".
pub const IF_ERROR: u64 = 2;

/// The code of the run-time error "logic on a number".
pub const LOGIC_ERROR: u64 = 3;

/// The code of the run-time error "overflow".
pub const OVFL_ERROR: u64 = 4;

/// The bit that tells a boolean from a number.
pub const TAG_MASK: u64 = 0x0000_0000_0000_0001;

/// The bit that tells `true` from `false`.
pub const NOT_MASK: u64 = 0x8000_0000_0000_0000;

/// The value `true`.
pub const SNAKE_TRUE: u64 = 0xFFFF_FFFF_FFFF_FFFF;

/// The value `false`.
pub const SNAKE_FALSE: u64 = 0x7FFF_FFFF_FFFF_FFFF;

/// The largest number of slots and nodes for which every offset in a frame is sure
/// to fit a 32-bit displacement.
pub const FRAME_LIMIT: usize = 0x0400_0000;

/// The tagged form of the number `n`: shifted left by one, so that the tag bit is 0.
pub open spec fn tagged_int(n: i64) -> i64 {
    n << 1
}

/// The offset from the stack pointer of slot `k`, where the first slot is slot 0.
pub open spec fn slot_offset(k: nat) -> i32 {
    (-8 * (k + 1)) as i32
}

/// The operand that holds the value of `i`.
pub open spec fn imm_arg(i: ImmExpV, env: Map<Seq<char>, i32>) -> Arg64 {
    match i {
        ImmExpV::Num(n) => Arg64::Signed(tagged_int(n)),
        ImmExpV::Bool(b) => Arg64::Unsigned(
            if b {
                SNAKE_TRUE
            } else {
                SNAKE_FALSE
            },
        ),
        ImmExpV::Var(x) => Arg64::Mem(MemRef { reg: Reg::Rsp, offset: env[x] }),
    }
}

/// Whether `i` is a constant or a variable of `vars`.
pub open spec fn imm_bound(i: ImmExpV, vars: Set<Seq<char>>) -> bool {
    match i {
        ImmExpV::Var(x) => vars.contains(x),
        _ => true,
    }
}

/// `mov dst, src`.
pub open spec fn load(dst: Reg, src: Arg64) -> InstrV {
    InstrV::Mov(MovArgs::ToReg(dst, src))
}

/// `mov [rsp + offset], rax`.
pub open spec fn store(offset: int) -> InstrV {
    InstrV::Mov(
        MovArgs::ToMem(MemRef { reg: Reg::Rsp, offset: offset as i32 }, Reg32::Reg(Reg::Rax)),
    )
}

/// `mov rax, [rsp + offset]`.
pub open spec fn fetch(offset: int) -> InstrV {
    InstrV::Mov(
        MovArgs::ToReg(Reg::Rax, Arg64::Mem(MemRef { reg: Reg::Rsp, offset: offset as i32 })),
    )
}

/// The instructions that trap if the last arithmetic instruction overflowed.
pub open spec fn overflow_check_code() -> Seq<InstrV> {
    seq![
        InstrV::Comment("Check overflow"@),
        load(Reg::Rdi, Arg64::Unsigned(OVFL_ERROR)),
        load(Reg::Rsi, Arg64::Reg(Reg::Rax)),
        InstrV::Jo("snake_err"@),
    ]
}

/// The instructions that trap with `err_code` unless `reg` holds a number.
pub open spec fn num_check_code(reg: Reg, err_code: u64) -> Seq<InstrV> {
    seq![
        InstrV::Comment("Check Whether Num"@),
        load(Reg::Rdi, Arg64::Unsigned(err_code)),
        load(Reg::Rsi, Arg64::Reg(reg)),
        load(Reg::Rbx, Arg64::Unsigned(TAG_MASK)),
        InstrV::Test(BinArgs::ToReg(Reg::Rbx, Arg32::Reg(reg))),
        InstrV::Jnz("snake_err"@),
    ]
}

/// The instructions that trap with `err_code` unless `reg` holds a boolean.
pub open spec fn bool_check_code(reg: Reg, err_code: u64) -> Seq<InstrV> {
    seq![
        InstrV::Comment("Check Whether Bool"@),
        load(Reg::Rdi, Arg64::Unsigned(err_code)),
        load(Reg::Rsi, Arg64::Reg(reg)),
        load(Reg::Rbx, Arg64::Unsigned(TAG_MASK)),
        InstrV::Test(BinArgs::ToReg(Reg::Rbx, Arg32::Reg(reg))),
        InstrV::Jz("snake_err"@),
    ]
}

/// The check that a unary operation makes on its operand in `reg`.
pub open spec fn prim1_check_code(reg: Reg, p: Prim) -> Seq<InstrV> {
    match p {
        Prim::Add1 | Prim::Sub1 => num_check_code(reg, ARITH_ERROR),
        Prim::Not => bool_check_code(reg, LOGIC_ERROR),
        _ => Seq::empty(),
    }
}

/// The check that a binary operation makes on an operand in `reg`.
pub open spec fn prim2_check_code(reg: Reg, p: Prim) -> Seq<InstrV> {
    match p {
        Prim::Add | Prim::Sub | Prim::Mul => num_check_code(reg, ARITH_ERROR),
        Prim::And | Prim::Or => bool_check_code(reg, LOGIC_ERROR),
        Prim::Lt | Prim::Gt | Prim::Le | Prim::Ge | Prim::Eq | Prim::Neq => num_check_code(
            reg,
            CMP_ERROR,
        ),
        _ => Seq::empty(),
    }
}

/// The check that an `If` makes on its condition in `reg`.
pub open spec fn if_check_code(reg: Reg) -> Seq<InstrV> {
    bool_check_code(reg, IF_ERROR)
}

/// `op rax, src`, for the operation that `make` builds.
pub open spec fn on_rax(src: Arg32) -> BinArgs {
    BinArgs::ToReg(Reg::Rax, src)
}

/// The instructions of a unary operation on the value in `rax`, in a frame of `space`
/// bytes.
pub open spec fn prim1_code(p: Prim, space: i32) -> Seq<InstrV> {
    match p {
        Prim::Add1 => seq![InstrV::Comment("Add1"@), InstrV::Add(on_rax(Arg32::Signed(2)))]
            + overflow_check_code(),
        Prim::Sub1 => seq![InstrV::Comment("Sub1"@), InstrV::Sub(on_rax(Arg32::Signed(2)))]
            + overflow_check_code(),
        Prim::Not => seq![
            InstrV::Comment("Not"@),
            load(Reg::R10, Arg64::Unsigned(NOT_MASK)),
            InstrV::Xor(on_rax(Arg32::Reg(Reg::R10))),
        ],
        Prim::Print => seq![
            InstrV::Comment("Print"@),
            load(Reg::Rdi, Arg64::Reg(Reg::Rax)),
            InstrV::Sub(BinArgs::ToReg(Reg::Rsp, Arg32::Signed((space + 8) as i32))),
            InstrV::Call("print_snake_val"@),
            InstrV::Add(BinArgs::ToReg(Reg::Rsp, Arg32::Signed((space + 8) as i32))),
        ],
        Prim::IsNum => seq![
            InstrV::Comment("IsNum"@),
            load(Reg::R10, Arg64::Unsigned(TAG_MASK)),
            InstrV::And(on_rax(Arg32::Reg(Reg::R10))),
            InstrV::Shl(on_rax(Arg32::Unsigned(63))),
            load(Reg::R10, Arg64::Unsigned(SNAKE_TRUE)),
            InstrV::Xor(on_rax(Arg32::Reg(Reg::R10))),
        ],
        Prim::IsBool => seq![
            InstrV::Comment("IsBool"@),
            load(Reg::R10, Arg64::Unsigned(TAG_MASK)),
            InstrV::And(on_rax(Arg32::Reg(Reg::R10))),
            InstrV::Shl(on_rax(Arg32::Unsigned(63))),
            load(Reg::R10, Arg64::Unsigned(SNAKE_FALSE)),
            InstrV::Or(on_rax(Arg32::Reg(Reg::R10))),
        ],
        _ => Seq::empty(),
    }
}

/// The label that the comparison tagged `t` jumps to when it holds.
pub open spec fn compare_label(p: Prim, t: u32) -> Seq<char> {
    match p {
        Prim::Lt => "less_than#"@ + decimal(t as nat),
        Prim::Gt => "greater_than#"@ + decimal(t as nat),
        Prim::Le => "less_equal#"@ + decimal(t as nat),
        Prim::Ge => "greater_equal#"@ + decimal(t as nat),
        Prim::Eq => "equal#"@ + decimal(t as nat),
        _ => "unequal#"@ + decimal(t as nat),
    }
}

/// The jump to `label` that is taken when the comparison `p` holds.
pub open spec fn compare_jump(p: Prim, label: Seq<char>) -> InstrV {
    match p {
        Prim::Lt => InstrV::Jl(label),
        Prim::Gt => InstrV::Jg(label),
        Prim::Le => InstrV::Jle(label),
        Prim::Ge => InstrV::Jge(label),
        Prim::Eq => InstrV::Je(label),
        _ => InstrV::Jne(label),
    }
}

/// The instructions of the binary operation tagged `t` on the values in `rax` and
/// `r10`.
pub open spec fn prim2_code(p: Prim, t: u32) -> Seq<InstrV> {
    match p {
        Prim::Add => seq![InstrV::Comment("Add"@), InstrV::Add(on_rax(Arg32::Reg(Reg::R10)))]
            + overflow_check_code(),
        Prim::Sub => seq![InstrV::Comment("Sub"@), InstrV::Sub(on_rax(Arg32::Reg(Reg::R10)))]
            + overflow_check_code(),
        Prim::Mul => seq![
            InstrV::Comment("Mul"@),
            InstrV::Sar(on_rax(Arg32::Unsigned(1))),
            InstrV::IMul(on_rax(Arg32::Reg(Reg::R10))),
        ] + overflow_check_code(),
        Prim::And => seq![InstrV::And(on_rax(Arg32::Reg(Reg::R10)))],
        Prim::Or => seq![InstrV::Or(on_rax(Arg32::Reg(Reg::R10)))],
        Prim::Lt | Prim::Gt | Prim::Le | Prim::Ge | Prim::Eq | Prim::Neq => seq![
            InstrV::Comment("Compare"@),
            InstrV::Cmp(on_rax(Arg32::Reg(Reg::R10))),
            load(Reg::Rax, Arg64::Unsigned(SNAKE_TRUE)),
            compare_jump(p, compare_label(p, t)),
            load(Reg::Rax, Arg64::Unsigned(SNAKE_FALSE)),
            InstrV::Label(compare_label(p, t)),
        ],
        _ => Seq::empty(),
    }
}

fn emit(is: &mut Vec<Instr>, i: Instr)
    ensures
        instrs_view(final(is)@) == instrs_view(old(is)@).push(i@),
{
    proof {
        lemma_instrs_view_push(is@, i);
    }
    is.push(i);
}

fn emit_all(is: &mut Vec<Instr>, more: Vec<Instr>)
    ensures
        instrs_view(final(is)@) == instrs_view(old(is)@) + instrs_view(more@),
{
    proof {
        lemma_instrs_view_add(is@, more@);
    }
    let mut more = more;
    is.append(&mut more);
}

fn fresh() -> (is: Vec<Instr>)
    ensures
        instrs_view(is@) == Seq::<InstrV>::empty(),
{
    let is: Vec<Instr> = Vec::new();
    assert(instrs_view(is@) =~= Seq::<InstrV>::empty());
    is
}

fn comment(text: &str) -> (i: Instr)
    ensures
        i@ == InstrV::Comment(text@),
{
    Instr::Comment(String::from_str(text))
}

fn mov_to(dst: Reg, src: Arg64) -> (i: Instr)
    ensures
        i@ == load(dst, src),
{
    Instr::Mov(MovArgs::ToReg(dst, src))
}

fn store_at(offset: i32) -> (i: Instr)
    ensures
        i@ == store(offset as int),
{
    Instr::Mov(MovArgs::ToMem(MemRef { reg: Reg::Rsp, offset: offset }, Reg32::Reg(Reg::Rax)))
}

fn fetch_from(offset: i32) -> (i: Instr)
    ensures
        i@ == fetch(offset as int),
{
    Instr::Mov(MovArgs::ToReg(Reg::Rax, Arg64::Mem(MemRef { reg: Reg::Rsp, offset: offset })))
}

/// The offset of the slot of `var`, which must be in the frame.
pub fn get_offset(var: &String, env: &Frame) -> (offset: i32)
    requires
        env@.contains_key(var@),
    ensures
        offset == env@[var@],
{
    env.get(var).unwrap()
}

/// The operand that holds the value of `i`: a tagged constant, or the slot of a
/// variable.
pub fn compile_imm_to_arg(i: &ImmExp, env: &Frame) -> (a: Arg64)
    requires
        imm_bound(i@, env@.dom()),
    ensures
        a == imm_arg(i@, env@),
{
    match i {
        ImmExp::Num(n) => Arg64::Signed(*n << 1),
        ImmExp::Bool(b) => {
            if *b {
                Arg64::Unsigned(SNAKE_TRUE)
            } else {
                Arg64::Unsigned(SNAKE_FALSE)
            }
        },
        ImmExp::Var(x) => Arg64::Mem(MemRef { reg: Reg::Rsp, offset: get_offset(x, env) }),
    }
}

/// The instructions that trap if the last arithmetic instruction overflowed.
pub fn runtime_overflow_check() -> (is: Vec<Instr>)
    ensures
        instrs_view(is@) == overflow_check_code(),
{
    let mut is: Vec<Instr> = fresh();
    emit(&mut is, comment("Check overflow"));
    emit(&mut is, mov_to(Reg::Rdi, Arg64::Unsigned(OVFL_ERROR)));
    emit(&mut is, mov_to(Reg::Rsi, Arg64::Reg(Reg::Rax)));
    emit(&mut is, Instr::Jo(String::from_str("snake_err")));
    assert(instrs_view(is@) =~= overflow_check_code());
    is
}

/// The instructions that trap with `err_code` unless `reg` holds a number.
pub fn check_type_num(reg: Reg, err_code: u64) -> (is: Vec<Instr>)
    ensures
        instrs_view(is@) == num_check_code(reg, err_code),
{
    let mut is: Vec<Instr> = fresh();
    emit(&mut is, comment("Check Whether Num"));
    emit(&mut is, mov_to(Reg::Rdi, Arg64::Unsigned(err_code)));
    emit(&mut is, mov_to(Reg::Rsi, Arg64::Reg(reg)));
    emit(&mut is, mov_to(Reg::Rbx, Arg64::Unsigned(TAG_MASK)));
    emit(&mut is, Instr::Test(BinArgs::ToReg(Reg::Rbx, Arg32::Reg(reg))));
    emit(&mut is, Instr::Jnz(String::from_str("snake_err")));
    assert(instrs_view(is@) =~= num_check_code(reg, err_code));
    is
}

/// The instructions that trap with `err_code` unless `reg` holds a boolean.
pub fn check_type_bool(reg: Reg, err_code: u64) -> (is: Vec<Instr>)
    ensures
        instrs_view(is@) == bool_check_code(reg, err_code),
{
    let mut is: Vec<Instr> = fresh();
    emit(&mut is, comment("Check Whether Bool"));
    emit(&mut is, mov_to(Reg::Rdi, Arg64::Unsigned(err_code)));
    emit(&mut is, mov_to(Reg::Rsi, Arg64::Reg(reg)));
    emit(&mut is, mov_to(Reg::Rbx, Arg64::Unsigned(TAG_MASK)));
    emit(&mut is, Instr::Test(BinArgs::ToReg(Reg::Rbx, Arg32::Reg(reg))));
    emit(&mut is, Instr::Jz(String::from_str("snake_err")));
    assert(instrs_view(is@) =~= bool_check_code(reg, err_code));
    is
}

/// The check that a unary operation makes on its operand in `reg`.
pub fn runtime_prim1_check(reg: Reg, p: &Prim) -> (is: Vec<Instr>)
    ensures
        instrs_view(is@) == prim1_check_code(reg, *p),
{
    match p {
        Prim::Add1 | Prim::Sub1 => check_type_num(reg, ARITH_ERROR),
        Prim::Not => check_type_bool(reg, LOGIC_ERROR),
        _ => fresh(),
    }
}

/// The check that a binary operation makes on an operand in `reg`.
pub fn runtime_prim2_check(reg: Reg, p: &Prim) -> (is: Vec<Instr>)
    ensures
        instrs_view(is@) == prim2_check_code(reg, *p),
{
    match p {
        Prim::Add | Prim::Sub | Prim::Mul => check_type_num(reg, ARITH_ERROR),
        Prim::And | Prim::Or => check_type_bool(reg, LOGIC_ERROR),
        Prim::Lt | Prim::Gt | Prim::Le | Prim::Ge | Prim::Eq | Prim::Neq => check_type_num(
            reg,
            CMP_ERROR,
        ),
        _ => fresh(),
    }
}

/// The check that an `If` makes on its condition in `reg`.
pub fn runtime_if_check(reg: Reg) -> (is: Vec<Instr>)
    ensures
        instrs_view(is@) == if_check_code(reg),
{
    check_type_bool(reg, IF_ERROR)
}

fn rax_with(src: Arg32) -> (a: BinArgs)
    ensures
        a == on_rax(src),
{
    BinArgs::ToReg(Reg::Rax, src)
}

/// The instructions of the unary operation `p` on the value in `rax`, in a frame of
/// `space` bytes.
pub fn compile_prim1_to_instr(p: &Prim, space: i32) -> (is: Vec<Instr>)
    requires
        p.unary(),
        space <= i32::MAX - 8,
    ensures
        instrs_view(is@) == prim1_code(*p, space),
{
    let mut is: Vec<Instr> = fresh();
    match p {
        Prim::Add1 => {
            emit(&mut is, comment("Add1"));
            emit(&mut is, Instr::Add(rax_with(Arg32::Signed(2))));
            emit_all(&mut is, runtime_overflow_check());
        },
        Prim::Sub1 => {
            emit(&mut is, comment("Sub1"));
            emit(&mut is, Instr::Sub(rax_with(Arg32::Signed(2))));
            emit_all(&mut is, runtime_overflow_check());
        },
        Prim::Not => {
            emit(&mut is, comment("Not"));
            emit(&mut is, mov_to(Reg::R10, Arg64::Unsigned(NOT_MASK)));
            emit(&mut is, Instr::Xor(rax_with(Arg32::Reg(Reg::R10))));
        },
        Prim::Print => {
            emit(&mut is, comment("Print"));
            emit(&mut is, mov_to(Reg::Rdi, Arg64::Reg(Reg::Rax)));
            emit(&mut is, Instr::Sub(BinArgs::ToReg(Reg::Rsp, Arg32::Signed(space + 8))));
            emit(&mut is, Instr::Call(String::from_str("print_snake_val")));
            emit(&mut is, Instr::Add(BinArgs::ToReg(Reg::Rsp, Arg32::Signed(space + 8))));
        },
        Prim::IsNum => {
            emit(&mut is, comment("IsNum"));
            emit(&mut is, mov_to(Reg::R10, Arg64::Unsigned(TAG_MASK)));
            emit(&mut is, Instr::And(rax_with(Arg32::Reg(Reg::R10))));
            emit(&mut is, Instr::Shl(rax_with(Arg32::Unsigned(63))));
            emit(&mut is, mov_to(Reg::R10, Arg64::Unsigned(SNAKE_TRUE)));
            emit(&mut is, Instr::Xor(rax_with(Arg32::Reg(Reg::R10))));
        },
        Prim::IsBool => {
            emit(&mut is, comment("IsBool"));
            emit(&mut is, mov_to(Reg::R10, Arg64::Unsigned(TAG_MASK)));
            emit(&mut is, Instr::And(rax_with(Arg32::Reg(Reg::R10))));
            emit(&mut is, Instr::Shl(rax_with(Arg32::Unsigned(63))));
            emit(&mut is, mov_to(Reg::R10, Arg64::Unsigned(SNAKE_FALSE)));
            emit(&mut is, Instr::Or(rax_with(Arg32::Reg(Reg::R10))));
        },
        _ => {},
    }
    assert(instrs_view(is@) =~= prim1_code(*p, space));
    is
}

fn compare_label_string(p: &Prim, t: u32) -> (s: String)
    ensures
        s@ == compare_label(*p, t),
{
    match p {
        Prim::Lt => with_number("less_than#", t as u64),
        Prim::Gt => with_number("greater_than#", t as u64),
        Prim::Le => with_number("less_equal#", t as u64),
        Prim::Ge => with_number("greater_equal#", t as u64),
        Prim::Eq => with_number("equal#", t as u64),
        _ => with_number("unequal#", t as u64),
    }
}

fn compare_jump_to(p: &Prim, label: String) -> (i: Instr)
    ensures
        i@ == compare_jump(*p, label@),
{
    match p {
        Prim::Lt => Instr::Jl(label),
        Prim::Gt => Instr::Jg(label),
        Prim::Le => Instr::Jle(label),
        Prim::Ge => Instr::Jge(label),
        Prim::Eq => Instr::Je(label),
        _ => Instr::Jne(label),
    }
}

/// The instructions of the binary operation `p`, tagged `ann`, on the values in `rax`
/// and `r10`.
pub fn compile_prim2_to_instr(p: &Prim, ann: u32) -> (is: Vec<Instr>)
    requires
        !p.unary(),
    ensures
        instrs_view(is@) == prim2_code(*p, ann),
{
    let mut is: Vec<Instr> = fresh();
    match p {
        Prim::Add => {
            emit(&mut is, comment("Add"));
            emit(&mut is, Instr::Add(rax_with(Arg32::Reg(Reg::R10))));
            emit_all(&mut is, runtime_overflow_check());
        },
        Prim::Sub => {
            emit(&mut is, comment("Sub"));
            emit(&mut is, Instr::Sub(rax_with(Arg32::Reg(Reg::R10))));
            emit_all(&mut is, runtime_overflow_check());
        },
        Prim::Mul => {
            emit(&mut is, comment("Mul"));
            emit(&mut is, Instr::Sar(rax_with(Arg32::Unsigned(1))));
            emit(&mut is, Instr::IMul(rax_with(Arg32::Reg(Reg::R10))));
            emit_all(&mut is, runtime_overflow_check());
        },
        Prim::And => {
            emit(&mut is, Instr::And(rax_with(Arg32::Reg(Reg::R10))));
        },
        Prim::Or => {
            emit(&mut is, Instr::Or(rax_with(Arg32::Reg(Reg::R10))));
        },
        _ => {
            let label = compare_label_string(p, ann);
            emit(&mut is, comment("Compare"));
            emit(&mut is, Instr::Cmp(rax_with(Arg32::Reg(Reg::R10))));
            emit(&mut is, mov_to(Reg::Rax, Arg64::Unsigned(SNAKE_TRUE)));
            emit(&mut is, compare_jump_to(p, label.clone()));
            emit(&mut is, mov_to(Reg::Rax, Arg64::Unsigned(SNAKE_FALSE)));
            emit(&mut is, Instr::Label(label));
        },
    }
    assert(instrs_view(is@) =~= prim2_code(*p, ann));
    is
}

/// The larger of two numbers.
pub open spec fn larger(a: nat, b: nat) -> nat {
    if a >= b {
        a
    } else {
        b
    }
}

/// The largest number of slots that one of the first `n` declarations needs: for its
/// parameters, which lie in the first slots of the frame while its body runs, and
/// for the variables that its body binds.
pub open spec fn decl_slots<A>(ds: Seq<FunDeclV<SeqExpV<A>, A>>, n: int) -> nat
    decreases ds, n,
{
    if n <= 0 || n > ds.len() {
        0
    } else {
        larger(
            decl_slots(ds, n - 1),
            ds[n - 1].parameters.len() + slots_needed(ds[n - 1].body),
        )
    }
}

/// The number of slots that `e` needs for the variables it binds: the most that are
/// live at once, and for a group of local functions the most that one of them needs
/// beside what the expression under the group needs.
pub open spec fn slots_needed<A>(e: SeqExpV<A>) -> nat
    decreases e,
{
    match e {
        SeqExpV::Let { bound_exp, body, .. } => larger(
            slots_needed(*bound_exp),
            1 + slots_needed(*body),
        ),
        SeqExpV::If { thn, els, .. } => larger(slots_needed(*thn), slots_needed(*els)),
        SeqExpV::FunDefs { decls, body, .. } => decl_slots(decls, decls.len() as int)
            + slots_needed(*body),
        _ => 0,
    }
}

/// The size in bytes of the frame of a function with body `e` and `arg_num`
/// parameters: eight bytes for each slot, and an odd number of slots, so that the
/// stack stays aligned at every call.
pub open spec fn frame_bytes<A>(e: SeqExpV<A>, arg_num: nat) -> nat {
    let n = slots_needed(e) + arg_num;
    if n % 2 == 0 {
        8 * (n + 1)
    } else {
        8 * n
    }
}

/// The most slots that the first `n` declarations reach: of each, its parameters
/// and what its body reaches beyond them.
pub open spec fn decls_reach<A>(ds: Seq<FunDeclV<SeqExpV<A>, A>>, n: int) -> nat
    decreases ds, n,
{
    if n <= 0 || n > ds.len() {
        0
    } else {
        larger(decls_reach(ds, n - 1), ds[n - 1].parameters.len() + reach(ds[n - 1].body))
    }
}

/// How far beyond the variables in scope the code of `e` reaches: the most
/// variables that it binds at once, the most arguments that one of its calls puts
/// below the frame, and, for a local function, its parameters and what its body
/// reaches beyond them. Every offset in the code of `e` comes from one of these.
pub open spec fn reach<A>(e: SeqExpV<A>) -> nat
    decreases e,
{
    match e {
        SeqExpV::Let { bound_exp, body, .. } => larger(reach(*bound_exp), 1 + reach(*body)),
        SeqExpV::If { thn, els, .. } => larger(reach(*thn), reach(*els)),
        SeqExpV::FunDefs { decls, body, .. } => larger(
            decls_reach(decls, decls.len() as int),
            reach(*body),
        ),
        SeqExpV::InternalTailCall(_, args, _) => args.len(),
        SeqExpV::ExternalCall { args, .. } => args.len(),
        _ => 0,
    }
}

/// Whether 32-bit offsets can address the frame of a function with `n` parameters
/// and the body `e`: neither the slots that the body needs nor what its code
/// reaches go beyond the limit.
pub open spec fn frame_fits<A>(e: SeqExpV<A>, n: nat) -> bool {
    n + slots_needed(e) <= FRAME_LIMIT && n + reach(e) <= FRAME_LIMIT
}

/// Whether code can be generated for `e` where the variables `vars` are in scope:
/// every variable it reads is in scope where it is read, and every primitive operation
/// has as many operands as it takes.
pub open spec fn code_ready<A>(e: SeqExpV<A>, vars: Set<Seq<char>>) -> bool
    decreases e,
{
    match e {
        SeqExpV::Imm(i, _) => imm_bound(i, vars),
        SeqExpV::Prim(p, is, _) => {
            &&& is.len() == p.arity()
            &&& forall|k: int| 0 <= k < is.len() ==> imm_bound(#[trigger] is[k], vars)
        },
        SeqExpV::Let { var, bound_exp, body, .. } => {
            &&& code_ready(*bound_exp, vars)
            &&& code_ready(*body, vars.insert(var))
        },
        SeqExpV::If { cond, thn, els, .. } => {
            &&& imm_bound(cond, vars)
            &&& code_ready(*thn, vars)
            &&& code_ready(*els, vars)
        },
        SeqExpV::FunDefs { decls, body, .. } => {
            &&& forall|k: int|
                0 <= k < decls.len() ==> code_ready(
                    (#[trigger] decls[k]).body,
                    decls[k].parameters.to_set(),
                )
            &&& code_ready(*body, vars)
        },
        SeqExpV::InternalTailCall(_, args, _) => forall|k: int|
            0 <= k < args.len() ==> imm_bound(#[trigger] args[k], vars),
        SeqExpV::ExternalCall { args, .. } => forall|k: int|
            0 <= k < args.len() ==> imm_bound(#[trigger] args[k], vars),
    }
}

/// The instructions that put the first `n` arguments of a call below the frame: argument
/// `k` goes to `space + 16 + 8 * k` bytes below the stack pointer.
pub open spec fn stage_args(args: Seq<ImmExpV>, n: int, env: Map<Seq<char>, i32>, space: i32) -> Seq<
    InstrV,
>
    decreases n,
{
    if n <= 0 || n > args.len() {
        Seq::empty()
    } else {
        stage_args(args, n - 1, env, space) + seq![
            load(Reg::Rax, imm_arg(args[n - 1], env)),
            store(-space - (16 + 8 * (n - 1))),
        ]
    }
}

/// The instructions that move `n` staged arguments up into the first `n` slots of
/// the current frame.
pub open spec fn shift_args(n: int, space: i32) -> Seq<InstrV>
    decreases n,
{
    if n <= 0 {
        Seq::empty()
    } else {
        shift_args(n - 1, space) + seq![fetch(-space - 8 * n - 8), store(-8 * n)]
    }
}

/// The frame of a function at its entry: parameter `k` is in slot `k`.
pub open spec fn entry_frame(params: Seq<Seq<char>>, n: int) -> Map<Seq<char>, i32>
    decreases n,
{
    if n <= 0 || n > params.len() {
        Map::empty()
    } else {
        entry_frame(params, n - 1).insert(params[n - 1], slot_offset((n - 1) as nat))
    }
}

/// The label that the `If` tagged `t` jumps to when its condition is false.
pub open spec fn else_label(t: u32) -> Seq<char> {
    "if_false#"@ + decimal(t as nat)
}

/// The label at the end of the `If` tagged `t`.
pub open spec fn done_label(t: u32) -> Seq<char> {
    "done#"@ + decimal(t as nat)
}

/// For each local declaration, its label, the code of its body, and a return. The
/// body finds the parameters in the first slots of the frame, where a call puts
/// its arguments.
pub open spec fn decl_codes(ds: Seq<FunDeclV<SeqExpV<u32>, u32>>, space: i32) -> Seq<Seq<InstrV>>
    decreases ds,
{
    Seq::new(
        ds.len(),
        |k: int|
            if 0 <= k < ds.len() {
                seq![InstrV::Label(ds[k].name)] + exp_code(
                    ds[k].body,
                    entry_frame(ds[k].parameters, ds[k].parameters.len() as int),
                    space,
                ) + seq![InstrV::Ret]
            } else {
                Seq::empty()
            },
    )
}

/// The instructions that leave the value of `e` in `rax`, where `env` gives the slot
/// of each variable in scope and the frame is `space` bytes large.
pub open spec fn exp_code(e: SeqExpV<u32>, env: Map<Seq<char>, i32>, space: i32) -> Seq<InstrV>
    decreases e,
{
    match e {
        SeqExpV::Imm(i, _) => seq![load(Reg::Rax, imm_arg(i, env))],
        SeqExpV::Prim(p, is, t) => {
            if p.unary() && is.len() >= 1 {
                seq![InstrV::Comment("Prim1"@), load(Reg::Rax, imm_arg(is[0], env))]
                    + prim1_check_code(Reg::Rax, p) + prim1_code(p, space)
            } else if !p.unary() && is.len() >= 2 {
                seq![InstrV::Comment("Prim2"@), load(Reg::Rax, imm_arg(is[0], env))]
                    + prim2_check_code(Reg::Rax, p) + seq![load(Reg::R10, imm_arg(is[1], env))]
                    + prim2_check_code(Reg::R10, p) + prim2_code(p, t)
            } else {
                Seq::empty()
            }
        },
        SeqExpV::Let { var, bound_exp, body, .. } => exp_code(*bound_exp, env, space) + seq![
            InstrV::Comment("Let var: "@ + var),
            store(slot_offset(env.len()) as int),
        ] + exp_code(*body, env.insert(var, slot_offset(env.len())), space),
        SeqExpV::If { cond, thn, els, ann } => seq![
            InstrV::Comment("If"@),
            load(Reg::Rax, imm_arg(cond, env)),
        ] + if_check_code(Reg::Rax) + seq![
            load(Reg::R10, Arg64::Unsigned(SNAKE_FALSE)),
            InstrV::Cmp(on_rax(Arg32::Reg(Reg::R10))),
            InstrV::Je(else_label(ann)),
        ] + exp_code(*thn, env, space) + seq![
            InstrV::Jmp(done_label(ann)),
            InstrV::Label(else_label(ann)),
        ] + exp_code(*els, env, space) + seq![InstrV::Label(done_label(ann))],
        SeqExpV::FunDefs { decls, body, ann } => seq![
            InstrV::Comment("FunDefs"@ + decimal(ann as nat) + "_body"@),
        ] + exp_code(*body, env, space) + seq![
            InstrV::Ret,
            InstrV::Comment("FunDefs"@ + decimal(ann as nat) + "_decls"@),
        ] + concat_all(decl_codes(decls, space)),
        SeqExpV::InternalTailCall(f, args, _) => seq![InstrV::Comment("InCall"@)] + stage_args(
            args,
            args.len() as int,
            env,
            space,
        ) + shift_args(args.len() as int, space) + seq![InstrV::Jmp(f)],
        SeqExpV::ExternalCall { fun_name, args, is_tail, .. } => seq![InstrV::Comment("ExCall"@)]
            + stage_args(args, args.len() as int, env, space) + (if is_tail {
            shift_args(args.len() as int, space) + seq![InstrV::Jmp(fun_name)]
        } else {
            seq![
                InstrV::Sub(BinArgs::ToReg(Reg::Rsp, Arg32::Signed(space))),
                InstrV::Call(fun_name),
                InstrV::Add(BinArgs::ToReg(Reg::Rsp, Arg32::Signed(space))),
            ]
        }),
    }
}

/// For each top-level function, its label, the code of its body in a frame of its own,
/// and a return.
pub open spec fn fun_codes(funs: Seq<FunDeclV<SeqExpV<u32>, u32>>) -> Seq<Seq<InstrV>> {
    Seq::new(
        funs.len(),
        |k: int|
            seq![InstrV::Label(funs[k].name)] + exp_code(
                funs[k].body,
                entry_frame(funs[k].parameters, funs[k].parameters.len() as int),
                frame_bytes(funs[k].body, funs[k].parameters.len()) as i32,
            ) + seq![InstrV::Ret],
    )
}

/// The instructions of a whole program: the entry point, which calls `main`; `main`;
/// the top-level functions; and the trap that every failed check jumps to.
pub open spec fn prog_code(p: SeqProgV<u32>) -> Seq<InstrV> {
    seq![InstrV::Call("main"@), InstrV::Ret, InstrV::Label("main"@)] + exp_code(
        p.main,
        Map::empty(),
        frame_bytes(p.main, 0) as i32,
    ) + seq![InstrV::Ret, InstrV::Comment("Global FunDecls"@)] + concat_all(fun_codes(p.funs))
        + seq![InstrV::Label("snake_err"@), InstrV::Call("snake_error"@)]
}

/// Whether code can be generated for the program `p`: for its main expression with no
/// variable in scope, for each function with its parameters in scope, and with frames
/// that 32-bit offsets can address.
pub open spec fn prog_ready(p: SeqProgV<u32>) -> bool {
    &&& code_ready(p.main, Set::empty())
    &&& frame_fits(p.main, 0)
    &&& forall|k: int|
        0 <= k < p.funs.len() ==> code_ready(
            (#[trigger] p.funs[k]).body,
            p.funs[k].parameters.to_set(),
        )
    &&& forall|k: int|
        0 <= k < p.funs.len() ==> frame_fits(
            (#[trigger] p.funs[k]).body,
            p.funs[k].parameters.len(),
        )
}

/// A declaration of a group needs no more slots than the group.
proof fn lemma_decl_slots_member<A>(ds: Seq<FunDeclV<SeqExpV<A>, A>>, n: int, k: int)
    requires
        0 <= k < n <= ds.len(),
    ensures
        ds[k].parameters.len() + slots_needed(ds[k].body) <= decl_slots(ds, n),
    decreases n,
{
    if k < n - 1 {
        lemma_decl_slots_member(ds, n - 1, k);
    }
}

/// A declaration of a group reaches no further than the group.
proof fn lemma_decls_reach_member<A>(ds: Seq<FunDeclV<SeqExpV<A>, A>>, n: int, k: int)
    requires
        0 <= k < n <= ds.len(),
    ensures
        ds[k].parameters.len() + reach(ds[k].body) <= decls_reach(ds, n),
    decreases n,
{
    if k < n - 1 {
        lemma_decls_reach_member(ds, n - 1, k);
    }
}

fn group_slots(decls: &Vec<FunDecl<SeqExp<u32>, u32>>) -> (n: i32)
    requires
        decl_slots(seq_decls_view(decls@), decls.len() as int) <= i32::MAX,
    ensures
        n == decl_slots(seq_decls_view(decls@), decls.len() as int),
    decreases decls,
{
    let ghost dv = seq_decls_view(decls@);
    let mut most: i32 = 0;
    let mut k: usize = 0;
    while k < decls.len()
        invariant
            k <= decls.len(),
            dv == seq_decls_view(decls@),
            decl_slots(dv, decls.len() as int) <= i32::MAX,
            most == decl_slots(dv, k as int),
        decreases decls.len() - k,
    {
        proof {
            lemma_decl_slots_member(dv, decls.len() as int, k as int);
        }
        assert(dv[k as int].body == decls[k as int].body@);
        assert(dv[k as int].parameters == names_of(decls[k as int].parameters@));
        let here: i32 = decls[k].parameters.len() as i32 + space_needed_helper(&decls[k].body);
        if here > most {
            most = here;
        }
        k += 1;
    }
    most
}

/// The number of slots that `e` needs for the variables it binds.
pub fn space_needed_helper(e: &SeqExp<u32>) -> (n: i32)
    requires
        slots_needed(e@) <= i32::MAX,
    ensures
        n == slots_needed(e@),
    decreases e,
{
    match e {
        SeqExp::Let { bound_exp, body, .. } => {
            let a: i32 = space_needed_helper(bound_exp);
            let b: i32 = 1 + space_needed_helper(body);
            if a >= b {
                a
            } else {
                b
            }
        },
        SeqExp::If { thn, els, .. } => {
            let a: i32 = space_needed_helper(thn);
            let b: i32 = space_needed_helper(els);
            if a >= b {
                a
            } else {
                b
            }
        },
        SeqExp::FunDefs { decls, body, .. } => {
            assert(e@->FunDefs_decls == seq_decls_view(decls@));
            let most: i32 = group_slots(decls);
            most + space_needed_helper(body)
        },
        _ => 0,
    }
}

/// The size in bytes of the frame of a function with body `e` and `arg_num`
/// parameters.
pub fn space_needed(e: &SeqExp<u32>, arg_num: i32) -> (n: i32)
    requires
        0 <= arg_num,
        8 * (slots_needed(e@) + arg_num + 1) <= i32::MAX,
    ensures
        n == frame_bytes(e@, arg_num as nat),
{
    let var_num: i32 = space_needed_helper(e) + arg_num;
    if var_num % 2 == 0 {
        8 * (var_num + 1)
    } else {
        8 * var_num
    }
}

fn slot_of(k: usize) -> (offset: i32)
    requires
        k <= FRAME_LIMIT,
    ensures
        offset == slot_offset(k as nat),
{
    -8 * (k as i32 + 1)
}

fn entry(params: &Vec<String>) -> (r: Frame)
    requires
        params.len() <= FRAME_LIMIT,
    ensures
        r.wf(),
        r@ == entry_frame(names_of(params@), params.len() as int),
        r@.len() <= params.len(),
        r@.dom() == names_of(params@).to_set(),
{
    let ghost ps = names_of(params@);
    let mut r: Frame = Frame::new();
    let mut k: usize = 0;
    assert(r@.dom() =~= ps.take(0).to_set());
    while k < params.len()
        invariant
            k <= params.len(),
            ps == names_of(params@),
            params.len() <= FRAME_LIMIT,
            r.wf(),
            r@ == entry_frame(ps, k as int),
            r@.len() <= k,
            r@.dom() == ps.take(k as int).to_set(),
        decreases params.len() - k,
    {
        let ghost before = r@;
        r.insert(params[k].clone(), slot_of(k));
        proof {
            assert(ps.take(k + 1) =~= ps.take(k as int).push(ps[k as int]));
            ps.take(k as int).lemma_push_to_set_commute(ps[k as int]);
            assert(r@.dom() =~= before.dom().insert(ps[k as int]));
        }
        k += 1;
    }
    assert(ps.take(params.len() as int) =~= ps);
    r
}

fn stage(is: &mut Vec<Instr>, args: &Vec<ImmExp>, env: &Frame, space: i32)
    requires
        forall|k: int|
            0 <= k < imms_view(args@).len() ==> imm_bound(#[trigger] imms_view(args@)[k], env@.dom()),
        args.len() <= FRAME_LIMIT,
        0 <= space <= 8 * (FRAME_LIMIT + 1),
    ensures
        instrs_view(final(is)@) == instrs_view(old(is)@) + stage_args(
            imms_view(args@),
            args.len() as int,
            env@,
            space,
        ),
{
    let ghost base = instrs_view(is@);
    let ghost av = imms_view(args@);
    let mut count: i32 = 16;
    let mut k: usize = 0;
    assert(base =~= base + stage_args(av, 0, env@, space));
    while k < args.len()
        invariant
            k <= args.len(),
            av == imms_view(args@),
            forall|k: int| 0 <= k < av.len() ==> imm_bound(#[trigger] av[k], env@.dom()),
            args.len() <= FRAME_LIMIT,
            0 <= space <= 8 * (FRAME_LIMIT + 1),
            count == 16 + 8 * k,
            instrs_view(is@) == base + stage_args(av, k as int, env@, space),
        decreases args.len() - k,
    {
        assert(av[k as int] == args[k as int]@);
        emit(is, mov_to(Reg::Rax, compile_imm_to_arg(&args[k], env)));
        emit(is, store_at(-space - count));
        assert(instrs_view(is@) =~= base + stage_args(av, k + 1, env@, space));
        count += 8;
        k += 1;
    }
}

fn shift(is: &mut Vec<Instr>, n: usize, space: i32)
    requires
        n <= FRAME_LIMIT,
        0 <= space <= 8 * (FRAME_LIMIT + 1),
    ensures
        instrs_view(final(is)@) == instrs_view(old(is)@) + shift_args(n as int, space),
{
    let ghost base = instrs_view(is@);
    let mut arg_idx: i32 = 8;
    let mut k: usize = 0;
    assert(base =~= base + shift_args(0, space));
    while k < n
        invariant
            k <= n,
            n <= FRAME_LIMIT,
            0 <= space <= 8 * (FRAME_LIMIT + 1),
            arg_idx == 8 * (k + 1),
            instrs_view(is@) == base + shift_args(k as int, space),
        decreases n - k,
    {
        emit(is, fetch_from(-space - arg_idx - 8));
        emit(is, store_at(-arg_idx));
        assert(instrs_view(is@) =~= base + shift_args(k + 1, space));
        arg_idx += 8;
        k += 1;
    }
}

fn compile_prim(p: &Prim, operands: &Vec<ImmExp>, ann: u32, env: &Frame, space: i32) -> (is: Vec<
    Instr,
>)
    requires
        imms_view(operands@).len() == p.arity(),
        forall|k: int|
            0 <= k < imms_view(operands@).len() ==> imm_bound(
                #[trigger] imms_view(operands@)[k],
                env@.dom(),
            ),
        0 <= space <= 8 * (FRAME_LIMIT + 1),
    ensures
        instrs_view(is@) == exp_code(SeqExpV::Prim(*p, imms_view(operands@), ann), env@, space),
{
    let ghost ov = imms_view(operands@);
    let mut is: Vec<Instr> = fresh();
    assert(ov[0] == operands[0]@);
    if p.is_unary() {
        emit(&mut is, comment("Prim1"));
        emit(&mut is, mov_to(Reg::Rax, compile_imm_to_arg(&operands[0], env)));
        emit_all(&mut is, runtime_prim1_check(Reg::Rax, p));
        emit_all(&mut is, compile_prim1_to_instr(p, space));
        assert(instrs_view(is@) =~= exp_code(SeqExpV::Prim(*p, ov, ann), env@, space));
    } else {
        assert(ov[1] == operands[1]@);
        emit(&mut is, comment("Prim2"));
        emit(&mut is, mov_to(Reg::Rax, compile_imm_to_arg(&operands[0], env)));
        emit_all(&mut is, runtime_prim2_check(Reg::Rax, p));
        emit(&mut is, mov_to(Reg::R10, compile_imm_to_arg(&operands[1], env)));
        emit_all(&mut is, runtime_prim2_check(Reg::R10, p));
        emit_all(&mut is, compile_prim2_to_instr(p, ann));
        assert(instrs_view(is@) =~= exp_code(SeqExpV::Prim(*p, ov, ann), env@, space));
    }
    is
}

fn compile_decls(decls: &Vec<FunDecl<SeqExp<u32>, u32>>, space: i32) -> (is: Vec<Instr>)
    requires
        forall|k: int|
            0 <= k < seq_decls_view(decls@).len() ==> code_ready(
                (#[trigger] seq_decls_view(decls@)[k]).body,
                seq_decls_view(decls@)[k].parameters.to_set(),
            ),
        decls_reach(seq_decls_view(decls@), decls.len() as int) <= FRAME_LIMIT,
        0 <= space <= 8 * (FRAME_LIMIT + 1),
    ensures
        instrs_view(is@) == concat_all(decl_codes(seq_decls_view(decls@), space)),
    decreases decls,
{
    let ghost dv = seq_decls_view(decls@);
    let ghost codes = decl_codes(dv, space);
    let mut is: Vec<Instr> = fresh();
    let mut k: usize = 0;
    while k < decls.len()
        invariant
            k <= decls.len(),
            dv == seq_decls_view(decls@),
            codes == decl_codes(dv, space),
            forall|k: int|
                0 <= k < dv.len() ==> code_ready((#[trigger] dv[k]).body, dv[k].parameters.to_set()),
            decls_reach(dv, decls.len() as int) <= FRAME_LIMIT,
            0 <= space <= 8 * (FRAME_LIMIT + 1),
            instrs_view(is@) == concat_upto(codes, k as int),
        decreases decls.len() - k,
    {
        let d = &decls[k];
        proof {
            lemma_decls_reach_member(dv, decls.len() as int, k as int);
        }
        assert(dv[k as int].body == d.body@);
        assert(dv[k as int].name == d.name@);
        assert(dv[k as int].parameters == names_of(d.parameters@));
        emit(&mut is, Instr::Label(d.name.clone()));
        let inner: Frame = entry(&d.parameters);
        emit_all(&mut is, compile_to_instrs_help(&d.body, &inner, space));
        emit(&mut is, Instr::Ret);
        assert(instrs_view(is@) =~= concat_upto(codes, k as int) + codes[k as int]);
        k += 1;
    }
    is
}

/// The instructions that leave the value of `e` in `rax`, where `env` gives the slot
/// of each variable in scope and the frame is `space` bytes large.
pub fn compile_to_instrs_help(e: &SeqExp<u32>, env: &Frame, space: i32) -> (is: Vec<Instr>)
    requires
        env.wf(),
        code_ready(e@, env@.dom()),
        env@.len() + reach(e@) <= FRAME_LIMIT,
        0 <= space <= 8 * (FRAME_LIMIT + 1),
    ensures
        instrs_view(is@) == exp_code(e@, env@, space),
    decreases e,
{
    let mut is: Vec<Instr> = fresh();
    match e {
        SeqExp::Imm(i, _) => {
            emit(&mut is, mov_to(Reg::Rax, compile_imm_to_arg(i, env)));
            assert(instrs_view(is@) =~= exp_code(e@, env@, space));
            is
        },
        SeqExp::Prim(p, operands, ann) => {
            assert(e@ == SeqExpV::Prim(*p, imms_view(operands@), *ann));
            compile_prim(p, operands, *ann, env, space)
        },
        SeqExp::Let { var, bound_exp, body, .. } => {
            emit_all(&mut is, compile_to_instrs_help(bound_exp, env, space));
            emit(&mut is, Instr::Comment(joined("Let var: ", var.as_str())));
            let offset: i32 = slot_of(env.len());
            let mut inner: Frame = env.copy();
            inner.insert(var.clone(), offset);
            assert(inner@.dom() =~= env@.dom().insert(var@));
            emit(&mut is, store_at(offset));
            emit_all(&mut is, compile_to_instrs_help(body, &inner, space));
            assert(instrs_view(is@) =~= exp_code(e@, env@, space));
            is
        },
        SeqExp::If { cond, thn, els, ann } => {
            let else_lab: String = with_number("if_false#", *ann as u64);
            let done_lab: String = with_number("done#", *ann as u64);
            emit(&mut is, comment("If"));
            emit(&mut is, mov_to(Reg::Rax, compile_imm_to_arg(cond, env)));
            emit_all(&mut is, runtime_if_check(Reg::Rax));
            emit(&mut is, mov_to(Reg::R10, Arg64::Unsigned(SNAKE_FALSE)));
            emit(&mut is, Instr::Cmp(rax_with(Arg32::Reg(Reg::R10))));
            emit(&mut is, Instr::Je(else_lab.clone()));
            emit_all(&mut is, compile_to_instrs_help(thn, env, space));
            emit(&mut is, Instr::Jmp(done_lab.clone()));
            emit(&mut is, Instr::Label(else_lab));
            emit_all(&mut is, compile_to_instrs_help(els, env, space));
            emit(&mut is, Instr::Label(done_lab));
            assert(instrs_view(is@) =~= exp_code(e@, env@, space));
            is
        },
        SeqExp::FunDefs { decls, body, ann } => {
            assert(e@->FunDefs_decls == seq_decls_view(decls@));
            let mut head: String = with_number("FunDefs", *ann as u64);
            head.append("_body");
            let mut middle: String = with_number("FunDefs", *ann as u64);
            middle.append("_decls");
            emit(&mut is, Instr::Comment(head));
            emit_all(&mut is, compile_to_instrs_help(body, env, space));
            emit(&mut is, Instr::Ret);
            emit(&mut is, Instr::Comment(middle));
            emit_all(&mut is, compile_decls(decls, space));
            assert(instrs_view(is@) =~= exp_code(e@, env@, space));
            is
        },
        SeqExp::InternalTailCall(f, args, _) => {
            assert(e@->InternalTailCall_1 == imms_view(args@));
            emit(&mut is, comment("InCall"));
            stage(&mut is, args, env, space);
            shift(&mut is, args.len(), space);
            emit(&mut is, Instr::Jmp(f.clone()));
            assert(instrs_view(is@) =~= exp_code(e@, env@, space));
            is
        },
        SeqExp::ExternalCall { fun_name, args, is_tail, .. } => {
            assert(e@->ExternalCall_args == imms_view(args@));
            emit(&mut is, comment("ExCall"));
            stage(&mut is, args, env, space);
            if *is_tail {
                shift(&mut is, args.len(), space);
                emit(&mut is, Instr::Jmp(fun_name.clone()));
            } else {
                emit(&mut is, Instr::Sub(BinArgs::ToReg(Reg::Rsp, Arg32::Signed(space))));
                emit(&mut is, Instr::Call(fun_name.clone()));
                emit(&mut is, Instr::Add(BinArgs::ToReg(Reg::Rsp, Arg32::Signed(space))));
            }
            assert(instrs_view(is@) =~= exp_code(e@, env@, space));
            is
        },
    }
}

/// The instructions of a whole program.
pub fn compile_to_instrs(p: &SeqProg<u32>) -> (is: Vec<Instr>)
    requires
        prog_ready(p@),
    ensures
        instrs_view(is@) == prog_code(p@),
{
    let ghost funs = p@.funs;
    let ghost codes = fun_codes(funs);
    let mut is: Vec<Instr> = fresh();
    emit(&mut is, Instr::Call(String::from_str("main")));
    emit(&mut is, Instr::Ret);
    emit(&mut is, Instr::Label(String::from_str("main")));
    let main_env: Frame = Frame::new();
    assert(main_env@.dom() =~= Set::<Seq<char>>::empty());
    let main_space: i32 = space_needed(&p.main, 0);
    emit_all(&mut is, compile_to_instrs_help(&p.main, &main_env, main_space));
    emit(&mut is, Instr::Ret);
    emit(&mut is, comment("Global FunDecls"));
    let ghost head = instrs_view(is@);
    assert(head =~= head + concat_upto(codes, 0));
    let mut k: usize = 0;
    while k < p.funs.len()
        invariant
            k <= p.funs.len(),
            funs == p@.funs,
            funs == seq_decls_view(p.funs@),
            codes == fun_codes(funs),
            prog_ready(p@),
            instrs_view(is@) == head + concat_upto(codes, k as int),
        decreases p.funs.len() - k,
    {
        let fun = &p.funs[k];
        assert(funs[k as int].body == fun.body@);
        assert(funs[k as int].name == fun.name@);
        assert(funs[k as int].parameters == names_of(fun.parameters@));
        emit(&mut is, Instr::Label(fun.name.clone()));
        let env: Frame = entry(&fun.parameters);
        let num_pars: i32 = fun.parameters.len() as i32;
        let space: i32 = space_needed(&fun.body, num_pars);
        emit_all(&mut is, compile_to_instrs_help(&fun.body, &env, space));
        emit(&mut is, Instr::Ret);
        assert(instrs_view(is@) =~= head + (concat_upto(codes, k as int) + codes[k as int]));
        k += 1;
    }
    emit(&mut is, Instr::Label(String::from_str("snake_err")));
    emit(&mut is, Instr::Call(String::from_str("snake_error")));
    assert(instrs_view(is@) =~= prog_code(p@));
    is
}

/// Whether `code` ends with the instructions `tail`.
pub open spec fn ends_with(code: Seq<InstrV>, tail: Seq<InstrV>) -> bool {
    code.len() >= tail.len() && code.subrange(code.len() - tail.len(), code.len() as int) == tail
}

/// A frame holds an odd number of slots, so that the stack pointer, which is a
/// multiple of 16 at the entry of a function, is a multiple of 16 again after the
/// frame and a return address are below it; and it holds a slot for every parameter
/// and for every variable that is live at once.
pub proof fn lemma_frame_keeps_alignment<A>(e: SeqExpV<A>, arg_num: nat)
    ensures
        frame_bytes(e, arg_num) % 16 == 8,
        frame_bytes(e, arg_num) >= 8 * (slots_needed(e) + arg_num),
{
}

/// The code of every arithmetic operation ends with the check that traps on
/// overflow, and that check ends with the jump to the trap.
pub proof fn lemma_arithmetic_checks_overflow(p: Prim, space: i32, t: u32)
    ensures
        p == Prim::Add1 || p == Prim::Sub1 ==> ends_with(prim1_code(p, space), overflow_check_code()),
        p == Prim::Add || p == Prim::Sub || p == Prim::Mul ==> ends_with(
            prim2_code(p, t),
            overflow_check_code(),
        ),
        overflow_check_code()[1] == load(Reg::Rdi, Arg64::Unsigned(OVFL_ERROR)),
        overflow_check_code().last() == InstrV::Jo("snake_err"@),
{
    let check = overflow_check_code();
    if p == Prim::Add1 || p == Prim::Sub1 {
        let code = prim1_code(p, space);
        assert(code.subrange(code.len() - check.len(), code.len() as int) =~= check);
    }
    if p == Prim::Add || p == Prim::Sub || p == Prim::Mul {
        let code = prim2_code(p, t);
        assert(code.subrange(code.len() - check.len(), code.len() as int) =~= check);
    }
}

/// A check of the kind of a value puts the code of its error in `rdi` and the value
/// in `rsi`, and ends with the jump to the trap: taken for a boolean where a number
/// is expected, and for a number where a boolean is expected.
pub proof fn lemma_checks_name_their_error(reg: Reg, err_code: u64)
    ensures
        num_check_code(reg, err_code)[1] == load(Reg::Rdi, Arg64::Unsigned(err_code)),
        num_check_code(reg, err_code)[2] == load(Reg::Rsi, Arg64::Reg(reg)),
        num_check_code(reg, err_code).last() == InstrV::Jnz("snake_err"@),
        bool_check_code(reg, err_code)[1] == load(Reg::Rdi, Arg64::Unsigned(err_code)),
        bool_check_code(reg, err_code)[2] == load(Reg::Rsi, Arg64::Reg(reg)),
        bool_check_code(reg, err_code).last() == InstrV::Jz("snake_err"@),
{
}

/// The code of an `If` begins by loading the condition and checking that it is a
/// boolean, with the error of a condition that is none.
pub proof fn lemma_if_checks_its_condition(e: SeqExpV<u32>, env: Map<Seq<char>, i32>, space: i32)
    requires
        e is If,
    ensures
        exp_code(e, env, space).len() >= 8,
        exp_code(e, env, space)[1] == load(Reg::Rax, imm_arg(e->If_cond, env)),
        exp_code(e, env, space).subrange(2, 8) == bool_check_code(Reg::Rax, IF_ERROR),
{
    let code = exp_code(e, env, space);
    assert(code.subrange(2, 8) =~= bool_check_code(Reg::Rax, IF_ERROR));
}

/// The code of every program ends with the trap: the label that every failed check
/// jumps to, and the call of the runtime's error function.
pub proof fn lemma_program_ends_with_trap(p: SeqProgV<u32>)
    ensures
        ends_with(prog_code(p), seq![InstrV::Label("snake_err"@), InstrV::Call("snake_error"@)]),
{
    let code = prog_code(p);
    let tail = seq![InstrV::Label("snake_err"@), InstrV::Call("snake_error"@)];
    assert(code.subrange(code.len() - tail.len(), code.len() as int) =~= tail);
}

/// The frame of a function at its entry holds parameter `k` in slot `k`.
pub proof fn lemma_entry_slot(params: Seq<Seq<char>>, n: int, k: int)
    requires
        params.no_duplicates(),
        0 <= k < n <= params.len(),
    ensures
        entry_frame(params, n).contains_key(params[k]),
        entry_frame(params, n)[params[k]] == slot_offset(k as nat),
    decreases n,
{
    if k < n - 1 {
        lemma_entry_slot(params, n - 1, k);
    }
}

/// Staging puts argument `k` of a call `16 + 8 * k` bytes below the frame.
pub proof fn lemma_stage_at(
    args: Seq<ImmExpV>,
    n: int,
    env: Map<Seq<char>, i32>,
    space: i32,
    k: int,
)
    requires
        0 <= k < n <= args.len(),
    ensures
        stage_args(args, n, env, space).len() == 2 * n,
        stage_args(args, n, env, space)[2 * k] == load(Reg::Rax, imm_arg(args[k], env)),
        stage_args(args, n, env, space)[2 * k + 1] == store(-space - (16 + 8 * k)),
    decreases n,
{
    lemma_stage_len(args, n - 1, env, space);
    if k < n - 1 {
        lemma_stage_at(args, n - 1, env, space, k);
    }
}

/// Staging takes two instructions for each argument.
pub proof fn lemma_stage_len(args: Seq<ImmExpV>, n: int, env: Map<Seq<char>, i32>, space: i32)
    requires
        0 <= n <= args.len(),
    ensures
        stage_args(args, n, env, space).len() == 2 * n,
    decreases n,
{
    if n > 0 {
        lemma_stage_len(args, n - 1, env, space);
    }
}

/// Shifting takes two instructions for each argument.
pub proof fn lemma_shift_len(n: int, space: i32)
    requires
        0 <= n,
    ensures
        shift_args(n, space).len() == 2 * n,
    decreases n,
{
    if n > 0 {
        lemma_shift_len(n - 1, space);
    }
}

/// Shifting moves argument `k` of a call from where staging put it into slot `k`.
pub proof fn lemma_shift_at(n: int, space: i32, k: int)
    requires
        0 <= k < n,
    ensures
        shift_args(n, space).len() == 2 * n,
        shift_args(n, space)[2 * k] == fetch(-space - (16 + 8 * k)),
        shift_args(n, space)[2 * k + 1] == store(-8 * (k + 1)),
    decreases n,
{
    lemma_shift_len(n - 1, space);
    if k < n - 1 {
        lemma_shift_at(n - 1, space, k);
    }
}

/// A tail call puts each argument where the function that it jumps to reads its
/// parameter: argument `k` is staged below the frame and moved into slot `k`, and
/// the frame of a function, declared at the top level or inside another function,
/// holds parameter `k` in slot `k`.
pub proof fn lemma_arguments_meet_parameters(
    params: Seq<Seq<char>>,
    args: Seq<ImmExpV>,
    env: Map<Seq<char>, i32>,
    space: i32,
    k: int,
)
    requires
        params.no_duplicates(),
        params.len() == args.len(),
        0 <= k < params.len(),
        params.len() <= FRAME_LIMIT,
    ensures
        stage_args(args, args.len() as int, env, space)[2 * k + 1] == store(
            -space - (16 + 8 * k),
        ),
        shift_args(args.len() as int, space)[2 * k] == fetch(-space - (16 + 8 * k)),
        shift_args(args.len() as int, space)[2 * k + 1] == store(
            entry_frame(params, params.len() as int)[params[k]] as int,
        ),
{
    lemma_entry_slot(params, params.len() as int, k);
    lemma_stage_at(args, args.len() as int, env, space, k);
    lemma_shift_at(args.len() as int, space, k);
}

/// Whether `n` slots hold, for every local function of `e`, its parameters and the
/// variables that its body binds.
pub open spec fn locals_fit<A>(e: SeqExpV<A>, n: nat) -> bool
    decreases e,
{
    match e {
        SeqExpV::Let { bound_exp, body, .. } => locals_fit(*bound_exp, n) && locals_fit(*body, n),
        SeqExpV::If { thn, els, .. } => locals_fit(*thn, n) && locals_fit(*els, n),
        SeqExpV::FunDefs { decls, body, .. } => {
            &&& forall|k: int|
                0 <= k < decls.len() ==> (#[trigger] decls[k]).parameters.len() + slots_needed(
                    decls[k].body,
                ) <= n && locals_fit(decls[k].body, n)
            &&& locals_fit(*body, n)
        },
        _ => true,
    }
}

/// As many slots as an expression needs hold the parameters and the variables of
/// each of its local functions.
pub proof fn lemma_locals_fit<A>(e: SeqExpV<A>, n: nat)
    requires
        slots_needed(e) <= n,
    ensures
        locals_fit(e, n),
    decreases e,
{
    match e {
        SeqExpV::Let { bound_exp, body, .. } => {
            lemma_locals_fit(*bound_exp, n);
            lemma_locals_fit(*body, n);
        },
        SeqExpV::If { thn, els, .. } => {
            lemma_locals_fit(*thn, n);
            lemma_locals_fit(*els, n);
        },
        SeqExpV::FunDefs { decls, body, .. } => {
            assert forall|k: int| 0 <= k < decls.len() implies (
            #[trigger] decls[k]).parameters.len() + slots_needed(decls[k].body) <= n && locals_fit(
                decls[k].body,
                n,
            ) by {
                lemma_decl_slots_member(decls, decls.len() as int, k);
                lemma_locals_fit(decls[k].body, n);
            }
            lemma_locals_fit(*body, n);
        },
        _ => {},
    }
}

/// The frame of a function holds its parameters, the variables that its body binds,
/// and the parameters and variables of each of its local functions, which run in
/// the same frame.
pub proof fn lemma_frame_holds_locals<A>(e: SeqExpV<A>, arg_num: nat)
    ensures
        8 * (arg_num + slots_needed(e)) <= frame_bytes(e, arg_num),
        locals_fit(e, slots_needed(e)),
{
    lemma_locals_fit(e, slots_needed(e));
}

} // verus!
