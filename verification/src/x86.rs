//! The x86-64 instructions that the code generator emits, and their text in Intel
//! syntax.

use vstd::prelude::*;
use crate::text::{hexadecimal, push_hexadecimal, push_signed_decimal, signed_decimal};

verus! {

/// A general-purpose register.
#[derive(Clone, Copy, Debug, PartialEq, Eq, Structural)]
pub enum Reg {
    Rax,
    Rbx,
    Rcx,
    Rdx,
    Rsi,
    Rdi,
    Rsp,
    Rbp,
    R8,
    R9,
    R10,
    R11,
    R12,
    R13,
    R14,
    R15,
}

/// The eight bytes at `offset` from the address held in `reg`.
#[derive(Clone, Copy, Debug, PartialEq, Eq, Structural)]
pub struct MemRef {
    pub reg: Reg,
    pub offset: i32,
}

/// An operand of up to 64 bits.
#[derive(Clone, Copy, Debug, PartialEq, Eq, Structural)]
pub enum Arg64 {
    Reg(Reg),
    Signed(i64),
    Unsigned(u64),
    Mem(MemRef),
}

/// An operand of up to 32 bits.
#[derive(Clone, Copy, Debug, PartialEq, Eq, Structural)]
pub enum Arg32 {
    Reg(Reg),
    Signed(i32),
    Unsigned(u32),
    Mem(MemRef),
}

/// A register or an immediate of up to 32 bits.
#[derive(Clone, Copy, Debug, PartialEq, Eq, Structural)]
pub enum Reg32 {
    Reg(Reg),
    Signed(i32),
    Unsigned(u32),
}

/// The operands of a `mov`.
#[derive(Clone, Copy, Debug, PartialEq, Eq, Structural)]
pub enum MovArgs {
    ToReg(Reg, Arg64),
    ToMem(MemRef, Reg32),
}

/// The operands of a binary instruction.
#[derive(Clone, Copy, Debug, PartialEq, Eq, Structural)]
pub enum BinArgs {
    ToReg(Reg, Arg32),
    ToMem(MemRef, Reg32),
}

/// One line of assembly.
#[derive(Clone, Debug, PartialEq, Eq)]
pub enum Instr {
    Mov(MovArgs),
    Add(BinArgs),
    Sub(BinArgs),
    IMul(BinArgs),
    And(BinArgs),
    Or(BinArgs),
    Xor(BinArgs),
    Shl(BinArgs),
    Shr(BinArgs),
    Sar(BinArgs),
    Cmp(BinArgs),
    Test(BinArgs),
    Label(String),
    Comment(String),
    Call(String),
    Ret,
    Jmp(String),
    Je(String),
    Jne(String),
    Jl(String),
    Jle(String),
    Jg(String),
    Jge(String),
    Jz(String),
    Jnz(String),
    Jo(String),
    Jno(String),
}

/// The view of an instruction: labels and comments are sequences of characters.
pub enum InstrV {
    Mov(MovArgs),
    Add(BinArgs),
    Sub(BinArgs),
    IMul(BinArgs),
    And(BinArgs),
    Or(BinArgs),
    Xor(BinArgs),
    Shl(BinArgs),
    Shr(BinArgs),
    Sar(BinArgs),
    Cmp(BinArgs),
    Test(BinArgs),
    Label(Seq<char>),
    Comment(Seq<char>),
    Call(Seq<char>),
    Ret,
    Jmp(Seq<char>),
    Je(Seq<char>),
    Jne(Seq<char>),
    Jl(Seq<char>),
    Jle(Seq<char>),
    Jg(Seq<char>),
    Jge(Seq<char>),
    Jz(Seq<char>),
    Jnz(Seq<char>),
    Jo(Seq<char>),
    Jno(Seq<char>),
}

impl View for Instr {
    type V = InstrV;

    open spec fn view(&self) -> InstrV {
        match self {
            Instr::Mov(a) => InstrV::Mov(*a),
            Instr::Add(a) => InstrV::Add(*a),
            Instr::Sub(a) => InstrV::Sub(*a),
            Instr::IMul(a) => InstrV::IMul(*a),
            Instr::And(a) => InstrV::And(*a),
            Instr::Or(a) => InstrV::Or(*a),
            Instr::Xor(a) => InstrV::Xor(*a),
            Instr::Shl(a) => InstrV::Shl(*a),
            Instr::Shr(a) => InstrV::Shr(*a),
            Instr::Sar(a) => InstrV::Sar(*a),
            Instr::Cmp(a) => InstrV::Cmp(*a),
            Instr::Test(a) => InstrV::Test(*a),
            Instr::Label(s) => InstrV::Label(s@),
            Instr::Comment(s) => InstrV::Comment(s@),
            Instr::Call(s) => InstrV::Call(s@),
            Instr::Ret => InstrV::Ret,
            Instr::Jmp(s) => InstrV::Jmp(s@),
            Instr::Je(s) => InstrV::Je(s@),
            Instr::Jne(s) => InstrV::Jne(s@),
            Instr::Jl(s) => InstrV::Jl(s@),
            Instr::Jle(s) => InstrV::Jle(s@),
            Instr::Jg(s) => InstrV::Jg(s@),
            Instr::Jge(s) => InstrV::Jge(s@),
            Instr::Jz(s) => InstrV::Jz(s@),
            Instr::Jnz(s) => InstrV::Jnz(s@),
            Instr::Jo(s) => InstrV::Jo(s@),
            Instr::Jno(s) => InstrV::Jno(s@),
        }
    }
}

/// The views of a list of instructions.
pub open spec fn instrs_view(is: Seq<Instr>) -> Seq<InstrV> {
    is.map_values(|i: Instr| i@)
}

/// The view of a list with one more instruction at its end.
pub proof fn lemma_instrs_view_push(is: Seq<Instr>, i: Instr)
    ensures
        instrs_view(is.push(i)) == instrs_view(is).push(i@),
{
    assert(instrs_view(is.push(i)) =~= instrs_view(is).push(i@));
}

/// The view of two lists of instructions, one after the other.
pub proof fn lemma_instrs_view_add(a: Seq<Instr>, b: Seq<Instr>)
    ensures
        instrs_view(a + b) == instrs_view(a) + instrs_view(b),
{
    assert(instrs_view(a + b) =~= instrs_view(a) + instrs_view(b));
}

/// The name of a register.
pub open spec fn reg_text(r: Reg) -> Seq<char> {
    match r {
        Reg::Rax => "rax"@,
        Reg::Rbx => "rbx"@,
        Reg::Rcx => "rcx"@,
        Reg::Rdx => "rdx"@,
        Reg::Rsi => "rsi"@,
        Reg::Rdi => "rdi"@,
        Reg::Rsp => "rsp"@,
        Reg::Rbp => "rbp"@,
        Reg::R8 => "r8"@,
        Reg::R9 => "r9"@,
        Reg::R10 => "r10"@,
        Reg::R11 => "r11"@,
        Reg::R12 => "r12"@,
        Reg::R13 => "r13"@,
        Reg::R14 => "r14"@,
        Reg::R15 => "r15"@,
    }
}

/// The text of a memory operand: the register, then the offset added or subtracted.
pub open spec fn mem_text(m: MemRef) -> Seq<char> {
    if m.offset < 0 {
        "QWORD ["@ + reg_text(m.reg) + " - "@ + signed_decimal(-(m.offset as int)) + "]"@
    } else {
        "QWORD ["@ + reg_text(m.reg) + " + "@ + signed_decimal(m.offset as int) + "]"@
    }
}

/// The text of an unsigned immediate: in base sixteen.
pub open spec fn unsigned_text(n: nat) -> Seq<char> {
    "0x"@ + hexadecimal(n)
}

/// The text of a 64-bit operand.
pub open spec fn arg64_text(a: Arg64) -> Seq<char> {
    match a {
        Arg64::Reg(r) => reg_text(r),
        Arg64::Signed(n) => signed_decimal(n as int),
        Arg64::Unsigned(n) => unsigned_text(n as nat),
        Arg64::Mem(m) => mem_text(m),
    }
}

/// The text of a 32-bit operand.
pub open spec fn arg32_text(a: Arg32) -> Seq<char> {
    match a {
        Arg32::Reg(r) => reg_text(r),
        Arg32::Signed(n) => signed_decimal(n as int),
        Arg32::Unsigned(n) => unsigned_text(n as nat),
        Arg32::Mem(m) => mem_text(m),
    }
}

/// The text of a register or 32-bit immediate.
pub open spec fn reg32_text(a: Reg32) -> Seq<char> {
    match a {
        Reg32::Reg(r) => reg_text(r),
        Reg32::Signed(n) => signed_decimal(n as int),
        Reg32::Unsigned(n) => unsigned_text(n as nat),
    }
}

/// The text of the operands of a `mov`: destination, comma, source.
pub open spec fn mov_args_text(a: MovArgs) -> Seq<char> {
    match a {
        MovArgs::ToReg(r, s) => reg_text(r) + ", "@ + arg64_text(s),
        MovArgs::ToMem(m, s) => mem_text(m) + ", "@ + reg32_text(s),
    }
}

/// The text of the operands of a binary instruction: destination, comma, source.
pub open spec fn bin_args_text(a: BinArgs) -> Seq<char> {
    match a {
        BinArgs::ToReg(r, s) => reg_text(r) + ", "@ + arg32_text(s),
        BinArgs::ToMem(m, s) => mem_text(m) + ", "@ + reg32_text(s),
    }
}

/// The text of one instruction, without the end of the line. A label stands at the
/// start of the line and ends in a colon; everything else is indented.
pub open spec fn instr_text(i: InstrV) -> Seq<char> {
    match i {
        InstrV::Mov(a) => "        mov "@ + mov_args_text(a),
        InstrV::Add(a) => "        add "@ + bin_args_text(a),
        InstrV::Sub(a) => "        sub "@ + bin_args_text(a),
        InstrV::IMul(a) => "        imul "@ + bin_args_text(a),
        InstrV::And(a) => "        and "@ + bin_args_text(a),
        InstrV::Or(a) => "        or "@ + bin_args_text(a),
        InstrV::Xor(a) => "        xor "@ + bin_args_text(a),
        InstrV::Shl(a) => "        shl "@ + bin_args_text(a),
        InstrV::Shr(a) => "        shr "@ + bin_args_text(a),
        InstrV::Sar(a) => "        sar "@ + bin_args_text(a),
        InstrV::Cmp(a) => "        cmp "@ + bin_args_text(a),
        InstrV::Test(a) => "        test "@ + bin_args_text(a),
        InstrV::Label(s) => s + ":"@,
        InstrV::Comment(s) => "        ;;; "@ + s,
        InstrV::Call(s) => "        call "@ + s,
        InstrV::Ret => "        ret"@,
        InstrV::Jmp(s) => "        jmp "@ + s,
        InstrV::Je(s) => "        je "@ + s,
        InstrV::Jne(s) => "        jne "@ + s,
        InstrV::Jl(s) => "        jl "@ + s,
        InstrV::Jle(s) => "        jle "@ + s,
        InstrV::Jg(s) => "        jg "@ + s,
        InstrV::Jge(s) => "        jge "@ + s,
        InstrV::Jz(s) => "        jz "@ + s,
        InstrV::Jnz(s) => "        jnz "@ + s,
        InstrV::Jo(s) => "        jo "@ + s,
        InstrV::Jno(s) => "        jno "@ + s,
    }
}

/// The text of the first `n` instructions of `is`, one per line.
pub open spec fn instrs_text_upto(is: Seq<InstrV>, n: int) -> Seq<char>
    decreases n,
{
    if n <= 0 || n > is.len() {
        Seq::empty()
    } else {
        instrs_text_upto(is, n - 1) + instr_text(is[n - 1]) + "\n"@
    }
}

/// The text of a list of instructions, one per line.
pub open spec fn instrs_text(is: Seq<InstrV>) -> Seq<char> {
    instrs_text_upto(is, is.len() as int)
}

fn reg_str(r: Reg) -> (s: &'static str)
    ensures
        s@ == reg_text(r),
{
    match r {
        Reg::Rax => "rax",
        Reg::Rbx => "rbx",
        Reg::Rcx => "rcx",
        Reg::Rdx => "rdx",
        Reg::Rsi => "rsi",
        Reg::Rdi => "rdi",
        Reg::Rsp => "rsp",
        Reg::Rbp => "rbp",
        Reg::R8 => "r8",
        Reg::R9 => "r9",
        Reg::R10 => "r10",
        Reg::R11 => "r11",
        Reg::R12 => "r12",
        Reg::R13 => "r13",
        Reg::R14 => "r14",
        Reg::R15 => "r15",
    }
}

fn push_mem(out: &mut String, m: MemRef)
    ensures
        final(out)@ == old(out)@ + mem_text(m),
{
    out.append("QWORD [");
    out.append(reg_str(m.reg));
    if m.offset < 0 {
        out.append(" - ");
        push_signed_decimal(out, -(m.offset as i64));
    } else {
        out.append(" + ");
        push_signed_decimal(out, m.offset as i64);
    }
    out.append("]");
    assert(final(out)@ =~= old(out)@ + mem_text(m));
}

fn push_unsigned(out: &mut String, n: u64)
    ensures
        final(out)@ == old(out)@ + unsigned_text(n as nat),
{
    out.append("0x");
    push_hexadecimal(out, n);
    assert(final(out)@ =~= old(out)@ + unsigned_text(n as nat));
}

fn push_arg64(out: &mut String, a: Arg64)
    ensures
        final(out)@ == old(out)@ + arg64_text(a),
{
    match a {
        Arg64::Reg(r) => out.append(reg_str(r)),
        Arg64::Signed(n) => push_signed_decimal(out, n),
        Arg64::Unsigned(n) => push_unsigned(out, n),
        Arg64::Mem(m) => push_mem(out, m),
    }
}

fn push_arg32(out: &mut String, a: Arg32)
    ensures
        final(out)@ == old(out)@ + arg32_text(a),
{
    match a {
        Arg32::Reg(r) => out.append(reg_str(r)),
        Arg32::Signed(n) => push_signed_decimal(out, n as i64),
        Arg32::Unsigned(n) => push_unsigned(out, n as u64),
        Arg32::Mem(m) => push_mem(out, m),
    }
}

fn push_reg32(out: &mut String, a: Reg32)
    ensures
        final(out)@ == old(out)@ + reg32_text(a),
{
    match a {
        Reg32::Reg(r) => out.append(reg_str(r)),
        Reg32::Signed(n) => push_signed_decimal(out, n as i64),
        Reg32::Unsigned(n) => push_unsigned(out, n as u64),
    }
}

fn push_mov_args(out: &mut String, a: MovArgs)
    ensures
        final(out)@ == old(out)@ + mov_args_text(a),
{
    match a {
        MovArgs::ToReg(r, s) => {
            out.append(reg_str(r));
            out.append(", ");
            push_arg64(out, s);
        },
        MovArgs::ToMem(m, s) => {
            push_mem(out, m);
            out.append(", ");
            push_reg32(out, s);
        },
    }
    assert(final(out)@ =~= old(out)@ + mov_args_text(a));
}

fn push_bin_args(out: &mut String, a: BinArgs)
    ensures
        final(out)@ == old(out)@ + bin_args_text(a),
{
    match a {
        BinArgs::ToReg(r, s) => {
            out.append(reg_str(r));
            out.append(", ");
            push_arg32(out, s);
        },
        BinArgs::ToMem(m, s) => {
            push_mem(out, m);
            out.append(", ");
            push_reg32(out, s);
        },
    }
    assert(final(out)@ =~= old(out)@ + bin_args_text(a));
}

fn push_binary(out: &mut String, mnemonic: &str, a: BinArgs)
    ensures
        final(out)@ == old(out)@ + (mnemonic@ + bin_args_text(a)),
{
    out.append(mnemonic);
    push_bin_args(out, a);
    assert(final(out)@ =~= old(out)@ + (mnemonic@ + bin_args_text(a)));
}

fn push_jump(out: &mut String, mnemonic: &str, target: &String)
    ensures
        final(out)@ == old(out)@ + (mnemonic@ + target@),
{
    out.append(mnemonic);
    out.append(target.as_str());
    assert(final(out)@ =~= old(out)@ + (mnemonic@ + target@));
}

/// Appends the text of one instruction to `out`, without the end of the line.
pub fn push_instr(out: &mut String, i: &Instr)
    ensures
        final(out)@ == old(out)@ + instr_text(i@),
{
    match i {
        Instr::Mov(a) => {
            out.append("        mov ");
            push_mov_args(out, *a);
            assert(final(out)@ =~= old(out)@ + instr_text(i@));
        },
        Instr::Add(a) => push_binary(out, "        add ", *a),
        Instr::Sub(a) => push_binary(out, "        sub ", *a),
        Instr::IMul(a) => push_binary(out, "        imul ", *a),
        Instr::And(a) => push_binary(out, "        and ", *a),
        Instr::Or(a) => push_binary(out, "        or ", *a),
        Instr::Xor(a) => push_binary(out, "        xor ", *a),
        Instr::Shl(a) => push_binary(out, "        shl ", *a),
        Instr::Shr(a) => push_binary(out, "        shr ", *a),
        Instr::Sar(a) => push_binary(out, "        sar ", *a),
        Instr::Cmp(a) => push_binary(out, "        cmp ", *a),
        Instr::Test(a) => push_binary(out, "        test ", *a),
        Instr::Label(s) => {
            out.append(s.as_str());
            out.append(":");
            assert(final(out)@ =~= old(out)@ + instr_text(i@));
        },
        Instr::Comment(s) => push_jump(out, "        ;;; ", s),
        Instr::Call(s) => push_jump(out, "        call ", s),
        Instr::Ret => out.append("        ret"),
        Instr::Jmp(s) => push_jump(out, "        jmp ", s),
        Instr::Je(s) => push_jump(out, "        je ", s),
        Instr::Jne(s) => push_jump(out, "        jne ", s),
        Instr::Jl(s) => push_jump(out, "        jl ", s),
        Instr::Jle(s) => push_jump(out, "        jle ", s),
        Instr::Jg(s) => push_jump(out, "        jg ", s),
        Instr::Jge(s) => push_jump(out, "        jge ", s),
        Instr::Jz(s) => push_jump(out, "        jz ", s),
        Instr::Jnz(s) => push_jump(out, "        jnz ", s),
        Instr::Jo(s) => push_jump(out, "        jo ", s),
        Instr::Jno(s) => push_jump(out, "        jno ", s),
    }
}

/// The text of one instruction.
pub fn instr_to_string(i: &Instr) -> (r: String)
    ensures
        r@ == instr_text(i@),
{
    let mut out: String = String::new();
    push_instr(&mut out, i);
    assert(out@ =~= instr_text(i@));
    out
}

/// The text of a list of instructions, one per line.
pub fn instrs_to_string(is: &Vec<Instr>) -> (r: String)
    ensures
        r@ == instrs_text(instrs_view(is@)),
{
    let mut out: String = String::new();
    let mut k: usize = 0;
    assert(out@ =~= instrs_text_upto(instrs_view(is@), 0));
    while k < is.len()
        invariant
            k <= is.len(),
            out@ == instrs_text_upto(instrs_view(is@), k as int),
        decreases is.len() - k,
    {
        push_instr(&mut out, &is[k]);
        out.append("\n");
        k += 1;
    }
    out
}

} // verus!
