//! Values and their text, numerals, and the text of instructions.

use snake::codegen::{ARITH_ERROR, CMP_ERROR, IF_ERROR, LOGIC_ERROR, OVFL_ERROR};
use snake::names::{clone_names, contains_name, insert_name, insert_names};
use snake::text::{
    decimal_string, joined, push_decimal, push_hexadecimal, push_signed_decimal, with_number,
};
use snake::value::{snake_error_message, sprint_snake_val, unsigned_to_signed, SnakeVal};
use snake::x86::{
    instr_to_string, instrs_to_string, Arg32, Arg64, BinArgs, Instr, MemRef, MovArgs, Reg, Reg32,
};

fn s(x: &str) -> String {
    x.to_string()
}

#[test]
fn numerals_in_base_ten() {
    assert_eq!(decimal_string(0), "0");
    assert_eq!(decimal_string(7), "7");
    assert_eq!(decimal_string(10), "10");
    assert_eq!(decimal_string(4294967295), "4294967295");
    assert_eq!(decimal_string(u64::MAX), "18446744073709551615");
    let mut out = s("n = ");
    push_decimal(&mut out, 1203);
    assert_eq!(out, "n = 1203");
}

#[test]
fn signed_numerals() {
    for n in [0i64, 1, -1, 42, -42, i64::MAX, i64::MIN, -4611686018427387904] {
        let mut out = String::new();
        push_signed_decimal(&mut out, n);
        assert_eq!(out, n.to_string());
    }
}

#[test]
fn numerals_in_base_sixteen() {
    for n in [0u64, 9, 10, 15, 16, 255, 0xdead_beef, 0x7FFF_FFFF_FFFF_FFFF, u64::MAX] {
        let mut out = String::new();
        push_hexadecimal(&mut out, n);
        assert_eq!(out, format!("{:x}", n));
    }
}

#[test]
fn text_is_put_together() {
    assert_eq!(joined("Let var: ", "x#1"), "Let var: x#1");
    assert_eq!(joined("", ""), "");
    assert_eq!(with_number("done#", 12), "done#12");
    assert_eq!(with_number("", 0), "0");
}

#[test]
fn lists_of_names() {
    let mut names = vec![s("a"), s("b")];
    assert!(contains_name(&names, &s("a")));
    assert!(!contains_name(&names, &s("c")));
    assert!(!contains_name(&names, &s("")));
    assert!(insert_name(&mut names, &s("c")));
    assert!(!insert_name(&mut names, &s("a")));
    assert_eq!(names, vec![s("a"), s("b"), s("c")]);
    insert_names(&mut names, &vec![s("d"), s("b"), s("e"), s("d")]);
    assert_eq!(names, vec![s("a"), s("b"), s("c"), s("d"), s("e")]);
    assert_eq!(clone_names(&names), names);
}

#[test]
fn bits_are_read_as_signed() {
    assert_eq!(unsigned_to_signed(0), 0);
    assert_eq!(unsigned_to_signed(1), 1);
    assert_eq!(unsigned_to_signed(0x7FFF_FFFF_FFFF_FFFF), i64::MAX);
    assert_eq!(unsigned_to_signed(0x8000_0000_0000_0000), i64::MIN);
    assert_eq!(unsigned_to_signed(u64::MAX), -1);
    assert_eq!(unsigned_to_signed(u64::MAX - 5), -6);
}

#[test]
fn the_text_of_numbers() {
    assert_eq!(sprint_snake_val(SnakeVal(0)), "0");
    assert_eq!(sprint_snake_val(SnakeVal(10)), "5");
    assert_eq!(sprint_snake_val(SnakeVal((-6i64) as u64)), "-3");
    assert_eq!(sprint_snake_val(SnakeVal(u64::MAX - 1)), "-1");
    assert_eq!(sprint_snake_val(SnakeVal(0x7FFF_FFFF_FFFF_FFFE)), "4611686018427387903");
    assert_eq!(sprint_snake_val(SnakeVal(0x8000_0000_0000_0000)), "-4611686018427387904");
}

#[test]
fn every_number_in_range_comes_back_from_its_tagged_form() {
    for n in [0i64, 1, -1, 120, -120, 4611686018427387903, -4611686018427387904] {
        assert_eq!(sprint_snake_val(SnakeVal((n << 1) as u64)), n.to_string());
    }
}

#[test]
fn the_text_of_booleans() {
    assert_eq!(sprint_snake_val(SnakeVal(0xFFFF_FFFF_FFFF_FFFF)), "true");
    assert_eq!(sprint_snake_val(SnakeVal(0x7FFF_FFFF_FFFF_FFFF)), "false");
}

#[test]
fn the_text_of_bits_that_are_no_value() {
    assert_eq!(sprint_snake_val(SnakeVal(1)), "Invalid snake value 0x1");
    assert_eq!(sprint_snake_val(SnakeVal(3)), "Invalid snake value 0x3");
    assert_eq!(
        sprint_snake_val(SnakeVal(0xFFFF_FFFF_FFFF_FFFD)),
        "Invalid snake value 0xfffffffffffffffd"
    );
    assert_eq!(
        sprint_snake_val(SnakeVal(0x8000_0000_0000_0001)),
        "Invalid snake value 0x8000000000000001"
    );
}

#[test]
fn the_messages_of_the_run_time_errors() {
    let t = SnakeVal(0xFFFF_FFFF_FFFF_FFFF);
    let three = SnakeVal(6);
    assert_eq!(
        snake_error_message(ARITH_ERROR, t),
        "arithmetic expected a number but got a boolean true"
    );
    assert_eq!(
        snake_error_message(CMP_ERROR, t),
        "comparison expected a number but got a boolean true"
    );
    assert_eq!(snake_error_message(IF_ERROR, three), "if expected a boolean but got a number 3");
    assert_eq!(
        snake_error_message(LOGIC_ERROR, three),
        "logic expected a boolean but got a number 3"
    );
    assert_eq!(snake_error_message(OVFL_ERROR, three), "overflow");
    assert_eq!(
        snake_error_message(5, three),
        "I apologize to you, dear user. I made a bug. Here's a snake value: 3"
    );
    assert_eq!(
        snake_error_message(u64::MAX, SnakeVal(1)),
        "I apologize to you, dear user. I made a bug. Here's a snake value: Invalid snake value 0x1"
    );
}

fn mem(reg: Reg, offset: i32) -> MemRef {
    MemRef { reg, offset }
}

#[test]
fn the_text_of_moves() {
    assert_eq!(
        instr_to_string(&Instr::Mov(MovArgs::ToReg(Reg::Rax, Arg64::Signed(-10)))),
        "        mov rax, -10"
    );
    assert_eq!(
        instr_to_string(&Instr::Mov(MovArgs::ToReg(Reg::R10, Arg64::Unsigned(1)))),
        "        mov r10, 0x1"
    );
    assert_eq!(
        instr_to_string(&Instr::Mov(MovArgs::ToReg(Reg::Rsi, Arg64::Reg(Reg::Rax)))),
        "        mov rsi, rax"
    );
    assert_eq!(
        instr_to_string(&Instr::Mov(MovArgs::ToReg(Reg::Rax, Arg64::Mem(mem(Reg::Rsp, -16))))),
        "        mov rax, QWORD [rsp - 16]"
    );
    assert_eq!(
        instr_to_string(&Instr::Mov(MovArgs::ToMem(mem(Reg::Rsp, -8), Reg32::Reg(Reg::Rax)))),
        "        mov QWORD [rsp - 8], rax"
    );
    assert_eq!(
        instr_to_string(&Instr::Mov(MovArgs::ToMem(mem(Reg::Rbp, 24), Reg32::Signed(-1)))),
        "        mov QWORD [rbp + 24], -1"
    );
    assert_eq!(
        instr_to_string(&Instr::Mov(MovArgs::ToMem(mem(Reg::Rsp, 0), Reg32::Unsigned(255)))),
        "        mov QWORD [rsp + 0], 0xff"
    );
    assert_eq!(
        instr_to_string(&Instr::Mov(MovArgs::ToMem(mem(Reg::Rsp, i32::MIN), Reg32::Reg(Reg::Rax)))),
        "        mov QWORD [rsp - 2147483648], rax"
    );
}

#[test]
fn the_text_of_binary_instructions() {
    let args = BinArgs::ToReg(Reg::Rax, Arg32::Reg(Reg::R10));
    assert_eq!(instr_to_string(&Instr::Add(args)), "        add rax, r10");
    assert_eq!(instr_to_string(&Instr::Sub(args)), "        sub rax, r10");
    assert_eq!(instr_to_string(&Instr::IMul(args)), "        imul rax, r10");
    assert_eq!(instr_to_string(&Instr::And(args)), "        and rax, r10");
    assert_eq!(instr_to_string(&Instr::Or(args)), "        or rax, r10");
    assert_eq!(instr_to_string(&Instr::Xor(args)), "        xor rax, r10");
    assert_eq!(instr_to_string(&Instr::Cmp(args)), "        cmp rax, r10");
    assert_eq!(instr_to_string(&Instr::Test(args)), "        test rax, r10");
    let shift = BinArgs::ToReg(Reg::Rax, Arg32::Unsigned(63));
    assert_eq!(instr_to_string(&Instr::Shl(shift)), "        shl rax, 0x3f");
    assert_eq!(instr_to_string(&Instr::Shr(shift)), "        shr rax, 0x3f");
    assert_eq!(instr_to_string(&Instr::Sar(shift)), "        sar rax, 0x3f");
    assert_eq!(
        instr_to_string(&Instr::Sub(BinArgs::ToReg(Reg::Rsp, Arg32::Signed(32)))),
        "        sub rsp, 32"
    );
    assert_eq!(
        instr_to_string(&Instr::Add(BinArgs::ToReg(Reg::Rax, Arg32::Mem(mem(Reg::Rsp, -8))))),
        "        add rax, QWORD [rsp - 8]"
    );
    assert_eq!(
        instr_to_string(&Instr::Add(BinArgs::ToMem(mem(Reg::Rsp, -8), Reg32::Signed(2)))),
        "        add QWORD [rsp - 8], 2"
    );
}

#[test]
fn the_names_of_the_registers() {
    let all = [
        (Reg::Rax, "rax"),
        (Reg::Rbx, "rbx"),
        (Reg::Rcx, "rcx"),
        (Reg::Rdx, "rdx"),
        (Reg::Rsi, "rsi"),
        (Reg::Rdi, "rdi"),
        (Reg::Rsp, "rsp"),
        (Reg::Rbp, "rbp"),
        (Reg::R8, "r8"),
        (Reg::R9, "r9"),
        (Reg::R10, "r10"),
        (Reg::R11, "r11"),
        (Reg::R12, "r12"),
        (Reg::R13, "r13"),
        (Reg::R14, "r14"),
        (Reg::R15, "r15"),
    ];
    for (r, name) in all {
        assert_eq!(
            instr_to_string(&Instr::Mov(MovArgs::ToReg(r, Arg64::Reg(r)))),
            format!("        mov {}, {}", name, name)
        );
    }
}

#[test]
fn the_text_of_labels_jumps_and_calls() {
    assert_eq!(instr_to_string(&Instr::Label(s("main"))), "main:");
    assert_eq!(instr_to_string(&Instr::Comment(s("If"))), "        ;;; If");
    assert_eq!(instr_to_string(&Instr::Call(s("f#1"))), "        call f#1");
    assert_eq!(instr_to_string(&Instr::Ret), "        ret");
    assert_eq!(instr_to_string(&Instr::Jmp(s("a"))), "        jmp a");
    assert_eq!(instr_to_string(&Instr::Je(s("a"))), "        je a");
    assert_eq!(instr_to_string(&Instr::Jne(s("a"))), "        jne a");
    assert_eq!(instr_to_string(&Instr::Jl(s("a"))), "        jl a");
    assert_eq!(instr_to_string(&Instr::Jle(s("a"))), "        jle a");
    assert_eq!(instr_to_string(&Instr::Jg(s("a"))), "        jg a");
    assert_eq!(instr_to_string(&Instr::Jge(s("a"))), "        jge a");
    assert_eq!(instr_to_string(&Instr::Jz(s("a"))), "        jz a");
    assert_eq!(instr_to_string(&Instr::Jnz(s("a"))), "        jnz a");
    assert_eq!(instr_to_string(&Instr::Jo(s("a"))), "        jo a");
    assert_eq!(instr_to_string(&Instr::Jno(s("a"))), "        jno a");
}

#[test]
fn instructions_stand_one_on_a_line() {
    assert_eq!(instrs_to_string(&vec![]), "");
    let is = vec![
        Instr::Label(s("main")),
        Instr::Mov(MovArgs::ToReg(Reg::Rax, Arg64::Signed(10))),
        Instr::Ret,
    ];
    assert_eq!(instrs_to_string(&is), "main:\n        mov rax, 10\n        ret\n");
}
