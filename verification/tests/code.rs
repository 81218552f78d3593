//! Code generation: frames, checks, and the instructions of each construct.

use snake::codegen::{
    check_type_bool, check_type_num, compile_imm_to_arg, compile_prim1_to_instr,
    compile_prim2_to_instr, compile_to_instrs, compile_to_instrs_help, get_offset,
    runtime_if_check, runtime_overflow_check, runtime_prim1_check, runtime_prim2_check,
    space_needed, space_needed_helper, ARITH_ERROR, CMP_ERROR, IF_ERROR, LOGIC_ERROR, OVFL_ERROR,
};
use snake::compile::compile_to_string;
use snake::frame::Frame;
use snake::syntax::{Exp, FunDecl, ImmExp, Prim, SeqExp, SeqProg};
use snake::x86::{Arg32, Arg64, BinArgs, Instr, MemRef, MovArgs, Reg, Reg32};

const TRUE: u64 = 0xFFFF_FFFF_FFFF_FFFF;
const FALSE: u64 = 0x7FFF_FFFF_FFFF_FFFF;

fn s(x: &str) -> String {
    x.to_string()
}

fn mov(dst: Reg, src: Arg64) -> Instr {
    Instr::Mov(MovArgs::ToReg(dst, src))
}

fn store(offset: i32) -> Instr {
    Instr::Mov(MovArgs::ToMem(MemRef { reg: Reg::Rsp, offset }, Reg32::Reg(Reg::Rax)))
}

fn slot(offset: i32) -> Arg64 {
    Arg64::Mem(MemRef { reg: Reg::Rsp, offset })
}

fn on_rax(src: Arg32) -> BinArgs {
    BinArgs::ToReg(Reg::Rax, src)
}

fn comment(text: &str) -> Instr {
    Instr::Comment(s(text))
}

fn imm(n: i64) -> SeqExp<u32> {
    SeqExp::Imm(ImmExp::Num(n), 0)
}

fn overflow_check() -> Vec<Instr> {
    vec![
        comment("Check overflow"),
        mov(Reg::Rdi, Arg64::Unsigned(4)),
        mov(Reg::Rsi, Arg64::Reg(Reg::Rax)),
        Instr::Jo(s("snake_err")),
    ]
}

fn num_check(reg: Reg, code: u64) -> Vec<Instr> {
    vec![
        comment("Check Whether Num"),
        mov(Reg::Rdi, Arg64::Unsigned(code)),
        mov(Reg::Rsi, Arg64::Reg(reg)),
        mov(Reg::Rbx, Arg64::Unsigned(1)),
        Instr::Test(BinArgs::ToReg(Reg::Rbx, Arg32::Reg(reg))),
        Instr::Jnz(s("snake_err")),
    ]
}

fn bool_check(reg: Reg, code: u64) -> Vec<Instr> {
    vec![
        comment("Check Whether Bool"),
        mov(Reg::Rdi, Arg64::Unsigned(code)),
        mov(Reg::Rsi, Arg64::Reg(reg)),
        mov(Reg::Rbx, Arg64::Unsigned(1)),
        Instr::Test(BinArgs::ToReg(Reg::Rbx, Arg32::Reg(reg))),
        Instr::Jz(s("snake_err")),
    ]
}

#[test]
fn the_error_codes() {
    assert_eq!(ARITH_ERROR, 0);
    assert_eq!(CMP_ERROR, 1);
    assert_eq!(IF_ERROR, 2);
    assert_eq!(LOGIC_ERROR, 3);
    assert_eq!(OVFL_ERROR, 4);
}

#[test]
fn a_frame_gives_each_variable_its_slot() {
    let mut frame = Frame::new();
    assert_eq!(frame.len(), 0);
    assert!(!frame.contains(&s("x")));
    frame.insert(s("x"), -8);
    frame.insert(s("y"), -16);
    assert_eq!(frame.len(), 2);
    assert_eq!(frame.get(&s("x")), Some(-8));
    assert_eq!(frame.get(&s("y")), Some(-16));
    assert_eq!(frame.get(&s("z")), None);
    assert_eq!(get_offset(&s("y"), &frame), -16);
    frame.insert(s("x"), -24);
    assert_eq!(frame.len(), 2);
    assert_eq!(get_offset(&s("x"), &frame), -24);
    let copy = frame.copy();
    assert_eq!(copy.len(), 2);
    assert_eq!(copy.get(&s("x")), Some(-24));
}

#[test]
fn numbers_are_shifted_and_booleans_are_tagged() {
    let frame = Frame::new();
    assert_eq!(compile_imm_to_arg(&ImmExp::Num(5), &frame), Arg64::Signed(10));
    assert_eq!(compile_imm_to_arg(&ImmExp::Num(-3), &frame), Arg64::Signed(-6));
    assert_eq!(compile_imm_to_arg(&ImmExp::Num(0), &frame), Arg64::Signed(0));
    assert_eq!(
        compile_imm_to_arg(&ImmExp::Num(4611686018427387903), &frame),
        Arg64::Signed(9223372036854775806)
    );
    assert_eq!(
        compile_imm_to_arg(&ImmExp::Num(-4611686018427387904), &frame),
        Arg64::Signed(i64::MIN)
    );
    assert_eq!(compile_imm_to_arg(&ImmExp::Bool(true), &frame), Arg64::Unsigned(TRUE));
    assert_eq!(compile_imm_to_arg(&ImmExp::Bool(false), &frame), Arg64::Unsigned(FALSE));
}

#[test]
fn a_variable_is_read_from_its_slot() {
    let mut frame = Frame::new();
    frame.insert(s("x"), -8);
    frame.insert(s("y"), -16);
    assert_eq!(compile_imm_to_arg(&ImmExp::Var(s("y")), &frame), slot(-16));
}

#[test]
fn the_overflow_check() {
    assert_eq!(runtime_overflow_check(), overflow_check());
}

#[test]
fn the_checks_of_the_kind_of_a_value() {
    assert_eq!(check_type_num(Reg::Rax, ARITH_ERROR), num_check(Reg::Rax, 0));
    assert_eq!(check_type_num(Reg::R10, CMP_ERROR), num_check(Reg::R10, 1));
    assert_eq!(check_type_bool(Reg::Rax, LOGIC_ERROR), bool_check(Reg::Rax, 3));
    assert_eq!(runtime_if_check(Reg::Rax), bool_check(Reg::Rax, 2));
}

#[test]
fn each_operation_checks_what_it_needs() {
    assert_eq!(runtime_prim1_check(Reg::Rax, &Prim::Add1), num_check(Reg::Rax, 0));
    assert_eq!(runtime_prim1_check(Reg::Rax, &Prim::Sub1), num_check(Reg::Rax, 0));
    assert_eq!(runtime_prim1_check(Reg::Rax, &Prim::Not), bool_check(Reg::Rax, 3));
    assert_eq!(runtime_prim1_check(Reg::Rax, &Prim::Print), vec![]);
    assert_eq!(runtime_prim1_check(Reg::Rax, &Prim::IsNum), vec![]);
    assert_eq!(runtime_prim1_check(Reg::Rax, &Prim::IsBool), vec![]);
    for p in [Prim::Add, Prim::Sub, Prim::Mul] {
        assert_eq!(runtime_prim2_check(Reg::R10, &p), num_check(Reg::R10, 0));
    }
    for p in [Prim::And, Prim::Or] {
        assert_eq!(runtime_prim2_check(Reg::Rax, &p), bool_check(Reg::Rax, 3));
    }
    for p in [Prim::Lt, Prim::Gt, Prim::Le, Prim::Ge, Prim::Eq, Prim::Neq] {
        assert_eq!(runtime_prim2_check(Reg::Rax, &p), num_check(Reg::Rax, 1));
        assert_eq!(runtime_prim2_check(Reg::R10, &p), num_check(Reg::R10, 1));
    }
}

#[test]
fn add1_and_sub1_add_and_subtract_two() {
    let mut add1 = vec![comment("Add1"), Instr::Add(on_rax(Arg32::Signed(2)))];
    add1.extend(overflow_check());
    assert_eq!(compile_prim1_to_instr(&Prim::Add1, 8), add1);
    let mut sub1 = vec![comment("Sub1"), Instr::Sub(on_rax(Arg32::Signed(2)))];
    sub1.extend(overflow_check());
    assert_eq!(compile_prim1_to_instr(&Prim::Sub1, 8), sub1);
}

#[test]
fn not_flips_the_highest_bit() {
    assert_eq!(
        compile_prim1_to_instr(&Prim::Not, 8),
        vec![
            comment("Not"),
            mov(Reg::R10, Arg64::Unsigned(0x8000_0000_0000_0000)),
            Instr::Xor(on_rax(Arg32::Reg(Reg::R10))),
        ]
    );
}

#[test]
fn print_calls_the_runtime_below_the_frame() {
    assert_eq!(
        compile_prim1_to_instr(&Prim::Print, 24),
        vec![
            comment("Print"),
            mov(Reg::Rdi, Arg64::Reg(Reg::Rax)),
            Instr::Sub(BinArgs::ToReg(Reg::Rsp, Arg32::Signed(32))),
            Instr::Call(s("print_snake_val")),
            Instr::Add(BinArgs::ToReg(Reg::Rsp, Arg32::Signed(32))),
        ]
    );
}

#[test]
fn the_kind_of_a_value_is_read_from_its_lowest_bit() {
    assert_eq!(
        compile_prim1_to_instr(&Prim::IsNum, 8),
        vec![
            comment("IsNum"),
            mov(Reg::R10, Arg64::Unsigned(1)),
            Instr::And(on_rax(Arg32::Reg(Reg::R10))),
            Instr::Shl(on_rax(Arg32::Unsigned(63))),
            mov(Reg::R10, Arg64::Unsigned(TRUE)),
            Instr::Xor(on_rax(Arg32::Reg(Reg::R10))),
        ]
    );
    assert_eq!(
        compile_prim1_to_instr(&Prim::IsBool, 8),
        vec![
            comment("IsBool"),
            mov(Reg::R10, Arg64::Unsigned(1)),
            Instr::And(on_rax(Arg32::Reg(Reg::R10))),
            Instr::Shl(on_rax(Arg32::Unsigned(63))),
            mov(Reg::R10, Arg64::Unsigned(FALSE)),
            Instr::Or(on_rax(Arg32::Reg(Reg::R10))),
        ]
    );
}

#[test]
fn arithmetic_is_followed_by_the_overflow_check() {
    let mut add = vec![comment("Add"), Instr::Add(on_rax(Arg32::Reg(Reg::R10)))];
    add.extend(overflow_check());
    assert_eq!(compile_prim2_to_instr(&Prim::Add, 1), add);
    let mut sub = vec![comment("Sub"), Instr::Sub(on_rax(Arg32::Reg(Reg::R10)))];
    sub.extend(overflow_check());
    assert_eq!(compile_prim2_to_instr(&Prim::Sub, 1), sub);
    let mut mul = vec![
        comment("Mul"),
        Instr::Sar(on_rax(Arg32::Unsigned(1))),
        Instr::IMul(on_rax(Arg32::Reg(Reg::R10))),
    ];
    mul.extend(overflow_check());
    assert_eq!(compile_prim2_to_instr(&Prim::Mul, 1), mul);
}

#[test]
fn logic_is_bitwise() {
    assert_eq!(
        compile_prim2_to_instr(&Prim::And, 1),
        vec![Instr::And(on_rax(Arg32::Reg(Reg::R10)))]
    );
    assert_eq!(compile_prim2_to_instr(&Prim::Or, 1), vec![Instr::Or(on_rax(Arg32::Reg(Reg::R10)))]);
}

fn comparison(jump: Instr, label: &str) -> Vec<Instr> {
    vec![
        comment("Compare"),
        Instr::Cmp(on_rax(Arg32::Reg(Reg::R10))),
        mov(Reg::Rax, Arg64::Unsigned(TRUE)),
        jump,
        mov(Reg::Rax, Arg64::Unsigned(FALSE)),
        Instr::Label(s(label)),
    ]
}

#[test]
fn a_comparison_jumps_over_false_to_a_label_of_its_own() {
    assert_eq!(
        compile_prim2_to_instr(&Prim::Lt, 5),
        comparison(Instr::Jl(s("less_than#5")), "less_than#5")
    );
    assert_eq!(
        compile_prim2_to_instr(&Prim::Gt, 6),
        comparison(Instr::Jg(s("greater_than#6")), "greater_than#6")
    );
    assert_eq!(
        compile_prim2_to_instr(&Prim::Le, 7),
        comparison(Instr::Jle(s("less_equal#7")), "less_equal#7")
    );
    assert_eq!(
        compile_prim2_to_instr(&Prim::Ge, 8),
        comparison(Instr::Jge(s("greater_equal#8")), "greater_equal#8")
    );
    assert_eq!(
        compile_prim2_to_instr(&Prim::Eq, 9),
        comparison(Instr::Je(s("equal#9")), "equal#9")
    );
    assert_eq!(
        compile_prim2_to_instr(&Prim::Neq, 4294967295),
        comparison(Instr::Jne(s("unequal#4294967295")), "unequal#4294967295")
    );
}

fn seq_let(x: &str, bound: SeqExp<u32>, body: SeqExp<u32>) -> SeqExp<u32> {
    SeqExp::Let { var: s(x), bound_exp: Box::new(bound), body: Box::new(body), ann: 0 }
}

#[test]
fn the_slots_that_an_expression_needs() {
    assert_eq!(space_needed_helper(&imm(1)), 0);
    assert_eq!(space_needed_helper(&SeqExp::Prim(Prim::Add1, vec![ImmExp::Num(1)], 0)), 0);
    assert_eq!(space_needed_helper(&SeqExp::InternalTailCall(s("f"), vec![], 0)), 0);
    let one = seq_let("x", imm(1), imm(2));
    assert_eq!(space_needed_helper(&one), 1);
    let in_body = seq_let("x", imm(1), seq_let("y", imm(2), imm(3)));
    assert_eq!(space_needed_helper(&in_body), 2);
    let in_bound = seq_let("x", seq_let("y", seq_let("z", imm(1), imm(2)), imm(3)), imm(4));
    assert_eq!(space_needed_helper(&in_bound), 1);
    let deep_bound = seq_let("x", seq_let("y", imm(1), seq_let("z", imm(2), imm(3))), imm(4));
    assert_eq!(space_needed_helper(&deep_bound), 2);
    let branches = SeqExp::If {
        cond: ImmExp::Bool(true),
        thn: Box::new(seq_let("x", imm(1), imm(2))),
        els: Box::new(seq_let("x", imm(1), seq_let("y", imm(2), imm(3)))),
        ann: 0,
    };
    assert_eq!(space_needed_helper(&branches), 2);
    let group = SeqExp::FunDefs {
        decls: vec![
            FunDecl { name: s("f"), parameters: vec![], body: seq_let("x", imm(1), imm(2)), ann: 0 },
            FunDecl {
                name: s("g"),
                parameters: vec![],
                body: seq_let("x", imm(1), seq_let("y", imm(2), imm(3))),
                ann: 0,
            },
        ],
        body: Box::new(seq_let("z", imm(1), imm(2))),
        ann: 0,
    };
    assert_eq!(space_needed_helper(&group), 3);
    let with_parameters = SeqExp::FunDefs {
        decls: vec![
            FunDecl {
                name: s("f"),
                parameters: vec![s("a"), s("b"), s("c")],
                body: seq_let("x", imm(1), imm(2)),
                ann: 0,
            },
            FunDecl { name: s("g"), parameters: vec![s("a")], body: imm(1), ann: 0 },
        ],
        body: Box::new(seq_let("z", imm(1), imm(2))),
        ann: 0,
    };
    assert_eq!(space_needed_helper(&with_parameters), (3 + 1) + 1);
}

#[test]
fn a_frame_holds_an_odd_number_of_slots() {
    assert_eq!(space_needed(&imm(1), 0), 8);
    assert_eq!(space_needed(&imm(1), 1), 8);
    assert_eq!(space_needed(&imm(1), 2), 24);
    assert_eq!(space_needed(&imm(1), 3), 24);
    let one = seq_let("x", imm(1), imm(2));
    assert_eq!(space_needed(&one, 0), 8);
    assert_eq!(space_needed(&one, 1), 24);
    assert_eq!(space_needed(&one, 4), 40);
}

#[test]
fn an_immediate_is_moved_to_rax() {
    let frame = Frame::new();
    assert_eq!(compile_to_instrs_help(&imm(5), &frame, 8), vec![mov(Reg::Rax, Arg64::Signed(10))]);
}

#[test]
fn a_let_stores_the_value_in_the_next_slot() {
    let e = seq_let("x", imm(5), seq_let("y", imm(6), SeqExp::Imm(ImmExp::Var(s("x")), 0)));
    let frame = Frame::new();
    assert_eq!(
        compile_to_instrs_help(&e, &frame, 24),
        vec![
            mov(Reg::Rax, Arg64::Signed(10)),
            comment("Let var: x"),
            store(-8),
            mov(Reg::Rax, Arg64::Signed(12)),
            comment("Let var: y"),
            store(-16),
            mov(Reg::Rax, slot(-8)),
        ]
    );
}

#[test]
fn a_unary_operation_loads_checks_and_computes() {
    let mut frame = Frame::new();
    frame.insert(s("x"), -8);
    let e: SeqExp<u32> = SeqExp::Prim(Prim::Add1, vec![ImmExp::Var(s("x"))], 3);
    let mut expected = vec![comment("Prim1"), mov(Reg::Rax, slot(-8))];
    expected.extend(num_check(Reg::Rax, 0));
    expected.extend(vec![comment("Add1"), Instr::Add(on_rax(Arg32::Signed(2)))]);
    expected.extend(overflow_check());
    assert_eq!(compile_to_instrs_help(&e, &frame, 8), expected);
}

#[test]
fn a_binary_operation_loads_and_checks_both_operands() {
    let mut frame = Frame::new();
    frame.insert(s("x"), -8);
    frame.insert(s("y"), -16);
    let e: SeqExp<u32> =
        SeqExp::Prim(Prim::Lt, vec![ImmExp::Var(s("x")), ImmExp::Var(s("y"))], 3);
    let mut expected = vec![comment("Prim2"), mov(Reg::Rax, slot(-8))];
    expected.extend(num_check(Reg::Rax, 1));
    expected.push(mov(Reg::R10, slot(-16)));
    expected.extend(num_check(Reg::R10, 1));
    expected.extend(comparison(Instr::Jl(s("less_than#3")), "less_than#3"));
    assert_eq!(compile_to_instrs_help(&e, &frame, 24), expected);
}

#[test]
fn an_if_checks_its_condition_and_branches() {
    let e: SeqExp<u32> = SeqExp::If {
        cond: ImmExp::Bool(true),
        thn: Box::new(imm(1)),
        els: Box::new(imm(2)),
        ann: 6,
    };
    let mut expected = vec![comment("If"), mov(Reg::Rax, Arg64::Unsigned(TRUE))];
    expected.extend(bool_check(Reg::Rax, 2));
    expected.extend(vec![
        mov(Reg::R10, Arg64::Unsigned(FALSE)),
        Instr::Cmp(on_rax(Arg32::Reg(Reg::R10))),
        Instr::Je(s("if_false#6")),
        mov(Reg::Rax, Arg64::Signed(2)),
        Instr::Jmp(s("done#6")),
        Instr::Label(s("if_false#6")),
        mov(Reg::Rax, Arg64::Signed(4)),
        Instr::Label(s("done#6")),
    ]);
    assert_eq!(compile_to_instrs_help(&e, &Frame::new(), 8), expected);
}

#[test]
fn an_external_call_puts_its_arguments_below_the_frame() {
    let mut frame = Frame::new();
    frame.insert(s("a"), -8);
    frame.insert(s("b"), -16);
    let e: SeqExp<u32> = SeqExp::ExternalCall {
        fun_name: s("f"),
        args: vec![ImmExp::Var(s("a")), ImmExp::Var(s("b"))],
        is_tail: false,
        ann: 1,
    };
    assert_eq!(
        compile_to_instrs_help(&e, &frame, 24),
        vec![
            comment("ExCall"),
            mov(Reg::Rax, slot(-8)),
            store(-40),
            mov(Reg::Rax, slot(-16)),
            store(-48),
            Instr::Sub(BinArgs::ToReg(Reg::Rsp, Arg32::Signed(24))),
            Instr::Call(s("f")),
            Instr::Add(BinArgs::ToReg(Reg::Rsp, Arg32::Signed(24))),
        ]
    );
}

#[test]
fn a_tail_call_moves_its_arguments_up_and_jumps() {
    let mut frame = Frame::new();
    frame.insert(s("a"), -8);
    frame.insert(s("b"), -16);
    let moves = vec![
        mov(Reg::Rax, slot(-16)),
        store(-40),
        mov(Reg::Rax, slot(-8)),
        store(-48),
        mov(Reg::Rax, slot(-40)),
        store(-8),
        mov(Reg::Rax, slot(-48)),
        store(-16),
        Instr::Jmp(s("f")),
    ];
    let external: SeqExp<u32> = SeqExp::ExternalCall {
        fun_name: s("f"),
        args: vec![ImmExp::Var(s("b")), ImmExp::Var(s("a"))],
        is_tail: true,
        ann: 1,
    };
    let mut expected = vec![comment("ExCall")];
    expected.extend(moves.clone());
    assert_eq!(compile_to_instrs_help(&external, &frame, 24), expected);
    let internal: SeqExp<u32> =
        SeqExp::InternalTailCall(s("f"), vec![ImmExp::Var(s("b")), ImmExp::Var(s("a"))], 1);
    let mut expected = vec![comment("InCall")];
    expected.extend(moves);
    assert_eq!(compile_to_instrs_help(&internal, &frame, 24), expected);
}

#[test]
fn local_functions_follow_the_body_of_their_group() {
    let mut frame = Frame::new();
    frame.insert(s("a"), -8);
    let e: SeqExp<u32> = SeqExp::FunDefs {
        decls: vec![FunDecl {
            name: s("f"),
            parameters: vec![s("a"), s("x")],
            body: SeqExp::Imm(ImmExp::Var(s("x")), 3),
            ann: 2,
        }],
        body: Box::new(imm(1)),
        ann: 7,
    };
    assert_eq!(
        compile_to_instrs_help(&e, &frame, 24),
        vec![
            comment("FunDefs7_body"),
            mov(Reg::Rax, Arg64::Signed(2)),
            Instr::Ret,
            comment("FunDefs7_decls"),
            Instr::Label(s("f")),
            mov(Reg::Rax, slot(-16)),
            Instr::Ret,
        ]
    );
}

#[test]
fn a_program_starts_with_main_and_ends_with_the_trap() {
    let p: SeqProg<u32> = SeqProg {
        funs: vec![FunDecl {
            name: s("f"),
            parameters: vec![s("a"), s("b")],
            body: SeqExp::Imm(ImmExp::Var(s("b")), 2),
            ann: 1,
        }],
        main: imm(5),
        ann: 0,
    };
    assert_eq!(
        compile_to_instrs(&p),
        vec![
            Instr::Call(s("main")),
            Instr::Ret,
            Instr::Label(s("main")),
            mov(Reg::Rax, Arg64::Signed(10)),
            Instr::Ret,
            comment("Global FunDecls"),
            Instr::Label(s("f")),
            mov(Reg::Rax, slot(-16)),
            Instr::Ret,
            Instr::Label(s("snake_err")),
            Instr::Call(s("snake_error")),
        ]
    );
}

#[test]
fn the_text_of_the_smallest_program() {
    let p: Exp<()> = Exp::Num(5, ());
    let expected = "section .text
        global start_here
        extern snake_error
        extern print_snake_val
start_here:
        call main
        ret
main:
        mov rax, 10
        ret
        ;;; Global FunDecls
snake_err:
        call snake_error

";
    assert_eq!(compile_to_string(&p), Ok(expected.to_string()));
}

#[test]
fn the_text_of_a_program_with_a_let() {
    let p: Exp<()> = Exp::Let {
        bindings: vec![(s("x"), Exp::Bool(true, ()))],
        body: Box::new(Exp::Var(s("x"), ())),
        ann: (),
    };
    let expected = "section .text
        global start_here
        extern snake_error
        extern print_snake_val
start_here:
        call main
        ret
main:
        mov rax, 0xffffffffffffffff
        ;;; Let var: x#1
        mov QWORD [rsp - 8], rax
        mov rax, QWORD [rsp - 8]
        ret
        ;;; Global FunDecls
snake_err:
        call snake_error

";
    assert_eq!(compile_to_string(&p), Ok(expected.to_string()));
}
