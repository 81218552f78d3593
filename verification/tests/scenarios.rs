//! Whole programs, compiled and then run on a small model of the processor.

use snake::codegen::compile_to_instrs;
use snake::compile::{check_prog, compile_to_string, try_compile_to_string, CompileErr};
use snake::lift::lambda_lift;
use snake::sequential::seq_prog;
use snake::syntax::{Exp, FunDecl, Prim};
use snake::tag::{tag_exp, tag_prog, tag_sprog};
use snake::uniquify::uniquify;
use snake::value::{snake_error_message, sprint_snake_val, SnakeVal};
use snake::x86::{Arg32, Arg64, BinArgs, Instr, MemRef, MovArgs, Reg, Reg32};

fn num(n: i64) -> Exp<u32> {
    Exp::Num(n, 0)
}

fn boolean(b: bool) -> Exp<u32> {
    Exp::Bool(b, 0)
}

fn var(x: &str) -> Exp<u32> {
    Exp::Var(x.to_string(), 0)
}

fn prim1(p: Prim, e: Exp<u32>) -> Exp<u32> {
    Exp::Prim(p, vec![Box::new(e)], 0)
}

fn prim2(p: Prim, a: Exp<u32>, b: Exp<u32>) -> Exp<u32> {
    Exp::Prim(p, vec![Box::new(a), Box::new(b)], 0)
}

fn let_in(bindings: Vec<(&str, Exp<u32>)>, body: Exp<u32>) -> Exp<u32> {
    Exp::Let {
        bindings: bindings.into_iter().map(|(x, e)| (x.to_string(), e)).collect(),
        body: Box::new(body),
        ann: 0,
    }
}

fn if_then(c: Exp<u32>, t: Exp<u32>, e: Exp<u32>) -> Exp<u32> {
    Exp::If { cond: Box::new(c), thn: Box::new(t), els: Box::new(e), ann: 0 }
}

fn def(name: &str, params: Vec<&str>, body: Exp<u32>) -> FunDecl<Exp<u32>, u32> {
    FunDecl {
        name: name.to_string(),
        parameters: params.into_iter().map(|x| x.to_string()).collect(),
        body,
        ann: 0,
    }
}

fn defs_in(decls: Vec<FunDecl<Exp<u32>, u32>>, body: Exp<u32>) -> Exp<u32> {
    Exp::FunDefs { decls, body: Box::new(body), ann: 0 }
}

fn call(f: &str, args: Vec<Exp<u32>>) -> Exp<u32> {
    Exp::Call(f.to_string(), args, 0)
}

fn instructions(p: &Exp<u32>) -> Vec<Instr> {
    assert!(p.is_surface());
    assert!(p.prims_saturated());
    check_prog(p).unwrap();
    let mut tag: u32 = 0;
    let tagged = tag_exp(p, &mut tag);
    let unique = uniquify(&tagged);
    let (defs, main) = lambda_lift(&unique);
    let (t_defs, t_main) = tag_prog(&defs, &main);
    let sequential = tag_sprog(&seq_prog(&t_defs, &t_main));
    compile_to_instrs(&sequential)
}

/// What a run ends in: the lines printed, and the value returned or the message of the
/// trap.
struct Outcome {
    printed: Vec<String>,
    result: Result<String, String>,
    deepest: i64,
}

const WORDS: usize = 1 << 16;

fn reg_index(r: Reg) -> usize {
    match r {
        Reg::Rax => 0,
        Reg::Rbx => 1,
        Reg::Rcx => 2,
        Reg::Rdx => 3,
        Reg::Rsi => 4,
        Reg::Rdi => 5,
        Reg::Rsp => 6,
        Reg::Rbp => 7,
        Reg::R8 => 8,
        Reg::R9 => 9,
        Reg::R10 => 10,
        Reg::R11 => 11,
        Reg::R12 => 12,
        Reg::R13 => 13,
        Reg::R14 => 14,
        Reg::R15 => 15,
    }
}

struct Machine {
    regs: [u64; 16],
    mem: Vec<u64>,
    zero: bool,
    sign: bool,
    overflow: bool,
    deepest: i64,
}

impl Machine {
    fn address(&mut self, m: MemRef) -> usize {
        let a = self.regs[reg_index(m.reg)] as i64 + m.offset as i64;
        assert!(a % 8 == 0, "unaligned access");
        if a < self.deepest {
            self.deepest = a;
        }
        let i = (a / 8) as usize;
        assert!(i < WORDS, "stack exhausted");
        i
    }

    fn arg64(&mut self, a: Arg64) -> u64 {
        match a {
            Arg64::Reg(r) => self.regs[reg_index(r)],
            Arg64::Signed(n) => n as u64,
            Arg64::Unsigned(n) => n,
            Arg64::Mem(m) => {
                let i = self.address(m);
                self.mem[i]
            }
        }
    }

    fn arg32(&mut self, a: Arg32) -> u64 {
        match a {
            Arg32::Reg(r) => self.regs[reg_index(r)],
            Arg32::Signed(n) => n as i64 as u64,
            Arg32::Unsigned(n) => n as u64,
            Arg32::Mem(m) => {
                let i = self.address(m);
                self.mem[i]
            }
        }
    }

    fn reg32(&mut self, a: Reg32) -> u64 {
        match a {
            Reg32::Reg(r) => self.regs[reg_index(r)],
            Reg32::Signed(n) => n as i64 as u64,
            Reg32::Unsigned(n) => n as u64,
        }
    }

    fn read(&mut self, a: BinArgs) -> (u64, u64) {
        match a {
            BinArgs::ToReg(r, s) => (self.regs[reg_index(r)], self.arg32(s)),
            BinArgs::ToMem(m, s) => {
                let i = self.address(m);
                (self.mem[i], self.reg32(s))
            }
        }
    }

    fn write(&mut self, a: BinArgs, v: u64) {
        match a {
            BinArgs::ToReg(r, _) => self.regs[reg_index(r)] = v,
            BinArgs::ToMem(m, _) => {
                let i = self.address(m);
                self.mem[i] = v;
            }
        }
    }

    fn flags(&mut self, v: u64, overflow: bool) {
        self.zero = v == 0;
        self.sign = (v as i64) < 0;
        self.overflow = overflow;
    }
}

fn label_of(i: &Instr) -> Option<&String> {
    match i {
        Instr::Call(s)
        | Instr::Jmp(s)
        | Instr::Je(s)
        | Instr::Jne(s)
        | Instr::Jl(s)
        | Instr::Jle(s)
        | Instr::Jg(s)
        | Instr::Jge(s)
        | Instr::Jz(s)
        | Instr::Jnz(s)
        | Instr::Jo(s)
        | Instr::Jno(s) => Some(s),
        _ => None,
    }
}

const HALT: usize = usize::MAX;
const PRINT: usize = usize::MAX - 1;
const ERROR: usize = usize::MAX - 2;

fn run(is: &[Instr]) -> Outcome {
    let mut labels = std::collections::HashMap::new();
    for (k, i) in is.iter().enumerate() {
        if let Instr::Label(s) = i {
            assert!(labels.insert(s.clone(), k).is_none(), "label {} twice", s);
        }
    }
    let targets: Vec<usize> = is
        .iter()
        .map(|i| match label_of(i) {
            None => HALT,
            Some(s) if s == "print_snake_val" => PRINT,
            Some(s) if s == "snake_error" => ERROR,
            Some(s) => *labels.get(s).unwrap_or_else(|| panic!("no label {}", s)),
        })
        .collect();
    let top = (WORDS as i64 - 3) * 8;
    let mut m = Machine {
        regs: [0; 16],
        mem: vec![0; WORDS],
        zero: false,
        sign: false,
        overflow: false,
        deepest: top,
    };
    m.regs[reg_index(Reg::Rsp)] = top as u64;
    let mut printed = Vec::new();
    let mut returns: Vec<usize> = vec![HALT];
    let mut pc: usize = 0;
    loop {
        if pc == HALT {
            let text = sprint_snake_val(SnakeVal(m.regs[0]));
            return Outcome { printed, result: Ok(text), deepest: top - m.deepest };
        }
        assert!(pc < is.len(), "ran off the end of the code");
        let here = pc;
        pc += 1;
        match &is[here] {
            Instr::Mov(MovArgs::ToReg(r, s)) => {
                let v = m.arg64(*s);
                m.regs[reg_index(*r)] = v;
            }
            Instr::Mov(MovArgs::ToMem(d, s)) => {
                let v = m.reg32(*s);
                let i = m.address(*d);
                m.mem[i] = v;
            }
            Instr::Add(a) => {
                let (x, y) = m.read(*a);
                let (v, o) = (x as i64).overflowing_add(y as i64);
                m.flags(v as u64, o);
                m.write(*a, v as u64);
            }
            Instr::Sub(a) => {
                let (x, y) = m.read(*a);
                let (v, o) = (x as i64).overflowing_sub(y as i64);
                m.flags(v as u64, o);
                m.write(*a, v as u64);
            }
            Instr::IMul(a) => {
                let (x, y) = m.read(*a);
                let (v, o) = (x as i64).overflowing_mul(y as i64);
                m.flags(v as u64, o);
                m.write(*a, v as u64);
            }
            Instr::And(a) => {
                let (x, y) = m.read(*a);
                m.flags(x & y, false);
                m.write(*a, x & y);
            }
            Instr::Or(a) => {
                let (x, y) = m.read(*a);
                m.flags(x | y, false);
                m.write(*a, x | y);
            }
            Instr::Xor(a) => {
                let (x, y) = m.read(*a);
                m.flags(x ^ y, false);
                m.write(*a, x ^ y);
            }
            Instr::Shl(a) => {
                let (x, y) = m.read(*a);
                m.write(*a, x << (y & 63));
            }
            Instr::Shr(a) => {
                let (x, y) = m.read(*a);
                m.write(*a, x >> (y & 63));
            }
            Instr::Sar(a) => {
                let (x, y) = m.read(*a);
                m.write(*a, ((x as i64) >> (y & 63)) as u64);
            }
            Instr::Cmp(a) => {
                let (x, y) = m.read(*a);
                let (v, o) = (x as i64).overflowing_sub(y as i64);
                m.flags(v as u64, o);
            }
            Instr::Test(a) => {
                let (x, y) = m.read(*a);
                m.flags(x & y, false);
            }
            Instr::Label(_) | Instr::Comment(_) => {}
            Instr::Call(_) => {
                let rsp = m.regs[reg_index(Reg::Rsp)];
                if targets[here] == PRINT || targets[here] == ERROR {
                    assert!(rsp % 16 == 0, "stack not aligned at a call of the runtime");
                }
                match targets[here] {
                    PRINT => {
                        let v = m.regs[reg_index(Reg::Rdi)];
                        printed.push(sprint_snake_val(SnakeVal(v)));
                        // The callee is free to use the stack below the stack pointer.
                        let below = (rsp / 8) as usize;
                        for k in 1..=64 {
                            m.mem[below - k] = 0xBAD0_BAD0_BAD0_BAD0;
                        }
                        for r in [Reg::Rcx, Reg::Rdx, Reg::Rsi, Reg::Rdi, Reg::R8, Reg::R9, Reg::R10, Reg::R11] {
                            m.regs[reg_index(r)] = 0xBAD1_BAD1_BAD1_BAD1;
                        }
                        m.regs[0] = v;
                    }
                    ERROR => {
                        let code = m.regs[reg_index(Reg::Rdi)];
                        let v = m.regs[reg_index(Reg::Rsi)];
                        let text = snake_error_message(code, SnakeVal(v));
                        return Outcome { printed, result: Err(text), deepest: top - m.deepest };
                    }
                    t => {
                        m.regs[reg_index(Reg::Rsp)] = rsp - 8;
                        let i = m.address(MemRef { reg: Reg::Rsp, offset: 0 });
                        m.mem[i] = 0xDEAD_BEEF_0000_0000 | here as u64;
                        returns.push(pc);
                        pc = t;
                    }
                }
            }
            Instr::Ret => {
                let back = returns.pop().expect("return without a call");
                if back != HALT {
                    let i = m.address(MemRef { reg: Reg::Rsp, offset: 0 });
                    assert_eq!(m.mem[i] >> 32, 0xDEAD_BEEF, "return address overwritten");
                    m.regs[reg_index(Reg::Rsp)] += 8;
                }
                pc = back;
            }
            Instr::Jmp(_) => pc = targets[here],
            Instr::Je(_) | Instr::Jz(_) => {
                if m.zero {
                    pc = targets[here];
                }
            }
            Instr::Jne(_) | Instr::Jnz(_) => {
                if !m.zero {
                    pc = targets[here];
                }
            }
            Instr::Jl(_) => {
                if m.sign != m.overflow {
                    pc = targets[here];
                }
            }
            Instr::Jle(_) => {
                if m.zero || m.sign != m.overflow {
                    pc = targets[here];
                }
            }
            Instr::Jg(_) => {
                if !m.zero && m.sign == m.overflow {
                    pc = targets[here];
                }
            }
            Instr::Jge(_) => {
                if m.sign == m.overflow {
                    pc = targets[here];
                }
            }
            Instr::Jo(_) => {
                if m.overflow {
                    pc = targets[here];
                }
            }
            Instr::Jno(_) => {
                if !m.overflow {
                    pc = targets[here];
                }
            }
        }
    }
}

fn run_program(p: &Exp<u32>) -> Outcome {
    run(&instructions(p))
}

fn stdout_of(p: &Exp<u32>) -> String {
    let o = run_program(p);
    let last = o.result.expect("the program trapped");
    let mut lines = o.printed;
    lines.push(last);
    lines.join("\n")
}

fn stderr_of(p: &Exp<u32>) -> String {
    run_program(p).result.expect_err("the program did not trap")
}

#[test]
fn a_number_is_its_own_value() {
    assert_eq!(stdout_of(&num(5)), "5");
}

#[test]
fn add1_of_sub1() {
    let p = prim1(Prim::Add1, prim1(Prim::Sub1, num(3)));
    assert_eq!(stdout_of(&p), "3");
}

#[test]
fn if_true_takes_the_first_branch() {
    let p = if_then(boolean(true), num(1), num(2));
    assert_eq!(stdout_of(&p), "1");
}

#[test]
fn if_false_takes_the_second_branch() {
    let p = if_then(boolean(false), num(1), num(2));
    assert_eq!(stdout_of(&p), "2");
}

#[test]
fn let_and_print() {
    let p = let_in(
        vec![("x", num(10)), ("y", prim2(Prim::Add, var("x"), num(1)))],
        prim1(Prim::Print, var("y")),
    );
    assert_eq!(stdout_of(&p), "11\n11");
}

fn factorial(n: i64) -> Exp<u32> {
    defs_in(
        vec![def(
            "fact",
            vec!["n"],
            if_then(
                prim2(Prim::Lt, var("n"), num(2)),
                num(1),
                prim2(
                    Prim::Mul,
                    var("n"),
                    call("fact", vec![prim2(Prim::Sub, var("n"), num(1))]),
                ),
            ),
        )],
        call("fact", vec![num(n)]),
    )
}

#[test]
fn factorial_of_five() {
    assert_eq!(stdout_of(&factorial(5)), "120");
}

#[test]
fn factorial_of_twenty() {
    assert_eq!(stdout_of(&factorial(20)), "2432902008176640000");
}

#[test]
fn factorial_is_lifted_and_called() {
    let text = compile_to_string(&factorial(5)).unwrap();
    assert!(text.contains("\nfact#1:\n"));
    assert!(text.contains("        call fact#1\n"));
}

fn count_down(n: i64) -> Exp<u32> {
    defs_in(
        vec![def(
            "loop",
            vec!["n"],
            if_then(
                prim2(Prim::Eq, var("n"), num(0)),
                num(0),
                call("loop", vec![prim2(Prim::Sub, var("n"), num(1))]),
            ),
        )],
        call("loop", vec![num(n)]),
    )
}

#[test]
fn a_million_tail_calls() {
    let o = run_program(&count_down(1000000));
    assert_eq!(o.result, Ok("0".to_string()));
    assert!(o.printed.is_empty());
}

#[test]
fn tail_calls_use_no_more_stack() {
    let few = run_program(&count_down(3));
    let many = run_program(&count_down(3000));
    assert_eq!(few.result, Ok("0".to_string()));
    assert_eq!(many.result, Ok("0".to_string()));
    assert_eq!(few.deepest, many.deepest);
}

#[test]
fn a_tail_recursive_function_is_not_lifted() {
    let text = compile_to_string(&count_down(10)).unwrap();
    assert!(text.contains("        jmp loop#1\n"));
    assert!(!text.contains("call loop#1"));
}

#[test]
fn a_literal_out_of_range_is_rejected() {
    let p = prim2(Prim::Add, Exp::Num(4611686018427387904, 7), Exp::Num(1, 8));
    assert_eq!(
        check_prog(&p),
        Err(CompileErr::Overflow { num: 4611686018427387904, location: 7 })
    );
    assert_eq!(
        compile_to_string(&p),
        Err(CompileErr::Overflow { num: 4611686018427387904, location: 7 })
    );
}

#[test]
fn addition_past_the_largest_number_traps() {
    let p = prim2(Prim::Add, num(4611686018427387903), num(1));
    assert_eq!(stderr_of(&p), "overflow");
}

#[test]
fn subtraction_past_the_smallest_number_traps() {
    let p = prim2(Prim::Sub, num(-4611686018427387904), num(1));
    assert_eq!(stderr_of(&p), "overflow");
}

#[test]
fn multiplication_out_of_range_traps() {
    let p = prim2(Prim::Mul, num(4611686018427387903), num(2));
    assert_eq!(stderr_of(&p), "overflow");
}

#[test]
fn add1_and_sub1_trap_at_the_ends_of_the_range() {
    assert_eq!(stderr_of(&prim1(Prim::Add1, num(4611686018427387903))), "overflow");
    assert_eq!(stderr_of(&prim1(Prim::Sub1, num(-4611686018427387904))), "overflow");
    assert_eq!(stdout_of(&prim1(Prim::Add1, num(4611686018427387902))), "4611686018427387903");
    assert_eq!(stdout_of(&prim1(Prim::Sub1, num(-4611686018427387903))), "-4611686018427387904");
}

#[test]
fn if_on_a_number_traps() {
    let p = if_then(num(3), num(1), num(2));
    let message = stderr_of(&p);
    assert!(message.contains("if expected a boolean"));
    assert_eq!(message, "if expected a boolean but got a number 3");
}

#[test]
fn arithmetic_on_a_boolean_traps() {
    assert_eq!(
        stderr_of(&prim2(Prim::Add, num(1), boolean(true))),
        "arithmetic expected a number but got a boolean true"
    );
    assert_eq!(
        stderr_of(&prim1(Prim::Add1, boolean(false))),
        "arithmetic expected a number but got a boolean false"
    );
    assert_eq!(
        stderr_of(&prim2(Prim::Mul, boolean(false), num(2))),
        "arithmetic expected a number but got a boolean false"
    );
}

#[test]
fn comparison_of_a_boolean_traps() {
    assert_eq!(
        stderr_of(&prim2(Prim::Lt, boolean(true), num(2))),
        "comparison expected a number but got a boolean true"
    );
    assert_eq!(
        stderr_of(&prim2(Prim::Ge, num(2), boolean(false))),
        "comparison expected a number but got a boolean false"
    );
    assert_eq!(
        stderr_of(&prim2(Prim::Eq, boolean(true), boolean(true))),
        "comparison expected a number but got a boolean true"
    );
    assert_eq!(
        stderr_of(&prim2(Prim::Eq, num(1), boolean(false))),
        "comparison expected a number but got a boolean false"
    );
    assert_eq!(
        stderr_of(&prim2(Prim::Neq, boolean(true), num(1))),
        "comparison expected a number but got a boolean true"
    );
    assert_eq!(
        stderr_of(&prim2(Prim::Neq, num(1), boolean(false))),
        "comparison expected a number but got a boolean false"
    );
}

#[test]
fn logic_on_a_number_traps() {
    assert_eq!(
        stderr_of(&prim1(Prim::Not, num(7))),
        "logic expected a boolean but got a number 7"
    );
    assert_eq!(
        stderr_of(&prim2(Prim::And, boolean(true), num(-2))),
        "logic expected a boolean but got a number -2"
    );
    assert_eq!(
        stderr_of(&prim2(Prim::Or, num(0), boolean(true))),
        "logic expected a boolean but got a number 0"
    );
}

#[test]
fn arithmetic_gives_the_exact_result() {
    assert_eq!(stdout_of(&prim2(Prim::Add, num(40), num(2))), "42");
    assert_eq!(stdout_of(&prim2(Prim::Sub, num(40), num(42))), "-2");
    assert_eq!(stdout_of(&prim2(Prim::Mul, num(-6), num(7))), "-42");
    assert_eq!(stdout_of(&prim2(Prim::Mul, num(0), num(7))), "0");
}

#[test]
fn comparisons_give_booleans() {
    assert_eq!(stdout_of(&prim2(Prim::Lt, num(1), num(2))), "true");
    assert_eq!(stdout_of(&prim2(Prim::Lt, num(2), num(2))), "false");
    assert_eq!(stdout_of(&prim2(Prim::Le, num(2), num(2))), "true");
    assert_eq!(stdout_of(&prim2(Prim::Gt, num(-1), num(-2))), "true");
    assert_eq!(stdout_of(&prim2(Prim::Ge, num(-3), num(-2))), "false");
    assert_eq!(stdout_of(&prim2(Prim::Eq, num(5), num(5))), "true");
    assert_eq!(stdout_of(&prim2(Prim::Neq, num(5), num(5))), "false");
    assert_eq!(stdout_of(&prim2(Prim::Eq, num(5), num(-5))), "false");
    assert_eq!(stdout_of(&prim2(Prim::Neq, num(4), num(5))), "true");
}

#[test]
fn logic_gives_booleans() {
    assert_eq!(stdout_of(&prim1(Prim::Not, boolean(true))), "false");
    assert_eq!(stdout_of(&prim1(Prim::Not, boolean(false))), "true");
    assert_eq!(stdout_of(&prim2(Prim::And, boolean(true), boolean(false))), "false");
    assert_eq!(stdout_of(&prim2(Prim::And, boolean(true), boolean(true))), "true");
    assert_eq!(stdout_of(&prim2(Prim::Or, boolean(false), boolean(false))), "false");
    assert_eq!(stdout_of(&prim2(Prim::Or, boolean(false), boolean(true))), "true");
}

#[test]
fn kinds_of_values_are_told_apart() {
    assert_eq!(stdout_of(&prim1(Prim::IsNum, num(3))), "true");
    assert_eq!(stdout_of(&prim1(Prim::IsNum, boolean(false))), "false");
    assert_eq!(stdout_of(&prim1(Prim::IsBool, boolean(false))), "true");
    assert_eq!(stdout_of(&prim1(Prim::IsBool, num(-1))), "false");
}

#[test]
fn operands_are_evaluated_from_left_to_right() {
    let p = prim2(
        Prim::Add,
        prim1(Prim::Print, num(1)),
        prim2(Prim::Mul, prim1(Prim::Print, num(2)), prim1(Prim::Print, num(3))),
    );
    assert_eq!(stdout_of(&p), "1\n2\n3\n7");
}

#[test]
fn a_later_binding_sees_an_earlier_one() {
    let p = let_in(
        vec![
            ("x", num(1)),
            ("y", prim2(Prim::Add, var("x"), num(1))),
            ("x", prim2(Prim::Mul, var("y"), num(10))),
        ],
        var("x"),
    );
    assert!(matches!(check_prog(&p), Err(CompileErr::DuplicateBinding { .. })));
    let q = let_in(
        vec![("x", num(1)), ("y", prim2(Prim::Add, var("x"), num(1)))],
        let_in(vec![("x", prim2(Prim::Mul, var("y"), num(10)))], var("x")),
    );
    assert_eq!(stdout_of(&q), "20");
}

#[test]
fn a_lifted_function_gets_the_variables_it_captures() {
    let p = let_in(
        vec![("a", num(100)), ("b", num(20))],
        defs_in(
            vec![def(
                "f",
                vec!["x"],
                prim2(Prim::Add, prim2(Prim::Add, var("a"), var("b")), var("x")),
            )],
            prim2(Prim::Add, call("f", vec![num(3)]), num(1)),
        ),
    );
    assert_eq!(stdout_of(&p), "124");
}

#[test]
fn a_local_function_reads_the_variables_it_captures() {
    let p = let_in(
        vec![("a", num(100)), ("b", num(20))],
        defs_in(
            vec![def(
                "f",
                vec!["x"],
                prim2(Prim::Sub, prim2(Prim::Sub, var("a"), var("b")), var("x")),
            )],
            call("f", vec![num(3)]),
        ),
    );
    assert_eq!(stdout_of(&p), "77");
}

#[test]
fn a_function_declared_inside_a_branch_finds_its_argument() {
    let p = if_then(
        boolean(true),
        defs_in(
            vec![def("f", vec!["x"], var("x"))],
            let_in(vec![("a", num(7))], call("f", vec![num(5)])),
        ),
        num(0),
    );
    assert_eq!(stdout_of(&p), "5");
}

#[test]
fn a_recursive_function_inside_a_branch_sees_its_new_argument() {
    let count = def(
        "count",
        vec!["n", "acc"],
        if_then(
            prim2(Prim::Eq, var("n"), num(0)),
            var("acc"),
            call(
                "count",
                vec![prim2(Prim::Sub, var("n"), num(1)), prim2(Prim::Add, var("acc"), num(2))],
            ),
        ),
    );
    let p = let_in(
        vec![("k", num(10))],
        if_then(
            prim2(Prim::Lt, var("k"), num(100)),
            defs_in(vec![count], call("count", vec![var("k"), num(1)])),
            num(0),
        ),
    );
    assert_eq!(stdout_of(&p), "21");
}

#[test]
fn a_function_inside_a_branch_of_a_function_finds_what_it_captures() {
    let inner = def(
        "go",
        vec!["i"],
        if_then(
            prim2(Prim::Ge, var("i"), var("limit")),
            prim2(Prim::Add, var("i"), var("base")),
            call("go", vec![prim2(Prim::Add, var("i"), num(1))]),
        ),
    );
    let outer = def(
        "outer",
        vec!["base", "limit"],
        if_then(
            prim2(Prim::Lt, var("base"), var("limit")),
            defs_in(vec![inner], call("go", vec![num(0)])),
            num(-1),
        ),
    );
    let p = defs_in(
        vec![outer],
        prim2(Prim::Add, call("outer", vec![num(3), num(5)]), num(0)),
    );
    assert_eq!(stdout_of(&p), "8");
}

#[test]
fn a_function_that_stays_keeps_its_variables_over_a_print() {
    let f = def(
        "f",
        vec!["a", "b", "c", "d", "e"],
        let_in(
            vec![
                ("v", num(1)),
                ("w", num(2)),
                ("x", num(3)),
                ("y", prim1(Prim::Print, num(4))),
                ("z", num(5)),
            ],
            var("w"),
        ),
    );
    let g = def("g", vec![], call("f", vec![num(10), num(20), num(30), num(40), num(50)]));
    let p = defs_in(vec![f, g], call("g", vec![]));
    assert_eq!(stdout_of(&p), "4\n2");
}

#[test]
fn mutually_recursive_functions() {
    let even = def(
        "even",
        vec!["n"],
        if_then(
            prim2(Prim::Eq, var("n"), num(0)),
            boolean(true),
            call("odd", vec![prim2(Prim::Sub, var("n"), num(1))]),
        ),
    );
    let odd = def(
        "odd",
        vec!["n"],
        if_then(
            prim2(Prim::Eq, var("n"), num(0)),
            boolean(false),
            call("even", vec![prim2(Prim::Sub, var("n"), num(1))]),
        ),
    );
    let p = defs_in(vec![even, odd], call("even", vec![num(11)]));
    assert_eq!(stdout_of(&p), "false");
}

#[test]
fn a_function_called_from_a_non_tail_position_returns() {
    let p = defs_in(
        vec![def("twice", vec!["x"], prim2(Prim::Mul, var("x"), num(2)))],
        prim1(
            Prim::Print,
            prim2(
                Prim::Add,
                call("twice", vec![call("twice", vec![num(5)])]),
                call("twice", vec![num(1)]),
            ),
        ),
    );
    assert_eq!(stdout_of(&p), "22\n22");
}

#[test]
fn fibonacci() {
    let fib = def(
        "fib",
        vec!["n"],
        if_then(
            prim2(Prim::Lt, var("n"), num(2)),
            var("n"),
            prim2(
                Prim::Add,
                call("fib", vec![prim2(Prim::Sub, var("n"), num(1))]),
                call("fib", vec![prim2(Prim::Sub, var("n"), num(2))]),
            ),
        ),
    );
    let p = defs_in(vec![fib], call("fib", vec![num(15)]));
    assert_eq!(stdout_of(&p), "610");
}

#[test]
fn a_program_that_fits_compiles_through_either_entry() {
    let p = factorial(5);
    let checked = try_compile_to_string(&p).expect("the program fits");
    assert_eq!(checked, compile_to_string(&p));
}

#[test]
fn a_lifted_function_inside_a_function_that_stays() {
    let inner = defs_in(
        vec![def("inner", vec![], num(1))],
        prim2(Prim::Add, call("inner", vec![]), num(1)),
    );
    let p = defs_in(vec![def("outer", vec![], inner)], call("outer", vec![]));
    assert_eq!(stdout_of(&p), "2");
}

#[test]
fn a_lifted_function_jumps_to_a_function_that_stays() {
    let p = defs_in(
        vec![def("f", vec![], num(1))],
        defs_in(
            vec![def("g", vec![], call("f", vec![]))],
            prim2(Prim::Add, call("g", vec![]), num(1)),
        ),
    );
    assert_eq!(stdout_of(&p), "2");
}

#[test]
fn a_lifted_function_hands_on_what_a_function_that_stays_captures() {
    let p = let_in(
        vec![("a", num(5))],
        defs_in(
            vec![def("f", vec!["x"], prim2(Prim::Add, var("a"), var("x")))],
            defs_in(
                vec![def("g", vec!["y"], call("f", vec![var("y")]))],
                prim2(Prim::Add, call("g", vec![num(1)]), num(1)),
            ),
        ),
    );
    assert_eq!(stdout_of(&p), "7");
}

#[test]
fn functions_with_several_parameters_and_local_variables() {
    let p = defs_in(
        vec![def(
            "f",
            vec!["a", "b", "c"],
            let_in(
                vec![
                    ("x", prim2(Prim::Mul, var("a"), var("b"))),
                    ("y", prim2(Prim::Sub, var("x"), var("c"))),
                ],
                prim2(Prim::Add, var("x"), var("y")),
            ),
        )],
        prim2(
            Prim::Add,
            call("f", vec![num(2), num(3), num(4)]),
            call("f", vec![num(1), num(1), num(1)]),
        ),
    );
    assert_eq!(stdout_of(&p), "9");
}

#[test]
fn print_inside_a_lifted_function_keeps_its_variables() {
    let p = defs_in(
        vec![def(
            "f",
            vec!["a", "b"],
            let_in(
                vec![("x", prim1(Prim::Print, var("a"))), ("y", prim1(Prim::Print, var("b")))],
                prim2(Prim::Add, prim2(Prim::Add, var("a"), var("b")), prim2(Prim::Add, var("x"), var("y"))),
            ),
        )],
        prim2(Prim::Add, call("f", vec![num(10), num(20)]), num(0)),
    );
    assert_eq!(stdout_of(&p), "10\n20\n60");
}

#[test]
fn nested_ifs_and_lets() {
    let p = let_in(
        vec![("x", num(7))],
        if_then(
            prim2(Prim::Gt, var("x"), num(5)),
            if_then(
                prim2(Prim::And, prim2(Prim::Le, var("x"), num(7)), prim1(Prim::IsNum, var("x"))),
                let_in(vec![("y", prim2(Prim::Mul, var("x"), var("x")))], prim1(Prim::Sub1, var("y"))),
                num(0),
            ),
            num(-1),
        ),
    );
    assert_eq!(stdout_of(&p), "48");
}
