//! Programs without functions, made at random, compiled and run on a small model of
//! the processor, and held against an interpreter of the language.

use snake::check::check_prog;
use snake::codegen::compile_to_instrs;
use snake::lift::lambda_lift;
use snake::sequential::seq_prog;
use snake::syntax::{Exp, FunDecl, Prim};
use snake::tag::{tag_exp, tag_prog, tag_sprog};
use snake::uniquify::uniquify;
use snake::value::{snake_error_message, sprint_snake_val, SnakeVal};
use snake::x86::{Arg32, Arg64, BinArgs, Instr, MemRef, MovArgs, Reg, Reg32};

fn instructions(p: &Exp<()>) -> Vec<Instr> {
    assert!(p.is_surface());
    assert!(p.prims_saturated());
    check_prog(p).unwrap();
    let mut tag: u32 = 0;
    let tagged = tag_exp(p, &mut tag);
    let unique = uniquify(&tagged);
    let (defs, main) = lambda_lift(&unique);
    let (t_defs, t_main) = tag_prog(&defs, &main);
    let sequential = tag_sprog(&seq_prog(&t_defs, &t_main));
    compile_to_instrs(&sequential)
}

/// What a run ends in: the lines printed, and the value returned or the message of the
/// trap.
struct Outcome {
    printed: Vec<String>,
    result: Result<String, String>,
    deepest: i64,
}

const WORDS: usize = 1 << 16;

fn reg_index(r: Reg) -> usize {
    match r {
        Reg::Rax => 0,
        Reg::Rbx => 1,
        Reg::Rcx => 2,
        Reg::Rdx => 3,
        Reg::Rsi => 4,
        Reg::Rdi => 5,
        Reg::Rsp => 6,
        Reg::Rbp => 7,
        Reg::R8 => 8,
        Reg::R9 => 9,
        Reg::R10 => 10,
        Reg::R11 => 11,
        Reg::R12 => 12,
        Reg::R13 => 13,
        Reg::R14 => 14,
        Reg::R15 => 15,
    }
}

struct Machine {
    regs: [u64; 16],
    mem: Vec<u64>,
    zero: bool,
    sign: bool,
    overflow: bool,
    deepest: i64,
}

impl Machine {
    fn address(&mut self, m: MemRef) -> usize {
        let a = self.regs[reg_index(m.reg)] as i64 + m.offset as i64;
        assert!(a % 8 == 0, "unaligned access");
        if a < self.deepest {
            self.deepest = a;
        }
        let i = (a / 8) as usize;
        assert!(i < WORDS, "stack exhausted");
        i
    }

    fn arg64(&mut self, a: Arg64) -> u64 {
        match a {
            Arg64::Reg(r) => self.regs[reg_index(r)],
            Arg64::Signed(n) => n as u64,
            Arg64::Unsigned(n) => n,
            Arg64::Mem(m) => {
                let i = self.address(m);
                self.mem[i]
            }
        }
    }

    fn arg32(&mut self, a: Arg32) -> u64 {
        match a {
            Arg32::Reg(r) => self.regs[reg_index(r)],
            Arg32::Signed(n) => n as i64 as u64,
            Arg32::Unsigned(n) => n as u64,
            Arg32::Mem(m) => {
                let i = self.address(m);
                self.mem[i]
            }
        }
    }

    fn reg32(&mut self, a: Reg32) -> u64 {
        match a {
            Reg32::Reg(r) => self.regs[reg_index(r)],
            Reg32::Signed(n) => n as i64 as u64,
            Reg32::Unsigned(n) => n as u64,
        }
    }

    fn read(&mut self, a: BinArgs) -> (u64, u64) {
        match a {
            BinArgs::ToReg(r, s) => (self.regs[reg_index(r)], self.arg32(s)),
            BinArgs::ToMem(m, s) => {
                let i = self.address(m);
                (self.mem[i], self.reg32(s))
            }
        }
    }

    fn write(&mut self, a: BinArgs, v: u64) {
        match a {
            BinArgs::ToReg(r, _) => self.regs[reg_index(r)] = v,
            BinArgs::ToMem(m, _) => {
                let i = self.address(m);
                self.mem[i] = v;
            }
        }
    }

    fn flags(&mut self, v: u64, overflow: bool) {
        self.zero = v == 0;
        self.sign = (v as i64) < 0;
        self.overflow = overflow;
    }
}

fn label_of(i: &Instr) -> Option<&String> {
    match i {
        Instr::Call(s)
        | Instr::Jmp(s)
        | Instr::Je(s)
        | Instr::Jne(s)
        | Instr::Jl(s)
        | Instr::Jle(s)
        | Instr::Jg(s)
        | Instr::Jge(s)
        | Instr::Jz(s)
        | Instr::Jnz(s)
        | Instr::Jo(s)
        | Instr::Jno(s) => Some(s),
        _ => None,
    }
}

const HALT: usize = usize::MAX;
const PRINT: usize = usize::MAX - 1;
const ERROR: usize = usize::MAX - 2;

fn run(is: &[Instr]) -> Outcome {
    let mut labels = std::collections::HashMap::new();
    for (k, i) in is.iter().enumerate() {
        if let Instr::Label(s) = i {
            assert!(labels.insert(s.clone(), k).is_none(), "label {} twice", s);
        }
    }
    let targets: Vec<usize> = is
        .iter()
        .map(|i| match label_of(i) {
            None => HALT,
            Some(s) if s == "print_snake_val" => PRINT,
            Some(s) if s == "snake_error" => ERROR,
            Some(s) => *labels.get(s).unwrap_or_else(|| panic!("no label {}", s)),
        })
        .collect();
    let top = (WORDS as i64 - 3) * 8;
    let mut m = Machine {
        regs: [0; 16],
        mem: vec![0; WORDS],
        zero: false,
        sign: false,
        overflow: false,
        deepest: top,
    };
    m.regs[reg_index(Reg::Rsp)] = top as u64;
    let mut printed = Vec::new();
    let mut returns: Vec<usize> = vec![HALT];
    let mut pc: usize = 0;
    loop {
        if pc == HALT {
            let text = sprint_snake_val(SnakeVal(m.regs[0]));
            return Outcome { printed, result: Ok(text), deepest: top - m.deepest };
        }
        assert!(pc < is.len(), "ran off the end of the code");
        let here = pc;
        pc += 1;
        match &is[here] {
            Instr::Mov(MovArgs::ToReg(r, s)) => {
                let v = m.arg64(*s);
                m.regs[reg_index(*r)] = v;
            }
            Instr::Mov(MovArgs::ToMem(d, s)) => {
                let v = m.reg32(*s);
                let i = m.address(*d);
                m.mem[i] = v;
            }
            Instr::Add(a) => {
                let (x, y) = m.read(*a);
                let (v, o) = (x as i64).overflowing_add(y as i64);
                m.flags(v as u64, o);
                m.write(*a, v as u64);
            }
            Instr::Sub(a) => {
                let (x, y) = m.read(*a);
                let (v, o) = (x as i64).overflowing_sub(y as i64);
                m.flags(v as u64, o);
                m.write(*a, v as u64);
            }
            Instr::IMul(a) => {
                let (x, y) = m.read(*a);
                let (v, o) = (x as i64).overflowing_mul(y as i64);
                m.flags(v as u64, o);
                m.write(*a, v as u64);
            }
            Instr::And(a) => {
                let (x, y) = m.read(*a);
                m.flags(x & y, false);
                m.write(*a, x & y);
            }
            Instr::Or(a) => {
                let (x, y) = m.read(*a);
                m.flags(x | y, false);
                m.write(*a, x | y);
            }
            Instr::Xor(a) => {
                let (x, y) = m.read(*a);
                m.flags(x ^ y, false);
                m.write(*a, x ^ y);
            }
            Instr::Shl(a) => {
                let (x, y) = m.read(*a);
                m.write(*a, x << (y & 63));
            }
            Instr::Shr(a) => {
                let (x, y) = m.read(*a);
                m.write(*a, x >> (y & 63));
            }
            Instr::Sar(a) => {
                let (x, y) = m.read(*a);
                m.write(*a, ((x as i64) >> (y & 63)) as u64);
            }
            Instr::Cmp(a) => {
                let (x, y) = m.read(*a);
                let (v, o) = (x as i64).overflowing_sub(y as i64);
                m.flags(v as u64, o);
            }
            Instr::Test(a) => {
                let (x, y) = m.read(*a);
                m.flags(x & y, false);
            }
            Instr::Label(_) | Instr::Comment(_) => {}
            Instr::Call(_) => {
                let rsp = m.regs[reg_index(Reg::Rsp)];
                if targets[here] == PRINT || targets[here] == ERROR {
                    assert!(rsp % 16 == 0, "stack not aligned at a call of the runtime");
                }
                match targets[here] {
                    PRINT => {
                        let v = m.regs[reg_index(Reg::Rdi)];
                        printed.push(sprint_snake_val(SnakeVal(v)));
                        // The callee is free to use the stack below the stack pointer.
                        let below = (rsp / 8) as usize;
                        for k in 1..=64 {
                            m.mem[below - k] = 0xBAD0_BAD0_BAD0_BAD0;
                        }
                        for r in [Reg::Rcx, Reg::Rdx, Reg::Rsi, Reg::Rdi, Reg::R8, Reg::R9, Reg::R10, Reg::R11] {
                            m.regs[reg_index(r)] = 0xBAD1_BAD1_BAD1_BAD1;
                        }
                        m.regs[0] = v;
                    }
                    ERROR => {
                        let code = m.regs[reg_index(Reg::Rdi)];
                        let v = m.regs[reg_index(Reg::Rsi)];
                        let text = snake_error_message(code, SnakeVal(v));
                        return Outcome { printed, result: Err(text), deepest: top - m.deepest };
                    }
                    t => {
                        m.regs[reg_index(Reg::Rsp)] = rsp - 8;
                        let i = m.address(MemRef { reg: Reg::Rsp, offset: 0 });
                        m.mem[i] = 0xDEAD_BEEF_0000_0000 | here as u64;
                        returns.push(pc);
                        pc = t;
                    }
                }
            }
            Instr::Ret => {
                let back = returns.pop().expect("return without a call");
                if back != HALT {
                    let i = m.address(MemRef { reg: Reg::Rsp, offset: 0 });
                    assert_eq!(m.mem[i] >> 32, 0xDEAD_BEEF, "return address overwritten");
                    m.regs[reg_index(Reg::Rsp)] += 8;
                }
                pc = back;
            }
            Instr::Jmp(_) => pc = targets[here],
            Instr::Je(_) | Instr::Jz(_) => {
                if m.zero {
                    pc = targets[here];
                }
            }
            Instr::Jne(_) | Instr::Jnz(_) => {
                if !m.zero {
                    pc = targets[here];
                }
            }
            Instr::Jl(_) => {
                if m.sign != m.overflow {
                    pc = targets[here];
                }
            }
            Instr::Jle(_) => {
                if m.zero || m.sign != m.overflow {
                    pc = targets[here];
                }
            }
            Instr::Jg(_) => {
                if !m.zero && m.sign == m.overflow {
                    pc = targets[here];
                }
            }
            Instr::Jge(_) => {
                if m.sign == m.overflow {
                    pc = targets[here];
                }
            }
            Instr::Jo(_) => {
                if m.overflow {
                    pc = targets[here];
                }
            }
            Instr::Jno(_) => {
                if !m.overflow {
                    pc = targets[here];
                }
            }
        }
    }
}


const MAX: i64 = 4611686018427387903;
const MIN: i64 = -4611686018427387904;

#[derive(Clone, Copy, Debug, PartialEq)]
enum Val {
    Num(i64),
    Bool(bool),
}

fn bits(v: Val) -> SnakeVal {
    match v {
        Val::Num(n) => SnakeVal((n << 1) as u64),
        Val::Bool(true) => SnakeVal(0xFFFF_FFFF_FFFF_FFFF),
        Val::Bool(false) => SnakeVal(0x7FFF_FFFF_FFFF_FFFF),
    }
}

fn text(v: Val) -> String {
    match v {
        Val::Num(n) => n.to_string(),
        Val::Bool(b) => b.to_string(),
    }
}

/// The message of the trap that a value of the wrong kind sets off.
fn wrong_kind(code: u64, v: Val) -> String {
    snake_error_message(code, bits(v))
}

fn number(code: u64, v: Val) -> Result<i64, String> {
    match v {
        Val::Num(n) => Ok(n),
        Val::Bool(_) => Err(wrong_kind(code, v)),
    }
}

fn boolean(code: u64, v: Val) -> Result<bool, String> {
    match v {
        Val::Bool(b) => Ok(b),
        Val::Num(_) => Err(wrong_kind(code, v)),
    }
}

fn in_range(n: i128) -> Result<Val, String> {
    if n < MIN as i128 || n > MAX as i128 {
        Err("overflow".to_string())
    } else {
        Ok(Val::Num(n as i64))
    }
}

/// A function in scope: its parameters, its body, and how many variables were in
/// scope where it was declared.
struct Fun {
    name: String,
    parameters: Vec<String>,
    body: Exp<()>,
    depth: usize,
}

fn copy(e: &Exp<()>) -> Exp<()> {
    match e {
        Exp::Num(n, _) => Exp::Num(*n, ()),
        Exp::Bool(b, _) => Exp::Bool(*b, ()),
        Exp::Var(x, _) => Exp::Var(x.clone(), ()),
        Exp::Prim(p, es, _) => Exp::Prim(*p, es.iter().map(|e| Box::new(copy(e))).collect(), ()),
        Exp::Let { bindings, body, .. } => Exp::Let {
            bindings: bindings.iter().map(|(x, e)| (x.clone(), copy(e))).collect(),
            body: Box::new(copy(body)),
            ann: (),
        },
        Exp::If { cond, thn, els, .. } => Exp::If {
            cond: Box::new(copy(cond)),
            thn: Box::new(copy(thn)),
            els: Box::new(copy(els)),
            ann: (),
        },
        Exp::FunDefs { decls, body, .. } => Exp::FunDefs {
            decls: decls
                .iter()
                .map(|d| FunDecl {
                    name: d.name.clone(),
                    parameters: d.parameters.clone(),
                    body: copy(&d.body),
                    ann: (),
                })
                .collect(),
            body: Box::new(copy(body)),
            ann: (),
        },
        Exp::Call(f, args, _) => Exp::Call(f.clone(), args.iter().map(copy).collect(), ()),
        _ => panic!("a surface program has no classified calls"),
    }
}

fn eval(e: &Exp<()>, env: &mut Vec<(String, Val)>, printed: &mut Vec<String>) -> Result<Val, String> {
    eval_in(e, env, &mut Vec::new(), printed)
}

/// The value of `e`, or the message of the trap that ends the program; what is
/// printed on the way goes to `printed`.
fn eval_in(
    e: &Exp<()>,
    env: &mut Vec<(String, Val)>,
    funs: &mut Vec<Fun>,
    printed: &mut Vec<String>,
) -> Result<Val, String> {
    match e {
        Exp::Num(n, _) => Ok(Val::Num(*n)),
        Exp::Bool(b, _) => Ok(Val::Bool(*b)),
        Exp::Var(x, _) => Ok(env.iter().rev().find(|(y, _)| y == x).expect("unbound").1),
        Exp::Prim(p, es, _) => {
            let mut vs = Vec::new();
            for e in es {
                vs.push(eval_in(e, env, funs, printed)?);
            }
            match p {
                Prim::Add1 => in_range(number(0, vs[0])? as i128 + 1),
                Prim::Sub1 => in_range(number(0, vs[0])? as i128 - 1),
                Prim::Not => Ok(Val::Bool(!boolean(3, vs[0])?)),
                Prim::Print => {
                    printed.push(text(vs[0]));
                    Ok(vs[0])
                }
                Prim::IsNum => Ok(Val::Bool(matches!(vs[0], Val::Num(_)))),
                Prim::IsBool => Ok(Val::Bool(matches!(vs[0], Val::Bool(_)))),
                Prim::Add => {
                    let a = number(0, vs[0])?;
                    let b = number(0, vs[1])?;
                    in_range(a as i128 + b as i128)
                }
                Prim::Sub => {
                    let a = number(0, vs[0])?;
                    let b = number(0, vs[1])?;
                    in_range(a as i128 - b as i128)
                }
                Prim::Mul => {
                    let a = number(0, vs[0])?;
                    let b = number(0, vs[1])?;
                    in_range(a as i128 * b as i128)
                }
                Prim::And => {
                    let a = boolean(3, vs[0])?;
                    let b = boolean(3, vs[1])?;
                    Ok(Val::Bool(a && b))
                }
                Prim::Or => {
                    let a = boolean(3, vs[0])?;
                    let b = boolean(3, vs[1])?;
                    Ok(Val::Bool(a || b))
                }
                Prim::Lt | Prim::Gt | Prim::Le | Prim::Ge | Prim::Eq | Prim::Neq => {
                    let a = number(1, vs[0])?;
                    let b = number(1, vs[1])?;
                    Ok(Val::Bool(match p {
                        Prim::Lt => a < b,
                        Prim::Gt => a > b,
                        Prim::Le => a <= b,
                        Prim::Ge => a >= b,
                        Prim::Eq => a == b,
                        _ => a != b,
                    }))
                }
            }
        }
        Exp::Let { bindings, body, .. } => {
            let before = env.len();
            for (x, e) in bindings {
                let v = eval_in(e, env, funs, printed);
                match v {
                    Ok(v) => env.push((x.clone(), v)),
                    Err(m) => {
                        env.truncate(before);
                        return Err(m);
                    }
                }
            }
            let r = eval_in(body, env, funs, printed);
            env.truncate(before);
            r
        }
        Exp::If { cond, thn, els, .. } => {
            let c = eval_in(cond, env, funs, printed)?;
            if boolean(2, c)? {
                eval_in(thn, env, funs, printed)
            } else {
                eval_in(els, env, funs, printed)
            }
        }
        Exp::FunDefs { decls, body, .. } => {
            let before = funs.len();
            for d in decls {
                funs.push(Fun {
                    name: d.name.clone(),
                    parameters: d.parameters.clone(),
                    body: copy(&d.body),
                    depth: env.len(),
                });
            }
            let r = eval_in(body, env, funs, printed);
            funs.truncate(before);
            r
        }
        Exp::Call(f, args, _) => {
            let mut vs = Vec::new();
            for a in args {
                vs.push(eval_in(a, env, funs, printed)?);
            }
            let k = funs.iter().rposition(|g| &g.name == f).expect("undefined");
            let mut inner: Vec<(String, Val)> = env[..funs[k].depth].to_vec();
            for (x, v) in funs[k].parameters.iter().zip(vs) {
                inner.push((x.clone(), v));
            }
            let body = copy(&funs[k].body);
            let visible = k + 1 + funs[k + 1..].iter().take_while(|g| g.depth == funs[k].depth).count();
            let hidden: Vec<Fun> = funs.drain(visible..).collect();
            let r = eval_in(&body, &mut inner, funs, printed);
            funs.extend(hidden);
            r
        }
        _ => panic!("a surface program has no classified calls"),
    }
}

/// A small generator of numbers that repeats itself from run to run.
struct Dice(u64);

impl Dice {
    fn next(&mut self) -> u64 {
        self.0 ^= self.0 << 13;
        self.0 ^= self.0 >> 7;
        self.0 ^= self.0 << 17;
        self.0
    }

    fn below(&mut self, n: u64) -> u64 {
        self.next() % n
    }
}

const UNARY: [Prim; 6] = [Prim::Add1, Prim::Sub1, Prim::Not, Prim::Print, Prim::IsNum, Prim::IsBool];
const BINARY: [Prim; 11] = [
    Prim::Add,
    Prim::Sub,
    Prim::Mul,
    Prim::And,
    Prim::Or,
    Prim::Lt,
    Prim::Gt,
    Prim::Le,
    Prim::Ge,
    Prim::Eq,
    Prim::Neq,
];
const NUMBERS: [i64; 12] = [0, 1, -1, 2, 3, 7, -5, 100, MAX, MIN, MAX - 1, 2147483648];

fn some_exp(dice: &mut Dice, depth: u32, scope: &mut Vec<String>) -> Exp<()> {
    let leaf = depth == 0 || dice.below(5) == 0;
    if leaf {
        return match dice.below(4) {
            0 => Exp::Bool(dice.below(2) == 0, ()),
            1 if !scope.is_empty() => {
                let k = dice.below(scope.len() as u64) as usize;
                Exp::Var(scope[k].clone(), ())
            }
            _ => Exp::Num(NUMBERS[dice.below(NUMBERS.len() as u64) as usize], ()),
        };
    }
    match dice.below(6) {
        0 | 1 => {
            let p = BINARY[dice.below(BINARY.len() as u64) as usize];
            let a = some_exp(dice, depth - 1, scope);
            let b = some_exp(dice, depth - 1, scope);
            Exp::Prim(p, vec![Box::new(a), Box::new(b)], ())
        }
        2 => {
            let p = UNARY[dice.below(UNARY.len() as u64) as usize];
            Exp::Prim(p, vec![Box::new(some_exp(dice, depth - 1, scope))], ())
        }
        3 | 4 => {
            let before = scope.len();
            let count = 1 + dice.below(3) as usize;
            let mut bindings = Vec::new();
            let mut names: Vec<String> = Vec::new();
            for _ in 0..count {
                let mut name = format!("v{}", dice.below(4));
                while names.contains(&name) {
                    name.push('x');
                }
                let bound = some_exp(dice, depth - 1, scope);
                scope.push(name.clone());
                names.push(name.clone());
                bindings.push((name, bound));
            }
            let body = some_exp(dice, depth - 1, scope);
            scope.truncate(before);
            Exp::Let { bindings, body: Box::new(body), ann: () }
        }
        _ => {
            let c = if dice.below(4) == 0 {
                some_exp(dice, depth - 1, scope)
            } else {
                let p = [Prim::Lt, Prim::Eq, Prim::IsNum, Prim::IsBool][dice.below(4) as usize];
                if p == Prim::IsNum || p == Prim::IsBool {
                    Exp::Prim(p, vec![Box::new(some_exp(dice, depth - 1, scope))], ())
                } else {
                    Exp::Prim(
                        p,
                        vec![
                            Box::new(some_exp(dice, depth - 1, scope)),
                            Box::new(some_exp(dice, depth - 1, scope)),
                        ],
                        (),
                    )
                }
            };
            let t = some_exp(dice, depth - 1, scope);
            let e = some_exp(dice, depth - 1, scope);
            Exp::If { cond: Box::new(c), thn: Box::new(t), els: Box::new(e), ann: () }
        }
    }
}

fn compare(seed: u64, count: usize, depth: u32) -> (usize, usize) {
    let mut dice = Dice(seed);
    let mut values = 0;
    let mut traps = 0;
    for round in 0..count {
        let mut scope = Vec::new();
        let p = some_exp(&mut dice, depth, &mut scope);
        let mut printed = Vec::new();
        let expected = eval(&p, &mut Vec::new(), &mut printed).map(text);
        let got = run(&instructions(&p));
        assert_eq!(got.printed, printed, "round {} of seed {}: {:?}", round, seed, p);
        assert_eq!(got.result, expected, "round {} of seed {}: {:?}", round, seed, p);
        match expected {
            Ok(_) => values += 1,
            Err(_) => traps += 1,
        }
    }
    (values, traps)
}

#[test]
fn small_programs_run_as_the_interpreter_says() {
    let (values, traps) = compare(0x9E37_79B9_7F4A_7C15, 1500, 3);
    assert!(values > 100);
    assert!(traps > 100);
}

#[test]
fn larger_programs_run_as_the_interpreter_says() {
    let (values, traps) = compare(0x2545_F491_4F6C_DD1D, 400, 6);
    assert!(values > 10);
    assert!(traps > 10);
}

#[test]
fn programs_from_another_seed_run_as_the_interpreter_says() {
    let (values, traps) = compare(42, 1500, 4);
    assert!(values > 100);
    assert!(traps > 100);
}

/// An expression like `some_exp`, which may also call the functions `callable`, each
/// given with the number of its parameters.
fn some_body(
    dice: &mut Dice,
    depth: u32,
    scope: &mut Vec<String>,
    callable: &[(String, usize)],
) -> Exp<()> {
    if depth > 0 && !callable.is_empty() && dice.below(3) == 0 {
        let (f, n) = &callable[dice.below(callable.len() as u64) as usize];
        let args = (0..*n).map(|_| some_body(dice, depth - 1, scope, callable)).collect();
        return Exp::Call(f.clone(), args, ());
    }
    if depth == 0 || dice.below(4) == 0 {
        return some_exp(dice, 0, scope);
    }
    match dice.below(4) {
        0 => {
            let p = [Prim::Add, Prim::Sub, Prim::Mul, Prim::Eq, Prim::Lt][dice.below(5) as usize];
            let a = some_body(dice, depth - 1, scope, callable);
            let b = some_body(dice, depth - 1, scope, callable);
            Exp::Prim(p, vec![Box::new(a), Box::new(b)], ())
        }
        1 => {
            let p = [Prim::Print, Prim::Add1, Prim::IsNum][dice.below(3) as usize];
            Exp::Prim(p, vec![Box::new(some_body(dice, depth - 1, scope, callable))], ())
        }
        2 => {
            let before = scope.len();
            let name = format!("w{}", scope.len());
            let bound = some_body(dice, depth - 1, scope, callable);
            scope.push(name.clone());
            let body = some_body(dice, depth - 1, scope, callable);
            scope.truncate(before);
            Exp::Let { bindings: vec![(name, bound)], body: Box::new(body), ann: () }
        }
        _ => {
            let c = Exp::Prim(
                Prim::Lt,
                vec![
                    Box::new(some_body(dice, depth - 1, scope, callable)),
                    Box::new(some_body(dice, depth - 1, scope, callable)),
                ],
                (),
            );
            let t = some_body(dice, depth - 1, scope, callable);
            let e = some_body(dice, depth - 1, scope, callable);
            Exp::If { cond: Box::new(c), thn: Box::new(t), els: Box::new(e), ann: () }
        }
    }
}

/// A program with one group of functions under some variables. A function calls
/// later functions of the group only, so that every call ends, and the main
/// expression calls every function from a non-tail position, so that the whole
/// group is lifted.
fn some_program(dice: &mut Dice) -> Exp<()> {
    let mut scope: Vec<String> = Vec::new();
    let captured = dice.below(3) as usize;
    let mut bindings = Vec::new();
    for k in 0..captured {
        let bound = some_exp(dice, 1, &mut scope);
        let name = format!("c{}", k);
        scope.push(name.clone());
        bindings.push((name, bound));
    }
    let count = 1 + dice.below(3) as usize;
    let heads: Vec<(String, usize)> =
        (0..count).map(|k| (format!("f{}", k), dice.below(4) as usize)).collect();
    let mut decls = Vec::new();
    for k in 0..count {
        let before = scope.len();
        let parameters: Vec<String> = (0..heads[k].1).map(|j| format!("p{}", j)).collect();
        scope.extend(parameters.iter().cloned());
        let body = some_body(dice, 3, &mut scope, &heads[k + 1..]);
        scope.truncate(before);
        decls.push(FunDecl { name: heads[k].0.clone(), parameters, body, ann: () });
    }
    let mut results = Vec::new();
    for (k, (f, n)) in heads.iter().enumerate() {
        let args = (0..*n).map(|_| some_exp(dice, 1, &mut scope)).collect();
        results.push((format!("r{}", k), Exp::Call(f.clone(), args, ())));
    }
    let last = Exp::Var(format!("r{}", count - 1), ());
    let main = Exp::Let { bindings: results, body: Box::new(last), ann: () };
    let group = Exp::FunDefs { decls, body: Box::new(main), ann: () };
    if bindings.is_empty() {
        group
    } else {
        Exp::Let { bindings, body: Box::new(group), ann: () }
    }
}

#[test]
fn programs_with_lifted_functions_run_as_the_interpreter_says() {
    let mut dice = Dice(0xD1B5_4A32_D192_ED03);
    let mut values = 0;
    let mut traps = 0;
    for round in 0..1500 {
        let p = some_program(&mut dice);
        let mut printed = Vec::new();
        let expected = eval(&p, &mut Vec::new(), &mut printed).map(text);
        let got = run(&instructions(&p));
        assert_eq!(got.printed, printed, "round {}: {:?}", round, p);
        assert_eq!(got.result, expected, "round {}: {:?}", round, p);
        match expected {
            Ok(_) => values += 1,
            Err(_) => traps += 1,
        }
    }
    assert!(values > 100);
    assert!(traps > 100);
}

/// Every name that `e` binds: the variables of each `Let`, the functions of each
/// group and the parameters of each function.
fn binders(e: &Exp<()>, out: &mut Vec<String>) {
    match e {
        Exp::Num(..) | Exp::Bool(..) | Exp::Var(..) => {}
        Exp::Prim(_, es, _) => {
            for x in es {
                binders(x, out);
            }
        }
        Exp::Let { bindings, body, .. } => {
            for (x, bound) in bindings {
                out.push(x.clone());
                binders(bound, out);
            }
            binders(body, out);
        }
        Exp::If { cond, thn, els, .. } => {
            binders(cond, out);
            binders(thn, out);
            binders(els, out);
        }
        Exp::FunDefs { decls, body, .. } => {
            for d in decls {
                out.push(d.name.clone());
                out.extend(d.parameters.iter().cloned());
                binders(&d.body, out);
            }
            binders(body, out);
        }
        Exp::Call(_, args, _)
        | Exp::InternalTailCall(_, args, _)
        | Exp::ExternalCall { args, .. } => {
            for x in args {
                binders(x, out);
            }
        }
    }
}

#[test]
fn renamed_programs_bind_every_name_once() {
    let mut dice = Dice(0x2545_F491_4F6C_DD1D);
    let mut seen = 0;
    for round in 0..400 {
        let p = some_program(&mut dice);
        let mut tag: u32 = 0;
        let renamed = uniquify(&tag_exp(&p, &mut tag));
        let mut names = Vec::new();
        binders(&renamed, &mut names);
        let mut sorted = names.clone();
        sorted.sort();
        sorted.dedup();
        assert_eq!(sorted.len(), names.len(), "round {}: {:?}", round, renamed);
        seen += names.len();
    }
    assert!(seen > 1000);
}

/// An expression with calls in tail position alone: the functions that it calls
/// stay where they are declared.
fn some_tail_body(
    dice: &mut Dice,
    depth: u32,
    scope: &mut Vec<String>,
    callable: &[(String, usize)],
) -> Exp<()> {
    if !callable.is_empty() && (depth == 0 || dice.below(3) == 0) {
        let (f, n) = &callable[dice.below(callable.len() as u64) as usize];
        let args = (0..*n).map(|_| some_exp(dice, 1, scope)).collect();
        return Exp::Call(f.clone(), args, ());
    }
    if depth == 0 {
        return some_exp(dice, 1, scope);
    }
    match dice.below(3) {
        0 => some_exp(dice, 2, scope),
        1 => {
            let before = scope.len();
            let name = format!("w{}", scope.len());
            let bound = some_exp(dice, 1, scope);
            scope.push(name.clone());
            let body = some_tail_body(dice, depth - 1, scope, callable);
            scope.truncate(before);
            Exp::Let { bindings: vec![(name, bound)], body: Box::new(body), ann: () }
        }
        _ => {
            let c = Exp::Prim(Prim::IsNum, vec![Box::new(some_exp(dice, 0, scope))], ());
            let t = some_tail_body(dice, depth - 1, scope, callable);
            let e = some_tail_body(dice, depth - 1, scope, callable);
            Exp::If { cond: Box::new(c), thn: Box::new(t), els: Box::new(e), ann: () }
        }
    }
}

/// A program with one group of functions inside the branches of an `If`, under some
/// variables. Every call stands in tail position, so that no function is lifted,
/// and a function calls later functions of the group only, so that every call
/// ends.
fn some_local_program(dice: &mut Dice) -> Exp<()> {
    let mut scope: Vec<String> = Vec::new();
    let captured = dice.below(3) as usize;
    let mut bindings = Vec::new();
    for k in 0..captured {
        let bound = some_exp(dice, 1, &mut scope);
        let name = format!("c{}", k);
        scope.push(name.clone());
        bindings.push((name, bound));
    }
    let count = 1 + dice.below(3) as usize;
    let heads: Vec<(String, usize)> =
        (0..count).map(|k| (format!("f{}", k), dice.below(4) as usize)).collect();
    let mut decls = Vec::new();
    for k in 0..count {
        let before = scope.len();
        let parameters: Vec<String> = (0..heads[k].1).map(|j| format!("p{}", j)).collect();
        scope.extend(parameters.iter().cloned());
        let body = some_tail_body(dice, 3, &mut scope, &heads[k + 1..]);
        scope.truncate(before);
        decls.push(FunDecl { name: heads[k].0.clone(), parameters, body, ann: () });
    }
    let main = some_tail_body(dice, 2, &mut scope, &heads);
    let group = Exp::FunDefs { decls, body: Box::new(main), ann: () };
    let c = Exp::Prim(Prim::IsNum, vec![Box::new(some_exp(dice, 0, &mut scope))], ());
    let other = some_exp(dice, 1, &mut scope);
    let branch = if dice.below(2) == 0 {
        Exp::If { cond: Box::new(c), thn: Box::new(group), els: Box::new(other), ann: () }
    } else {
        Exp::If { cond: Box::new(c), thn: Box::new(other), els: Box::new(group), ann: () }
    };
    if bindings.is_empty() {
        branch
    } else {
        Exp::Let { bindings, body: Box::new(branch), ann: () }
    }
}

#[test]
fn programs_with_functions_that_stay_run_as_the_interpreter_says() {
    let mut dice = Dice(0x9E37_79B9_7F4A_7C15);
    let mut values = 0;
    let mut traps = 0;
    for round in 0..1500 {
        let p = some_local_program(&mut dice);
        let mut printed = Vec::new();
        let expected = eval(&p, &mut Vec::new(), &mut printed).map(text);
        let got = run(&instructions(&p));
        assert_eq!(got.printed, printed, "round {}: {:?}", round, p);
        assert_eq!(got.result, expected, "round {}: {:?}", round, p);
        match expected {
            Ok(_) => values += 1,
            Err(_) => traps += 1,
        }
    }
    assert!(values > 100);
    assert!(traps > 100);
}
