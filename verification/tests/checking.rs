//! The well-formedness check: each error, and the order in which errors are met.

use snake::check::{check_prog, CompileErr};
use snake::compile::compile_to_string;
use snake::syntax::{Exp, FunDecl, Prim};

fn num(n: i64, at: u32) -> Exp<u32> {
    Exp::Num(n, at)
}

fn var(x: &str, at: u32) -> Exp<u32> {
    Exp::Var(x.to_string(), at)
}

fn add(a: Exp<u32>, b: Exp<u32>, at: u32) -> Exp<u32> {
    Exp::Prim(Prim::Add, vec![Box::new(a), Box::new(b)], at)
}

fn let_in(bindings: Vec<(&str, Exp<u32>)>, body: Exp<u32>, at: u32) -> Exp<u32> {
    Exp::Let {
        bindings: bindings.into_iter().map(|(x, e)| (x.to_string(), e)).collect(),
        body: Box::new(body),
        ann: at,
    }
}

fn def(name: &str, params: Vec<&str>, body: Exp<u32>, at: u32) -> FunDecl<Exp<u32>, u32> {
    FunDecl {
        name: name.to_string(),
        parameters: params.into_iter().map(|x| x.to_string()).collect(),
        body,
        ann: at,
    }
}

fn defs_in(decls: Vec<FunDecl<Exp<u32>, u32>>, body: Exp<u32>, at: u32) -> Exp<u32> {
    Exp::FunDefs { decls, body: Box::new(body), ann: at }
}

fn call(f: &str, args: Vec<Exp<u32>>, at: u32) -> Exp<u32> {
    Exp::Call(f.to_string(), args, at)
}

#[test]
fn literals_and_closed_programs_pass() {
    assert_eq!(check_prog(&num(5, 1)), Ok(()));
    assert_eq!(check_prog(&Exp::Bool(true, 1)), Ok(()));
    let p = let_in(vec![("x", num(1, 2)), ("y", var("x", 3))], add(var("x", 5), var("y", 6), 4), 1);
    assert_eq!(check_prog(&p), Ok(()));
}

#[test]
fn the_ends_of_the_range_pass() {
    assert_eq!(check_prog(&num(4611686018427387903, 1)), Ok(()));
    assert_eq!(check_prog(&num(-4611686018427387904, 1)), Ok(()));
}

#[test]
fn overflow_above_and_below() {
    assert_eq!(
        check_prog(&num(4611686018427387904, 9)),
        Err(CompileErr::Overflow { num: 4611686018427387904, location: 9 })
    );
    assert_eq!(
        check_prog(&num(-4611686018427387905, 8)),
        Err(CompileErr::Overflow { num: -4611686018427387905, location: 8 })
    );
    assert_eq!(
        check_prog(&num(i64::MAX, 7)),
        Err(CompileErr::Overflow { num: i64::MAX, location: 7 })
    );
    assert_eq!(
        check_prog(&num(i64::MIN, 6)),
        Err(CompileErr::Overflow { num: i64::MIN, location: 6 })
    );
}

#[test]
fn unbound_variable() {
    assert_eq!(
        check_prog(&var("x", 3)),
        Err(CompileErr::UnboundVariable { unbound: "x".to_string(), location: 3 })
    );
    let p = add(num(1, 2), var("y", 3), 1);
    assert_eq!(
        check_prog(&p),
        Err(CompileErr::UnboundVariable { unbound: "y".to_string(), location: 3 })
    );
}

#[test]
fn a_binding_does_not_see_itself_or_later_ones() {
    let p = let_in(vec![("x", var("x", 2))], var("x", 3), 1);
    assert_eq!(
        check_prog(&p),
        Err(CompileErr::UnboundVariable { unbound: "x".to_string(), location: 2 })
    );
    let q = let_in(vec![("x", var("y", 2)), ("y", num(1, 3))], var("x", 4), 1);
    assert_eq!(
        check_prog(&q),
        Err(CompileErr::UnboundVariable { unbound: "y".to_string(), location: 2 })
    );
}

#[test]
fn a_binding_ends_with_its_let() {
    let p = add(let_in(vec![("x", num(1, 3))], var("x", 4), 2), var("x", 5), 1);
    assert_eq!(
        check_prog(&p),
        Err(CompileErr::UnboundVariable { unbound: "x".to_string(), location: 5 })
    );
}

#[test]
fn duplicate_binding_is_reported_at_the_let() {
    let p = let_in(vec![("x", num(1, 2)), ("y", num(2, 3)), ("x", num(3, 4))], var("x", 5), 1);
    assert_eq!(
        check_prog(&p),
        Err(CompileErr::DuplicateBinding { duplicated_name: "x".to_string(), location: 1 })
    );
}

#[test]
fn shadowing_in_a_nested_let_is_no_duplicate() {
    let p = let_in(vec![("x", num(1, 2))], let_in(vec![("x", num(2, 4))], var("x", 5), 3), 1);
    assert_eq!(check_prog(&p), Ok(()));
}

#[test]
fn undefined_function() {
    assert_eq!(
        check_prog(&call("f", vec![], 4)),
        Err(CompileErr::UndefinedFunction { undefined: "f".to_string(), location: 4 })
    );
}

#[test]
fn duplicate_function_name_is_reported_at_the_second_function() {
    let p = defs_in(
        vec![def("f", vec![], num(1, 3), 2), def("g", vec![], num(2, 5), 4), def("f", vec![], num(3, 7), 6)],
        num(0, 8),
        1,
    );
    assert_eq!(
        check_prog(&p),
        Err(CompileErr::DuplicateFunName { duplicated_name: "f".to_string(), location: 6 })
    );
}

#[test]
fn duplicate_argument_name() {
    let p = defs_in(vec![def("f", vec!["a", "b", "a"], num(1, 3), 2)], num(0, 4), 1);
    assert_eq!(
        check_prog(&p),
        Err(CompileErr::DuplicateArgName { duplicated_name: "a".to_string(), location: 2 })
    );
}

#[test]
fn the_first_repeated_argument_is_reported() {
    let p = defs_in(vec![def("f", vec!["a", "b", "b", "a"], num(1, 3), 2)], num(0, 4), 1);
    assert_eq!(
        check_prog(&p),
        Err(CompileErr::DuplicateArgName { duplicated_name: "b".to_string(), location: 2 })
    );
}

#[test]
fn function_used_as_value() {
    let p = defs_in(vec![def("f", vec![], num(1, 3), 2)], var("f", 4), 1);
    assert_eq!(
        check_prog(&p),
        Err(CompileErr::FunctionUsedAsValue { function_name: "f".to_string(), location: 4 })
    );
}

#[test]
fn value_used_as_function() {
    let p = let_in(vec![("f", num(1, 2))], call("f", vec![], 3), 1);
    assert_eq!(
        check_prog(&p),
        Err(CompileErr::ValueUsedAsFunction { variable_name: "f".to_string(), location: 3 })
    );
}

#[test]
fn a_variable_hides_a_function_of_the_same_name() {
    let p = defs_in(
        vec![def("f", vec![], num(1, 3), 2)],
        let_in(vec![("f", num(1, 5))], call("f", vec![], 6), 4),
        1,
    );
    assert_eq!(
        check_prog(&p),
        Err(CompileErr::ValueUsedAsFunction { variable_name: "f".to_string(), location: 6 })
    );
    let q = defs_in(
        vec![def("f", vec![], num(1, 3), 2)],
        let_in(vec![("f", num(1, 5))], var("f", 6), 4),
        1,
    );
    assert_eq!(check_prog(&q), Ok(()));
}

#[test]
fn function_called_with_the_wrong_number_of_arguments() {
    let p = defs_in(
        vec![def("f", vec!["x"], var("x", 3), 2)],
        call("f", vec![num(1, 5), num(2, 6)], 4),
        1,
    );
    assert_eq!(
        check_prog(&p),
        Err(CompileErr::FunctionCalledWrongArity {
            function_name: "f".to_string(),
            correct_arity: 1,
            arity_used: 2,
            location: 4,
        })
    );
    let q = defs_in(vec![def("f", vec!["x"], var("x", 3), 2)], call("f", vec![], 4), 1);
    assert_eq!(
        check_prog(&q),
        Err(CompileErr::FunctionCalledWrongArity {
            function_name: "f".to_string(),
            correct_arity: 1,
            arity_used: 0,
            location: 4,
        })
    );
}

#[test]
fn the_arguments_of_a_call_are_checked() {
    let p = defs_in(
        vec![def("f", vec!["x"], var("x", 3), 2)],
        call("f", vec![var("y", 5)], 4),
        1,
    );
    assert_eq!(
        check_prog(&p),
        Err(CompileErr::UnboundVariable { unbound: "y".to_string(), location: 5 })
    );
}

#[test]
fn the_call_is_checked_before_its_arguments() {
    let p = call("f", vec![var("y", 5)], 4);
    assert_eq!(
        check_prog(&p),
        Err(CompileErr::UndefinedFunction { undefined: "f".to_string(), location: 4 })
    );
}

#[test]
fn functions_of_a_group_see_each_other_and_themselves() {
    let p = defs_in(
        vec![
            def("f", vec!["x"], call("g", vec![var("x", 4)], 3), 2),
            def("g", vec!["y"], call("f", vec![var("y", 7)], 6), 5),
            def("h", vec![], call("h", vec![], 9), 8),
        ],
        call("f", vec![num(1, 11)], 10),
        1,
    );
    assert_eq!(check_prog(&p), Ok(()));
}

#[test]
fn a_function_ends_with_its_group() {
    let p = add(
        defs_in(vec![def("f", vec![], num(1, 4), 3)], call("f", vec![], 5), 2),
        call("f", vec![], 6),
        1,
    );
    assert_eq!(
        check_prog(&p),
        Err(CompileErr::UndefinedFunction { undefined: "f".to_string(), location: 6 })
    );
}

#[test]
fn a_parameter_is_bound_in_the_body_only() {
    let p = defs_in(vec![def("f", vec!["x"], var("x", 3), 2)], var("x", 4), 1);
    assert_eq!(
        check_prog(&p),
        Err(CompileErr::UnboundVariable { unbound: "x".to_string(), location: 4 })
    );
}

#[test]
fn headers_are_checked_before_bodies() {
    let p = defs_in(
        vec![def("f", vec![], var("nowhere", 3), 2), def("g", vec!["a", "a"], num(1, 5), 4)],
        num(0, 6),
        1,
    );
    assert_eq!(
        check_prog(&p),
        Err(CompileErr::DuplicateArgName { duplicated_name: "a".to_string(), location: 4 })
    );
}

#[test]
fn the_first_error_in_the_order_of_the_program_is_reported() {
    let p = add(var("a", 2), num(i64::MAX, 3), 1);
    assert_eq!(
        check_prog(&p),
        Err(CompileErr::UnboundVariable { unbound: "a".to_string(), location: 2 })
    );
    let q = add(num(i64::MAX, 2), var("a", 3), 1);
    assert_eq!(check_prog(&q), Err(CompileErr::Overflow { num: i64::MAX, location: 2 }));
    let r = Exp::If {
        cond: Box::new(num(1, 2)),
        thn: Box::new(var("t", 3)),
        els: Box::new(var("e", 4)),
        ann: 1,
    };
    assert_eq!(
        check_prog(&r),
        Err(CompileErr::UnboundVariable { unbound: "t".to_string(), location: 3 })
    );
}

#[test]
fn a_duplicate_binding_comes_before_its_bound_expression() {
    let p = let_in(vec![("x", num(1, 2)), ("x", var("nowhere", 3))], num(0, 4), 1);
    assert_eq!(
        check_prog(&p),
        Err(CompileErr::DuplicateBinding { duplicated_name: "x".to_string(), location: 1 })
    );
}

#[test]
fn a_program_with_an_unbound_variable_does_not_compile() {
    let p = let_in(vec![("x", num(1, 2))], add(var("x", 4), var("z", 5), 3), 1);
    assert_eq!(
        compile_to_string(&p),
        Err(CompileErr::UnboundVariable { unbound: "z".to_string(), location: 5 })
    );
}

#[test]
fn a_closed_program_compiles() {
    let p = let_in(vec![("x", num(1, 2))], add(var("x", 4), var("x", 5), 3), 1);
    assert!(compile_to_string(&p).is_ok());
}

#[test]
fn the_location_is_a_clone_of_the_annotation() {
    let p: Exp<String> = Exp::Var("x".to_string(), "line 3".to_string());
    assert_eq!(
        check_prog(&p),
        Err(CompileErr::UnboundVariable { unbound: "x".to_string(), location: "line 3".to_string() })
    );
}

#[test]
fn surface_programs_are_told_from_lifted_ones() {
    assert!(call("f", vec![num(1, 2)], 1).is_surface());
    let lifted: Exp<u32> = Exp::InternalTailCall("f".to_string(), vec![], 1);
    assert!(!lifted.is_surface());
    let nested = add(num(1, 2), Exp::ExternalCall { fun_name: "f".to_string(), args: vec![], is_tail: false, ann: 3 }, 1);
    assert!(!nested.is_surface());
}

#[test]
fn operations_with_the_wrong_number_of_operands_are_found() {
    assert!(add(num(1, 2), num(2, 3), 1).prims_saturated());
    let short: Exp<u32> = Exp::Prim(Prim::Add, vec![Box::new(num(1, 2))], 1);
    assert!(!short.prims_saturated());
    let long: Exp<u32> = Exp::Prim(Prim::Not, vec![Box::new(num(1, 2)), Box::new(num(1, 3))], 1);
    assert!(!long.prims_saturated());
    let inside = let_in(vec![("x", short)], num(0, 9), 8);
    assert!(!inside.prims_saturated());
}
