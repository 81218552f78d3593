//! The passes one by one, on small trees with the exact result of each.

use snake::classify::should_lift;
use snake::lift::{copy_exp, lambda_lift};
use snake::limits::{reach_upto, slots_upto, take_nodes, take_seq_nodes};
use snake::sequential::{seq_prog, sequentialize};
use snake::syntax::{Exp, FunDecl, ImmExp, Prim, SeqExp, SeqProg};
use snake::tag::{tag_exp, tag_fundecl, tag_prog, tag_seq_exp, tag_sprog};
use snake::uniquify::uniquify;

fn s(x: &str) -> String {
    x.to_string()
}

fn num<A: Default>(n: i64) -> Exp<A> {
    Exp::Num(n, A::default())
}

fn var<A: Default>(x: &str) -> Exp<A> {
    Exp::Var(s(x), A::default())
}

fn prim2<A: Default>(p: Prim, a: Exp<A>, b: Exp<A>) -> Exp<A> {
    Exp::Prim(p, vec![Box::new(a), Box::new(b)], A::default())
}

fn let_in<A: Default>(bindings: Vec<(&str, Exp<A>)>, body: Exp<A>) -> Exp<A> {
    Exp::Let {
        bindings: bindings.into_iter().map(|(x, e)| (s(x), e)).collect(),
        body: Box::new(body),
        ann: A::default(),
    }
}

fn def<A: Default>(name: &str, params: Vec<&str>, body: Exp<A>) -> FunDecl<Exp<A>, A> {
    FunDecl {
        name: s(name),
        parameters: params.into_iter().map(s).collect(),
        body,
        ann: A::default(),
    }
}

fn defs_in<A: Default>(decls: Vec<FunDecl<Exp<A>, A>>, body: Exp<A>) -> Exp<A> {
    Exp::FunDefs { decls, body: Box::new(body), ann: A::default() }
}

fn call<A: Default>(f: &str, args: Vec<Exp<A>>) -> Exp<A> {
    Exp::Call(s(f), args, A::default())
}

fn sorted(mut names: Vec<String>) -> Vec<String> {
    names.sort();
    names
}

#[test]
fn tags_count_nodes_before_their_children_from_left_to_right() {
    let p: Exp<()> = prim2(Prim::Add, num(1), let_in(vec![("x", num(2))], var("x")));
    let mut tag: u32 = 0;
    let tagged = tag_exp(&p, &mut tag);
    assert_eq!(tag, 5);
    let expected: Exp<u32> = Exp::Prim(
        Prim::Add,
        vec![
            Box::new(Exp::Num(1, 2)),
            Box::new(Exp::Let {
                bindings: vec![(s("x"), Exp::Num(2, 4))],
                body: Box::new(Exp::Var(s("x"), 5)),
                ann: 3,
            }),
        ],
        1,
    );
    assert_eq!(tagged, expected);
}

#[test]
fn tags_go_on_from_the_counter() {
    let p: Exp<()> = num(7);
    let mut tag: u32 = 41;
    assert_eq!(tag_exp(&p, &mut tag), Exp::Num(7, 42));
    assert_eq!(tag, 42);
}

#[test]
fn the_functions_of_a_group_carry_the_tag_of_the_group() {
    let p: Exp<()> = defs_in(
        vec![def("f", vec!["a"], var("a")), def("g", vec![], num(1))],
        call("f", vec![num(2)]),
    );
    let mut tag: u32 = 0;
    let tagged = tag_exp(&p, &mut tag);
    assert_eq!(tag, 5);
    let expected: Exp<u32> = Exp::FunDefs {
        decls: vec![
            FunDecl { name: s("f"), parameters: vec![s("a")], body: Exp::Var(s("a"), 2), ann: 1 },
            FunDecl { name: s("g"), parameters: vec![], body: Exp::Num(1, 3), ann: 1 },
        ],
        body: Box::new(Exp::Call(s("f"), vec![Exp::Num(2, 5)], 4)),
        ann: 1,
    };
    assert_eq!(tagged, expected);
}

#[test]
fn if_and_calls_are_tagged_in_order() {
    let p: Exp<()> = Exp::If {
        cond: Box::new(Exp::Bool(true, ())),
        thn: Box::new(Exp::InternalTailCall(s("f"), vec![num(1), num(2)], ())),
        els: Box::new(Exp::ExternalCall {
            fun_name: s("g"),
            args: vec![num(3)],
            is_tail: true,
            ann: (),
        }),
        ann: (),
    };
    let mut tag: u32 = 0;
    let tagged = tag_exp(&p, &mut tag);
    assert_eq!(tag, 7);
    let expected: Exp<u32> = Exp::If {
        cond: Box::new(Exp::Bool(true, 2)),
        thn: Box::new(Exp::InternalTailCall(s("f"), vec![Exp::Num(1, 4), Exp::Num(2, 5)], 3)),
        els: Box::new(Exp::ExternalCall {
            fun_name: s("g"),
            args: vec![Exp::Num(3, 7)],
            is_tail: true,
            ann: 6,
        }),
        ann: 1,
    };
    assert_eq!(tagged, expected);
}

#[test]
fn top_level_functions_carry_the_last_tag_of_their_body() {
    let defs: Vec<FunDecl<Exp<()>, ()>> = vec![
        def("f", vec!["a"], prim2(Prim::Add, num(1), num(2))),
        def("g", vec![], num(3)),
    ];
    let main: Exp<()> = num(4);
    let (t_defs, t_main) = tag_prog(&defs, &main);
    let expected: Vec<FunDecl<Exp<u32>, u32>> = vec![
        FunDecl {
            name: s("f"),
            parameters: vec![s("a")],
            body: Exp::Prim(
                Prim::Add,
                vec![Box::new(Exp::Num(1, 2)), Box::new(Exp::Num(2, 3))],
                1,
            ),
            ann: 3,
        },
        FunDecl { name: s("g"), parameters: vec![], body: Exp::Num(3, 4), ann: 4 },
    ];
    assert_eq!(t_defs, expected);
    assert_eq!(t_main, Exp::Num(4, 5));
    let mut tag: u32 = 10;
    let again = tag_fundecl(&defs, &mut tag);
    assert_eq!(tag, 14);
    assert_eq!(again[0].ann, 13);
    assert_eq!(again[1].ann, 14);
}

fn imm(n: i64) -> SeqExp<()> {
    SeqExp::Imm(ImmExp::Num(n), ())
}

#[test]
fn sequential_trees_are_tagged_in_order() {
    let e: SeqExp<()> = SeqExp::Let {
        var: s("x"),
        bound_exp: Box::new(imm(1)),
        body: Box::new(SeqExp::Prim(Prim::Add1, vec![ImmExp::Var(s("x"))], ())),
        ann: (),
    };
    let mut tag: u32 = 0;
    let tagged = tag_seq_exp(&e, &mut tag);
    assert_eq!(tag, 3);
    let expected: SeqExp<u32> = SeqExp::Let {
        var: s("x"),
        bound_exp: Box::new(SeqExp::Imm(ImmExp::Num(1), 2)),
        body: Box::new(SeqExp::Prim(Prim::Add1, vec![ImmExp::Var(s("x"))], 3)),
        ann: 1,
    };
    assert_eq!(tagged, expected);
}

#[test]
fn local_sequential_functions_carry_the_tag_before_their_body() {
    let e: SeqExp<()> = SeqExp::FunDefs {
        decls: vec![
            FunDecl { name: s("f"), parameters: vec![], body: imm(1), ann: () },
            FunDecl { name: s("g"), parameters: vec![], body: imm(2), ann: () },
        ],
        body: Box::new(SeqExp::InternalTailCall(s("f"), vec![], ())),
        ann: (),
    };
    let mut tag: u32 = 0;
    let tagged = tag_seq_exp(&e, &mut tag);
    assert_eq!(tag, 4);
    let expected: SeqExp<u32> = SeqExp::FunDefs {
        decls: vec![
            FunDecl { name: s("f"), parameters: vec![], body: SeqExp::Imm(ImmExp::Num(1), 2), ann: 1 },
            FunDecl { name: s("g"), parameters: vec![], body: SeqExp::Imm(ImmExp::Num(2), 3), ann: 2 },
        ],
        body: Box::new(SeqExp::InternalTailCall(s("f"), vec![], 4)),
        ann: 1,
    };
    assert_eq!(tagged, expected);
}

#[test]
fn a_sequential_program_is_tagged_from_two() {
    let p: SeqProg<()> = SeqProg {
        funs: vec![
            FunDecl { name: s("f"), parameters: vec![s("a")], body: imm(1), ann: () },
            FunDecl {
                name: s("g"),
                parameters: vec![],
                body: SeqExp::If {
                    cond: ImmExp::Bool(true),
                    thn: Box::new(imm(2)),
                    els: Box::new(imm(3)),
                    ann: (),
                },
                ann: (),
            },
        ],
        main: imm(4),
        ann: (),
    };
    let tagged = tag_sprog(&p);
    let expected: SeqProg<u32> = SeqProg {
        funs: vec![
            FunDecl {
                name: s("f"),
                parameters: vec![s("a")],
                body: SeqExp::Imm(ImmExp::Num(1), 2),
                ann: 1,
            },
            FunDecl {
                name: s("g"),
                parameters: vec![],
                body: SeqExp::If {
                    cond: ImmExp::Bool(true),
                    thn: Box::new(SeqExp::Imm(ImmExp::Num(2), 4)),
                    els: Box::new(SeqExp::Imm(ImmExp::Num(3), 5)),
                    ann: 3,
                },
                ann: 2,
            },
        ],
        main: SeqExp::Imm(ImmExp::Num(4), 6),
        ann: 0,
    };
    assert_eq!(tagged, expected);
}

fn renamed(p: &Exp<()>) -> Exp<()> {
    let mut tag: u32 = 0;
    uniquify(&tag_exp(p, &mut tag))
}

#[test]
fn a_bound_name_gets_the_tag_of_its_let() {
    let p: Exp<()> = let_in(vec![("x", num(1))], var("x"));
    let expected: Exp<()> = let_in(vec![("x#1", num(1))], var("x#1"));
    assert_eq!(renamed(&p), expected);
}

#[test]
fn shadowing_is_taken_apart() {
    let p: Exp<()> = let_in(vec![("x", num(1))], let_in(vec![("x", var("x"))], var("x")));
    let expected: Exp<()> =
        let_in(vec![("x#1", num(1))], let_in(vec![("x#3", var("x#1"))], var("x#3")));
    assert_eq!(renamed(&p), expected);
}

#[test]
fn a_later_binding_refers_to_the_new_name_of_an_earlier_one() {
    let p: Exp<()> = let_in(
        vec![("x", num(1)), ("y", prim2(Prim::Add, var("x"), num(1)))],
        prim2(Prim::Mul, var("x"), var("y")),
    );
    let expected: Exp<()> = let_in(
        vec![("x#1", num(1)), ("y#1", prim2(Prim::Add, var("x#1"), num(1)))],
        prim2(Prim::Mul, var("x#1"), var("y#1")),
    );
    assert_eq!(renamed(&p), expected);
}

#[test]
fn functions_get_the_tag_of_their_group_and_parameters_the_last_tag_of_the_body() {
    let p: Exp<()> = defs_in(
        vec![
            def("f", vec!["n"], call("g", vec![var("n")])),
            def("g", vec!["n"], call("f", vec![var("n")])),
        ],
        call("f", vec![num(1)]),
    );
    let expected: Exp<()> = defs_in(
        vec![
            def("f#1", vec!["n#3"], call("g#1", vec![var("n#3")])),
            def("g#1", vec!["n#5"], call("f#1", vec![var("n#5")])),
        ],
        call("f#1", vec![num(1)]),
    );
    assert_eq!(renamed(&p), expected);
}

#[test]
fn parameters_of_the_same_name_get_different_names() {
    let p: Exp<()> = defs_in(
        vec![def("f", vec!["x"], var("x")), def("g", vec!["x"], var("x"))],
        num(0),
    );
    let expected: Exp<()> = defs_in(
        vec![def("f#1", vec!["x#2"], var("x#2")), def("g#1", vec!["x#3"], var("x#3"))],
        num(0),
    );
    assert_eq!(renamed(&p), expected);
}

#[test]
fn a_parameter_and_a_variable_of_the_body_get_different_names() {
    let p: Exp<()> = defs_in(
        vec![def("f", vec!["x"], let_in(vec![("x", var("x"))], var("x")))],
        call("f", vec![num(1)]),
    );
    let expected: Exp<()> = defs_in(
        vec![def("f#1", vec!["x#4"], let_in(vec![("x#2", var("x#4"))], var("x#2")))],
        call("f#1", vec![num(1)]),
    );
    assert_eq!(renamed(&p), expected);
}

#[test]
fn groups_that_declare_the_same_name_are_taken_apart() {
    let p: Exp<()> = prim2(
        Prim::Add,
        defs_in(vec![def("f", vec![], num(1))], call("f", vec![])),
        defs_in(vec![def("f", vec![], num(2))], call("f", vec![])),
    );
    let expected: Exp<()> = prim2(
        Prim::Add,
        defs_in(vec![def("f#2", vec![], num(1))], call("f#2", vec![])),
        defs_in(vec![def("f#5", vec![], num(2))], call("f#5", vec![])),
    );
    assert_eq!(renamed(&p), expected);
}

fn factorial() -> Exp<()> {
    defs_in(
        vec![def(
            "fact",
            vec!["n"],
            Exp::If {
                cond: Box::new(prim2(Prim::Lt, var("n"), num(2))),
                thn: Box::new(num(1)),
                els: Box::new(prim2(
                    Prim::Mul,
                    var("n"),
                    call("fact", vec![prim2(Prim::Sub, var("n"), num(1))]),
                )),
                ann: (),
            },
        )],
        call("fact", vec![num(5)]),
    )
}

fn count_down() -> Exp<()> {
    defs_in(
        vec![def(
            "loop",
            vec!["n"],
            Exp::If {
                cond: Box::new(prim2(Prim::Eq, var("n"), num(0))),
                thn: Box::new(num(0)),
                els: Box::new(call("loop", vec![prim2(Prim::Sub, var("n"), num(1))])),
                ann: (),
            },
        )],
        call("loop", vec![num(9)]),
    )
}

#[test]
fn a_function_called_from_a_non_tail_position_is_lifted() {
    assert_eq!(should_lift(&factorial()), vec![s("fact")]);
}

#[test]
fn a_function_called_from_tail_positions_only_is_not_lifted() {
    assert_eq!(should_lift(&count_down()), Vec::<String>::new());
}

#[test]
fn a_call_in_a_binding_an_operand_an_argument_or_a_condition_is_no_tail_call() {
    let f = || def("f", vec![], num(1));
    let in_binding: Exp<()> = defs_in(vec![f()], let_in(vec![("x", call("f", vec![]))], var("x")));
    assert_eq!(should_lift(&in_binding), vec![s("f")]);
    let in_operand: Exp<()> = defs_in(vec![f()], prim2(Prim::Add, call("f", vec![]), num(1)));
    assert_eq!(should_lift(&in_operand), vec![s("f")]);
    let in_argument: Exp<()> = defs_in(
        vec![f(), def("g", vec!["x"], var("x"))],
        call("g", vec![call("f", vec![])]),
    );
    assert_eq!(sorted(should_lift(&in_argument)), vec![s("f"), s("g")]);
    let in_condition: Exp<()> = defs_in(
        vec![f()],
        Exp::If {
            cond: Box::new(call("f", vec![])),
            thn: Box::new(num(1)),
            els: Box::new(num(2)),
            ann: (),
        },
    );
    assert_eq!(should_lift(&in_condition), vec![s("f")]);
}

#[test]
fn a_call_in_a_branch_or_a_body_keeps_the_position() {
    let f = || def("f", vec![], num(1));
    let in_branch: Exp<()> = defs_in(
        vec![f()],
        Exp::If {
            cond: Box::new(Exp::Bool(true, ())),
            thn: Box::new(call("f", vec![])),
            els: Box::new(let_in(vec![("x", num(1))], call("f", vec![]))),
            ann: (),
        },
    );
    assert_eq!(should_lift(&in_branch), Vec::<String>::new());
    let branch_of_operand: Exp<()> = defs_in(
        vec![f()],
        prim2(
            Prim::Add,
            num(1),
            Exp::If {
                cond: Box::new(Exp::Bool(true, ())),
                thn: Box::new(call("f", vec![])),
                els: Box::new(num(2)),
                ann: (),
            },
        ),
    );
    assert_eq!(should_lift(&branch_of_operand), vec![s("f")]);
}

#[test]
fn a_group_is_lifted_as_a_whole() {
    let p: Exp<()> = defs_in(
        vec![
            def("f", vec![], num(1)),
            def("g", vec![], prim2(Prim::Add, call("f", vec![]), num(1))),
            def("h", vec![], num(3)),
        ],
        call("g", vec![]),
    );
    assert_eq!(sorted(should_lift(&p)), vec![s("f"), s("g"), s("h")]);
}

#[test]
fn a_group_around_a_lifted_group_stays() {
    let inner: Exp<()> = defs_in(
        vec![def("inner", vec![], num(1))],
        prim2(Prim::Add, call("inner", vec![]), num(1)),
    );
    let p: Exp<()> = defs_in(vec![def("outer", vec![], inner)], call("outer", vec![]));
    assert_eq!(should_lift(&p), vec![s("inner")]);
}

#[test]
fn a_lifted_function_moves_to_the_top_with_the_variables_in_scope() {
    let p: Exp<()> = let_in(
        vec![("a", num(1))],
        defs_in(
            vec![def("f", vec!["x"], prim2(Prim::Add, var("a"), var("x")))],
            prim2(Prim::Add, call("f", vec![num(2)]), num(1)),
        ),
    );
    let (funs, main) = lambda_lift(&p);
    let expected_funs: Vec<FunDecl<Exp<()>, ()>> =
        vec![def("f", vec!["a", "x"], prim2(Prim::Add, var("a"), var("x")))];
    let expected_main: Exp<()> = let_in(
        vec![("a", num(1))],
        prim2(
            Prim::Add,
            Exp::ExternalCall {
                fun_name: s("f"),
                args: vec![var("a"), num(2)],
                is_tail: false,
                ann: (),
            },
            num(1),
        ),
    );
    assert_eq!(funs, expected_funs);
    assert_eq!(main, expected_main);
}

#[test]
fn a_function_that_is_not_lifted_stays_and_is_jumped_to() {
    let p: Exp<()> = defs_in(vec![def("f", vec!["x"], var("x"))], call("f", vec![num(2)]));
    let (funs, main) = lambda_lift(&p);
    assert_eq!(funs, Vec::<FunDecl<Exp<()>, ()>>::new());
    let expected: Exp<()> = defs_in(
        vec![def("f", vec!["x"], var("x"))],
        Exp::InternalTailCall(s("f"), vec![num(2)], ()),
    );
    assert_eq!(main, expected);
}

#[test]
fn a_function_that_stays_takes_the_variables_in_scope_too() {
    let p: Exp<()> = let_in(
        vec![("a", num(1)), ("b", num(2))],
        defs_in(vec![def("f", vec!["x"], var("b"))], call("f", vec![num(3)])),
    );
    let (funs, main) = lambda_lift(&p);
    assert_eq!(funs, Vec::<FunDecl<Exp<()>, ()>>::new());
    let expected: Exp<()> = let_in(
        vec![("a", num(1)), ("b", num(2))],
        defs_in(
            vec![def("f", vec!["a", "b", "x"], var("b"))],
            Exp::InternalTailCall(s("f"), vec![var("a"), var("b"), num(3)], ()),
        ),
    );
    assert_eq!(main, expected);
}

#[test]
fn a_lifted_function_called_from_a_tail_position_is_marked() {
    let p: Exp<()> = defs_in(
        vec![def("f", vec!["x"], var("x"))],
        let_in(vec![("y", call("f", vec![num(1)]))], call("f", vec![var("y")])),
    );
    let (funs, main) = lambda_lift(&p);
    let expected_funs: Vec<FunDecl<Exp<()>, ()>> = vec![def("f", vec!["x"], var("x"))];
    let expected_main: Exp<()> = let_in(
        vec![(
            "y",
            Exp::ExternalCall { fun_name: s("f"), args: vec![num(1)], is_tail: false, ann: () },
        )],
        Exp::ExternalCall { fun_name: s("f"), args: vec![var("y")], is_tail: true, ann: () },
    );
    assert_eq!(funs, expected_funs);
    assert_eq!(main, expected_main);
}

#[test]
fn a_function_inside_a_lifted_function_stays_inside_it() {
    let inner: Exp<()> = defs_in(vec![def("g", vec!["y"], var("y"))], call("g", vec![var("x")]));
    let p: Exp<()> = defs_in(
        vec![def("f", vec!["x"], inner)],
        prim2(Prim::Add, call("f", vec![num(1)]), num(1)),
    );
    let (funs, main) = lambda_lift(&p);
    let expected_funs: Vec<FunDecl<Exp<()>, ()>> = vec![def(
        "f",
        vec!["x"],
        defs_in(
            vec![def("g", vec!["x", "y"], var("y"))],
            Exp::InternalTailCall(s("g"), vec![var("x"), var("x")], ()),
        ),
    )];
    let expected_main: Exp<()> = prim2(
        Prim::Add,
        Exp::ExternalCall { fun_name: s("f"), args: vec![num(1)], is_tail: false, ann: () },
        num(1),
    );
    assert_eq!(funs, expected_funs);
    assert_eq!(main, expected_main);
}

#[test]
fn no_call_is_left_unclassified() {
    fn none_left(e: &Exp<()>) -> bool {
        match e {
            Exp::Num(..) | Exp::Bool(..) | Exp::Var(..) => true,
            Exp::Prim(_, es, _) => es.iter().all(|e| none_left(e)),
            Exp::Let { bindings, body, .. } => {
                bindings.iter().all(|(_, e)| none_left(e)) && none_left(body)
            }
            Exp::If { cond, thn, els, .. } => none_left(cond) && none_left(thn) && none_left(els),
            Exp::FunDefs { decls, body, .. } => {
                decls.iter().all(|d| none_left(&d.body)) && none_left(body)
            }
            Exp::Call(..) => false,
            Exp::InternalTailCall(_, args, _) => args.iter().all(none_left),
            Exp::ExternalCall { args, .. } => args.iter().all(none_left),
        }
    }
    for p in [factorial(), count_down()] {
        let (funs, main) = lambda_lift(&renamed(&p));
        assert!(none_left(&main));
        assert!(funs.iter().all(|f| none_left(&f.body)));
    }
}

#[test]
fn a_copy_is_equal_to_what_was_copied() {
    let p = renamed(&factorial());
    assert_eq!(copy_exp(&p), p);
}

fn seq_var(x: &str) -> ImmExp {
    ImmExp::Var(s(x))
}

fn seq_let(x: &str, bound: SeqExp<()>, body: SeqExp<()>) -> SeqExp<()> {
    SeqExp::Let { var: s(x), bound_exp: Box::new(bound), body: Box::new(body), ann: () }
}

#[test]
fn immediates_stay_as_they_are() {
    assert_eq!(sequentialize(&Exp::Num(5, 1)), imm(5));
    assert_eq!(sequentialize(&Exp::Bool(false, 1)), SeqExp::Imm(ImmExp::Bool(false), ()));
    assert_eq!(sequentialize(&Exp::Var(s("x"), 1)), SeqExp::Imm(seq_var("x"), ()));
}

#[test]
fn the_operand_of_a_unary_operation_gets_a_name() {
    let e: Exp<u32> = Exp::Prim(Prim::Not, vec![Box::new(Exp::Bool(true, 4))], 3);
    let expected = seq_let(
        "#prim1_3",
        SeqExp::Imm(ImmExp::Bool(true), ()),
        SeqExp::Prim(Prim::Not, vec![seq_var("#prim1_3")], ()),
    );
    assert_eq!(sequentialize(&e), expected);
}

#[test]
fn the_operands_of_a_binary_operation_get_names_from_left_to_right() {
    let e: Exp<u32> =
        Exp::Prim(Prim::Sub, vec![Box::new(Exp::Num(1, 8)), Box::new(Exp::Num(2, 9))], 7);
    let expected = seq_let(
        "#prim2_1_7",
        imm(1),
        seq_let(
            "#prim2_2_7",
            imm(2),
            SeqExp::Prim(Prim::Sub, vec![seq_var("#prim2_1_7"), seq_var("#prim2_2_7")], ()),
        ),
    );
    assert_eq!(sequentialize(&e), expected);
}

#[test]
fn nested_operations_are_flattened_inside_out() {
    let inner: Exp<u32> = Exp::Prim(Prim::Add1, vec![Box::new(Exp::Num(3, 3))], 2);
    let e: Exp<u32> = Exp::Prim(Prim::Sub1, vec![Box::new(inner)], 1);
    let expected = seq_let(
        "#prim1_1",
        seq_let("#prim1_2", imm(3), SeqExp::Prim(Prim::Add1, vec![seq_var("#prim1_2")], ())),
        SeqExp::Prim(Prim::Sub1, vec![seq_var("#prim1_1")], ()),
    );
    assert_eq!(sequentialize(&e), expected);
}

#[test]
fn the_bindings_of_a_let_become_nested_lets() {
    let e: Exp<u32> = Exp::Let {
        bindings: vec![(s("x"), Exp::Num(1, 2)), (s("y"), Exp::Num(2, 3))],
        body: Box::new(Exp::Var(s("x"), 4)),
        ann: 1,
    };
    let expected = seq_let("x", imm(1), seq_let("y", imm(2), SeqExp::Imm(seq_var("x"), ())));
    assert_eq!(sequentialize(&e), expected);
}

#[test]
fn a_let_without_bindings_is_its_body() {
    let e: Exp<u32> = Exp::Let { bindings: vec![], body: Box::new(Exp::Num(1, 2)), ann: 1 };
    assert_eq!(sequentialize(&e), imm(1));
}

#[test]
fn the_condition_of_an_if_gets_a_name() {
    let e: Exp<u32> = Exp::If {
        cond: Box::new(Exp::Bool(true, 5)),
        thn: Box::new(Exp::Num(1, 6)),
        els: Box::new(Exp::Num(2, 7)),
        ann: 4,
    };
    let expected = seq_let(
        "#if_cond_4",
        SeqExp::Imm(ImmExp::Bool(true), ()),
        SeqExp::If {
            cond: seq_var("#if_cond_4"),
            thn: Box::new(imm(1)),
            els: Box::new(imm(2)),
            ann: (),
        },
    );
    assert_eq!(sequentialize(&e), expected);
}

#[test]
fn the_arguments_of_a_call_get_names_in_order() {
    let e: Exp<u32> = Exp::ExternalCall {
        fun_name: s("f"),
        args: vec![Exp::Num(1, 10), Exp::Num(2, 11)],
        is_tail: false,
        ann: 9,
    };
    let expected = seq_let(
        "#function_9_arg_0",
        imm(1),
        seq_let(
            "#function_9_arg_1",
            imm(2),
            SeqExp::ExternalCall {
                fun_name: s("f"),
                args: vec![seq_var("#function_9_arg_0"), seq_var("#function_9_arg_1")],
                is_tail: false,
                ann: (),
            },
        ),
    );
    assert_eq!(sequentialize(&e), expected);
    let t: Exp<u32> = Exp::InternalTailCall(s("g"), vec![Exp::Var(s("a"), 13)], 12);
    let expected_t = seq_let(
        "#function_12_arg_0",
        SeqExp::Imm(seq_var("a"), ()),
        SeqExp::InternalTailCall(s("g"), vec![seq_var("#function_12_arg_0")], ()),
    );
    assert_eq!(sequentialize(&t), expected_t);
}

#[test]
fn a_call_without_arguments_stays_a_call() {
    let e: Exp<u32> = Exp::InternalTailCall(s("f"), vec![], 3);
    assert_eq!(sequentialize(&e), SeqExp::InternalTailCall(s("f"), vec![], ()));
}

#[test]
fn local_functions_keep_their_place() {
    let e: Exp<u32> = Exp::FunDefs {
        decls: vec![FunDecl {
            name: s("f"),
            parameters: vec![s("x")],
            body: Exp::Prim(Prim::Add1, vec![Box::new(Exp::Var(s("x"), 3))], 2),
            ann: 1,
        }],
        body: Box::new(Exp::InternalTailCall(s("f"), vec![Exp::Num(1, 5)], 4)),
        ann: 1,
    };
    let expected: SeqExp<()> = SeqExp::FunDefs {
        decls: vec![FunDecl {
            name: s("f"),
            parameters: vec![s("x")],
            body: seq_let(
                "#prim1_2",
                SeqExp::Imm(seq_var("x"), ()),
                SeqExp::Prim(Prim::Add1, vec![seq_var("#prim1_2")], ()),
            ),
            ann: (),
        }],
        body: Box::new(seq_let(
            "#function_4_arg_0",
            imm(1),
            SeqExp::InternalTailCall(s("f"), vec![seq_var("#function_4_arg_0")], ()),
        )),
        ann: (),
    };
    assert_eq!(sequentialize(&e), expected);
}

#[test]
fn a_program_is_put_in_sequential_form_function_by_function() {
    let funs: Vec<FunDecl<Exp<u32>, u32>> =
        vec![FunDecl { name: s("f"), parameters: vec![s("a")], body: Exp::Var(s("a"), 1), ann: 1 }];
    let main: Exp<u32> = Exp::Num(3, 2);
    let expected: SeqProg<()> = SeqProg {
        funs: vec![FunDecl {
            name: s("f"),
            parameters: vec![s("a")],
            body: SeqExp::Imm(seq_var("a"), ()),
            ann: (),
        }],
        main: imm(3),
        ann: (),
    };
    assert_eq!(seq_prog(&funs, &main), expected);
}

#[test]
fn every_operand_after_sequentialization_is_immediate() {
    fn operands_are_names(e: &SeqExp<()>) -> bool {
        match e {
            SeqExp::Imm(..) => true,
            SeqExp::Prim(_, is, _) => is.iter().all(|i| matches!(i, ImmExp::Var(_))),
            SeqExp::Let { bound_exp, body, .. } => {
                operands_are_names(bound_exp) && operands_are_names(body)
            }
            SeqExp::If { cond, thn, els, .. } => {
                matches!(cond, ImmExp::Var(_)) && operands_are_names(thn) && operands_are_names(els)
            }
            SeqExp::FunDefs { decls, body, .. } => {
                decls.iter().all(|d| operands_are_names(&d.body)) && operands_are_names(body)
            }
            SeqExp::InternalTailCall(_, args, _) => args.iter().all(|i| matches!(i, ImmExp::Var(_))),
            SeqExp::ExternalCall { args, .. } => args.iter().all(|i| matches!(i, ImmExp::Var(_))),
        }
    }
    let (funs, main) = lambda_lift(&renamed(&factorial()));
    let (t_funs, t_main) = tag_prog(&funs, &main);
    let p = seq_prog(&t_funs, &t_main);
    assert!(operands_are_names(&p.main));
    assert!(p.funs.iter().all(|f| operands_are_names(&f.body)));
}

#[test]
fn nodes_are_counted_against_a_budget() {
    let p: Exp<()> = prim2(Prim::Add, num(1), num(2));
    assert_eq!(take_nodes(&p, 3), Some(0));
    assert_eq!(take_nodes(&p, 10), Some(7));
    assert_eq!(take_nodes(&p, 2), None);
    assert_eq!(take_nodes(&p, 0), None);
    assert_eq!(take_nodes(&factorial(), 100), Some(100 - 14));
}

#[test]
fn sequential_nodes_are_counted_against_a_budget() {
    let e = seq_let("x", imm(1), SeqExp::Prim(Prim::Add, vec![seq_var("x"), seq_var("x")], ()));
    assert_eq!(take_seq_nodes(&e, 3), Some(0));
    assert_eq!(take_seq_nodes(&e, 2), None);
    let g: SeqExp<()> = SeqExp::FunDefs {
        decls: vec![FunDecl { name: s("f"), parameters: vec![s("a"), s("b")], body: imm(1), ann: () }],
        body: Box::new(SeqExp::InternalTailCall(s("f"), vec![seq_var("a"), seq_var("b")], ())),
        ann: (),
    };
    assert_eq!(take_seq_nodes(&g, 10), Some(7));
}

#[test]
fn slots_and_reach_are_counted_up_to_a_cap() {
    let sum = SeqExp::Prim(Prim::Add, vec![seq_var("x"), seq_var("x")], ());
    let e = seq_let("x", seq_let("y", imm(1), imm(2)), seq_let("z", imm(3), sum));
    assert_eq!(slots_upto(&e, 100), 2);
    assert_eq!(reach_upto(&e, 100), 2);
    assert_eq!(slots_upto(&e, 2), 2);
    assert_eq!(slots_upto(&e, 1), 1);
    assert_eq!(reach_upto(&e, 0), 0);
    let call: SeqExp<()> =
        SeqExp::InternalTailCall(s("f"), vec![seq_var("a"), seq_var("b"), seq_var("a")], ());
    assert_eq!(slots_upto(&call, 100), 0);
    assert_eq!(reach_upto(&call, 100), 3);
    assert_eq!(reach_upto(&call, 2), 2);
    let body = seq_let("v", imm(1), seq_let("w", imm(2), imm(3)));
    let g: SeqExp<()> = SeqExp::FunDefs {
        decls: vec![
            FunDecl { name: s("f"), parameters: vec![s("a"), s("b")], body, ann: () },
            FunDecl { name: s("g"), parameters: vec![s("a")], body: imm(1), ann: () },
        ],
        body: Box::new(seq_let("u", imm(0), call)),
        ann: (),
    };
    assert_eq!(slots_upto(&g, 100), (2 + 2) + 1);
    assert_eq!(reach_upto(&g, 100), 2 + 2);
    assert_eq!(reach_upto(&g, 3), 3);
}
