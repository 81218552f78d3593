//! The well-formedness check of a surface program: scoping of variables and
//! functions, arities, duplicate names, and the range of number literals.

use vstd::prelude::*;
use crate::lists::union_all;
use crate::names::{
    clone_names, contains_name, insert_name, insert_names, lemma_env_extend_set,
    lemma_env_insert_set, name_set, names_of,
};
use crate::syntax::{
    Exp, ExpV, FunDecl, FunDeclV, binding_names, bindings_view, boxed_exps_view, decls_view,
    exps_view, group_names,
};

verus! {

/// The largest number that a program can hold.
pub const MAX_SNAKE_INT: i64 = 0x3FFF_FFFF_FFFF_FFFF;

/// The smallest number that a program can hold.
pub const MIN_SNAKE_INT: i64 = -0x4000_0000_0000_0000;

/// What can be wrong with a surface program, each with the annotation of the place.
#[derive(Debug, PartialEq, Eq)]
pub enum CompileErr<Span> {
    UnboundVariable { unbound: String, location: Span },
    UndefinedFunction { undefined: String, location: Span },
    DuplicateBinding { duplicated_name: String, location: Span },
    Overflow { num: i64, location: Span },
    DuplicateFunName { duplicated_name: String, location: Span },
    DuplicateArgName { duplicated_name: String, location: Span },
    FunctionUsedAsValue { function_name: String, location: Span },
    ValueUsedAsFunction { variable_name: String, location: Span },
    FunctionCalledWrongArity {
        function_name: String,
        correct_arity: usize,
        arity_used: usize,
        location: Span,
    },
}

/// The view of an error: names are sequences of characters.
pub enum CompileErrV<Span> {
    UnboundVariable { unbound: Seq<char>, location: Span },
    UndefinedFunction { undefined: Seq<char>, location: Span },
    DuplicateBinding { duplicated_name: Seq<char>, location: Span },
    Overflow { num: i64, location: Span },
    DuplicateFunName { duplicated_name: Seq<char>, location: Span },
    DuplicateArgName { duplicated_name: Seq<char>, location: Span },
    FunctionUsedAsValue { function_name: Seq<char>, location: Span },
    ValueUsedAsFunction { variable_name: Seq<char>, location: Span },
    FunctionCalledWrongArity {
        function_name: Seq<char>,
        correct_arity: nat,
        arity_used: nat,
        location: Span,
    },
}

impl<Span> View for CompileErr<Span> {
    type V = CompileErrV<Span>;

    open spec fn view(&self) -> CompileErrV<Span> {
        match self {
            CompileErr::UnboundVariable { unbound, location } => CompileErrV::UnboundVariable {
                unbound: unbound@,
                location: *location,
            },
            CompileErr::UndefinedFunction {
                undefined,
                location,
            } => CompileErrV::UndefinedFunction { undefined: undefined@, location: *location },
            CompileErr::DuplicateBinding {
                duplicated_name,
                location,
            } => CompileErrV::DuplicateBinding {
                duplicated_name: duplicated_name@,
                location: *location,
            },
            CompileErr::Overflow { num, location } => CompileErrV::Overflow {
                num: *num,
                location: *location,
            },
            CompileErr::DuplicateFunName {
                duplicated_name,
                location,
            } => CompileErrV::DuplicateFunName {
                duplicated_name: duplicated_name@,
                location: *location,
            },
            CompileErr::DuplicateArgName {
                duplicated_name,
                location,
            } => CompileErrV::DuplicateArgName {
                duplicated_name: duplicated_name@,
                location: *location,
            },
            CompileErr::FunctionUsedAsValue {
                function_name,
                location,
            } => CompileErrV::FunctionUsedAsValue {
                function_name: function_name@,
                location: *location,
            },
            CompileErr::ValueUsedAsFunction {
                variable_name,
                location,
            } => CompileErrV::ValueUsedAsFunction {
                variable_name: variable_name@,
                location: *location,
            },
            CompileErr::FunctionCalledWrongArity {
                function_name,
                correct_arity,
                arity_used,
                location,
            } => CompileErrV::FunctionCalledWrongArity {
                function_name: function_name@,
                correct_arity: *correct_arity as nat,
                arity_used: *arity_used as nat,
                location: *location,
            },
        }
    }
}

impl<Span> CompileErrV<Span> {
    /// The annotation of the place of the error.
    pub open spec fn location(self) -> Span {
        match self {
            CompileErrV::UnboundVariable { location, .. } => location,
            CompileErrV::UndefinedFunction { location, .. } => location,
            CompileErrV::DuplicateBinding { location, .. } => location,
            CompileErrV::Overflow { location, .. } => location,
            CompileErrV::DuplicateFunName { location, .. } => location,
            CompileErrV::DuplicateArgName { location, .. } => location,
            CompileErrV::FunctionUsedAsValue { location, .. } => location,
            CompileErrV::ValueUsedAsFunction { location, .. } => location,
            CompileErrV::FunctionCalledWrongArity { location, .. } => location,
        }
    }

    /// The same error at the place annotated `location`.
    pub open spec fn at(self, location: Span) -> CompileErrV<Span> {
        match self {
            CompileErrV::UnboundVariable { unbound, .. } => CompileErrV::UnboundVariable {
                unbound,
                location,
            },
            CompileErrV::UndefinedFunction { undefined, .. } => CompileErrV::UndefinedFunction {
                undefined,
                location,
            },
            CompileErrV::DuplicateBinding {
                duplicated_name,
                ..
            } => CompileErrV::DuplicateBinding { duplicated_name, location },
            CompileErrV::Overflow { num, .. } => CompileErrV::Overflow { num, location },
            CompileErrV::DuplicateFunName {
                duplicated_name,
                ..
            } => CompileErrV::DuplicateFunName { duplicated_name, location },
            CompileErrV::DuplicateArgName {
                duplicated_name,
                ..
            } => CompileErrV::DuplicateArgName { duplicated_name, location },
            CompileErrV::FunctionUsedAsValue {
                function_name,
                ..
            } => CompileErrV::FunctionUsedAsValue { function_name, location },
            CompileErrV::ValueUsedAsFunction {
                variable_name,
                ..
            } => CompileErrV::ValueUsedAsFunction { variable_name, location },
            CompileErrV::FunctionCalledWrongArity {
                function_name,
                correct_arity,
                arity_used,
                ..
            } => CompileErrV::FunctionCalledWrongArity {
                function_name,
                correct_arity,
                arity_used,
                location,
            },
        }
    }
}

/// Whether `got` reports the error `want`: the same error, with a clone of the
/// annotation.
pub open spec fn reports<Span: Clone>(got: CompileErrV<Span>, want: CompileErrV<Span>) -> bool {
    got == want.at(got.location()) && cloned(want.location(), got.location())
}

/// The first error among the first `n` entries of `s`, if there is one.
pub open spec fn first_upto<E>(s: Seq<Option<E>>, n: int) -> Option<E>
    decreases n,
{
    if n <= 0 || n > s.len() {
        None
    } else {
        match first_upto(s, n - 1) {
            Some(e) => Some(e),
            None => s[n - 1],
        }
    }
}

/// The first error among the entries of `s`, if there is one.
pub open spec fn first_of<E>(s: Seq<Option<E>>) -> Option<E> {
    first_upto(s, s.len() as int)
}

/// The first of two results that is an error, if one is.
pub open spec fn or_else<E>(a: Option<E>, b: Option<E>) -> Option<E> {
    match a {
        Some(e) => Some(e),
        None => b,
    }
}

/// The first name among the first `n` of `names` that occurs before itself.
pub open spec fn first_repeat(names: Seq<Seq<char>>, n: int) -> Option<Seq<char>>
    decreases n,
{
    if n <= 0 || n > names.len() {
        None
    } else {
        match first_repeat(names, n - 1) {
            Some(x) => Some(x),
            None => if names.take(n - 1).contains(names[n - 1]) {
                Some(names[n - 1])
            } else {
                None
            },
        }
    }
}

/// The functions in scope after the first `n` declarations of a group were added to
/// `funs`, each with the number of its parameters.
pub open spec fn with_group<E, A>(
    funs: Map<Seq<char>, nat>,
    ds: Seq<FunDeclV<E, A>>,
    n: int,
) -> Map<Seq<char>, nat>
    decreases n,
{
    if n <= 0 || n > ds.len() {
        funs
    } else {
        with_group(funs, ds, n - 1).insert(ds[n - 1].name, ds[n - 1].parameters.len())
    }
}

/// The error in each operand of a list, if it has one.
pub open spec fn operand_errors<S>(
    es: Seq<ExpV<S>>,
    vars: Set<Seq<char>>,
    funs: Map<Seq<char>, nat>,
) -> Seq<Option<CompileErrV<S>>>
    decreases es,
{
    Seq::new(
        es.len(),
        |i: int|
            if 0 <= i < es.len() {
                first_error(es[i], vars, funs)
            } else {
                None
            },
    )
}

/// The error in each binding of a `Let` annotated `loc`, if it has one: a name bound
/// before in the same `Let`, or else an error in the bound expression, which sees
/// the names bound before it.
pub open spec fn binding_errors<S>(
    bs: Seq<(Seq<char>, ExpV<S>)>,
    vars: Set<Seq<char>>,
    funs: Map<Seq<char>, nat>,
    loc: S,
) -> Seq<Option<CompileErrV<S>>>
    decreases bs,
{
    Seq::new(
        bs.len(),
        |i: int|
            if 0 <= i < bs.len() {
                if binding_names(bs).take(i).contains(bs[i].0) {
                    Some(CompileErrV::DuplicateBinding { duplicated_name: bs[i].0, location: loc })
                } else {
                    first_error(bs[i].1, vars.union(binding_names(bs).take(i).to_set()), funs)
                }
            } else {
                None
            },
    )
}

/// The error in the header of each declaration of a group, if it has one: a name
/// declared before in the same group, or else a parameter name that occurs twice.
pub open spec fn header_errors<S>(ds: Seq<FunDeclV<ExpV<S>, S>>) -> Seq<Option<CompileErrV<S>>> {
    Seq::new(
        ds.len(),
        |i: int|
            if group_names(ds).take(i).contains(ds[i].name) {
                Some(CompileErrV::DuplicateFunName { duplicated_name: ds[i].name, location: ds[i].ann })
            } else {
                match first_repeat(ds[i].parameters, ds[i].parameters.len() as int) {
                    Some(x) => Some(
                        CompileErrV::DuplicateArgName { duplicated_name: x, location: ds[i].ann },
                    ),
                    None => None,
                }
            },
    )
}

/// The error in the body of each declaration of a group, if it has one; a body sees
/// the parameters of its function.
pub open spec fn body_errors<S>(
    ds: Seq<FunDeclV<ExpV<S>, S>>,
    vars: Set<Seq<char>>,
    funs: Map<Seq<char>, nat>,
) -> Seq<Option<CompileErrV<S>>>
    decreases ds,
{
    Seq::new(
        ds.len(),
        |i: int|
            if 0 <= i < ds.len() {
                first_error(ds[i].body, vars.union(ds[i].parameters.to_set()), funs)
            } else {
                None
            },
    )
}

/// The first error that the well-formedness check meets in `e`, where the variables
/// `vars` are in scope and `funs` gives the number of parameters of each function in
/// scope, or `None` where `e` has no error.
pub open spec fn first_error<S>(e: ExpV<S>, vars: Set<Seq<char>>, funs: Map<Seq<char>, nat>) -> Option<
    CompileErrV<S>,
>
    decreases e,
{
    match e {
        ExpV::Num(n, s) => if n > MAX_SNAKE_INT || n < MIN_SNAKE_INT {
            Some(CompileErrV::Overflow { num: n, location: s })
        } else {
            None
        },
        ExpV::Bool(..) => None,
        ExpV::Var(x, s) => if vars.contains(x) {
            None
        } else if funs.contains_key(x) {
            Some(CompileErrV::FunctionUsedAsValue { function_name: x, location: s })
        } else {
            Some(CompileErrV::UnboundVariable { unbound: x, location: s })
        },
        ExpV::Prim(_, es, _) => first_of(operand_errors(es, vars, funs)),
        ExpV::Let { bindings, body, ann } => or_else(
            first_of(binding_errors(bindings, vars, funs, ann)),
            first_error(*body, vars.union(binding_names(bindings).to_set()), funs),
        ),
        ExpV::If { cond, thn, els, .. } => or_else(
            first_error(*cond, vars, funs),
            or_else(first_error(*thn, vars, funs), first_error(*els, vars, funs)),
        ),
        ExpV::FunDefs { decls, body, .. } => or_else(
            first_of(header_errors(decls)),
            or_else(
                first_of(body_errors(decls, vars, with_group(funs, decls, decls.len() as int))),
                first_error(*body, vars, with_group(funs, decls, decls.len() as int)),
            ),
        ),
        ExpV::Call(f, args, s) => if vars.contains(f) {
            Some(CompileErrV::ValueUsedAsFunction { variable_name: f, location: s })
        } else if !funs.contains_key(f) {
            Some(CompileErrV::UndefinedFunction { undefined: f, location: s })
        } else if args.len() != funs[f] {
            Some(
                CompileErrV::FunctionCalledWrongArity {
                    function_name: f,
                    correct_arity: funs[f],
                    arity_used: args.len(),
                    location: s,
                },
            )
        } else {
            first_of(operand_errors(args, vars, funs))
        },
        ExpV::InternalTailCall(..) | ExpV::ExternalCall { .. } => None,
    }
}

/// Whether `e` is well formed where the variables `vars` are in scope and `funs`
/// gives the number of parameters of each function in scope: every number is in
/// range, every variable is bound, every call names a function in scope, which is no
/// variable, and gives it as many arguments as it has parameters, and no name occurs
/// twice in the bindings of one `Let`, in one group of functions, or among the
/// parameters of one function.
pub open spec fn well_formed<S>(e: ExpV<S>, vars: Set<Seq<char>>, funs: Map<Seq<char>, nat>) -> bool
    decreases e,
{
    match e {
        ExpV::Num(n, _) => MIN_SNAKE_INT <= n <= MAX_SNAKE_INT,
        ExpV::Bool(..) => true,
        ExpV::Var(x, _) => vars.contains(x),
        ExpV::Prim(_, es, _) => forall|i: int|
            0 <= i < es.len() ==> well_formed(#[trigger] es[i], vars, funs),
        ExpV::Let { bindings, body, .. } => {
            &&& binding_names(bindings).no_duplicates()
            &&& forall|i: int|
                0 <= i < bindings.len() ==> well_formed(
                    (#[trigger] bindings[i]).1,
                    vars.union(binding_names(bindings).take(i).to_set()),
                    funs,
                )
            &&& well_formed(*body, vars.union(binding_names(bindings).to_set()), funs)
        },
        ExpV::If { cond, thn, els, .. } => {
            &&& well_formed(*cond, vars, funs)
            &&& well_formed(*thn, vars, funs)
            &&& well_formed(*els, vars, funs)
        },
        ExpV::FunDefs { decls, body, .. } => {
            &&& group_names(decls).no_duplicates()
            &&& forall|i: int| 0 <= i < decls.len() ==> (#[trigger] decls[i]).parameters.no_duplicates()
            &&& forall|i: int|
                0 <= i < decls.len() ==> well_formed(
                    (#[trigger] decls[i]).body,
                    vars.union(decls[i].parameters.to_set()),
                    with_group(funs, decls, decls.len() as int),
                )
            &&& well_formed(*body, vars, with_group(funs, decls, decls.len() as int))
        },
        ExpV::Call(f, args, _) => {
            &&& !vars.contains(f)
            &&& funs.contains_key(f)
            &&& funs[f] == args.len()
            &&& forall|i: int| 0 <= i < args.len() ==> well_formed(#[trigger] args[i], vars, funs)
        },
        ExpV::InternalTailCall(..) | ExpV::ExternalCall { .. } => false,
    }
}

/// Whether the whole program `p` is well formed: nothing is in scope around it.
pub open spec fn well_formed_prog<S>(p: ExpV<S>) -> bool {
    well_formed(p, Set::empty(), Map::empty())
}

/// The first error of the whole program `p`, if it has one.
pub open spec fn first_error_prog<S>(p: ExpV<S>) -> Option<CompileErrV<S>> {
    first_error(p, Set::empty(), Map::empty())
}

/// Whether the result `r` of a check agrees with `want`: success where there is no
/// error, and else a report of that error.
pub open spec fn verdict<T, Span: Clone>(
    r: Result<T, CompileErr<Span>>,
    want: Option<CompileErrV<Span>>,
) -> bool {
    match r {
        Ok(_) => want is None,
        Err(e) => want is Some && reports(e@, want->0),
    }
}

/// Once an entry is an error and none before it is, it is the first error.
pub proof fn lemma_first_found<E>(s: Seq<Option<E>>, i: int, n: int)
    requires
        0 <= i < n <= s.len(),
        first_upto(s, i) is None,
        s[i] is Some,
    ensures
        first_upto(s, n) == s[i],
    decreases n,
{
    if i < n - 1 {
        lemma_first_found(s, i, n - 1);
    }
}

/// Once a name repeats an earlier one and none before it does, it is the first repeat.
pub proof fn lemma_repeat_found(names: Seq<Seq<char>>, j: int, n: int)
    requires
        0 <= j < n <= names.len(),
        first_repeat(names, j) is None,
        names.take(j).contains(names[j]),
    ensures
        first_repeat(names, n) == Some(names[j]),
    decreases n,
{
    if j < n - 1 {
        lemma_repeat_found(names, j, n - 1);
    }
}

/// The functions that a list of names and arities puts in scope.
pub open spec fn arity_map(s: Seq<(String, usize)>, n: int) -> Map<Seq<char>, nat>
    decreases n,
{
    if n <= 0 || n > s.len() {
        Map::empty()
    } else {
        arity_map(s, n - 1).insert(s[n - 1].0@, s[n - 1].1 as nat)
    }
}

proof fn lemma_arity_map_prefix(s: Seq<(String, usize)>, t: Seq<(String, usize)>, n: int)
    requires
        0 <= n <= s.len(),
        n <= t.len(),
        forall|i: int| 0 <= i < n ==> s[i] == t[i],
    ensures
        arity_map(s, n) == arity_map(t, n),
    decreases n,
{
    if n > 0 {
        lemma_arity_map_prefix(s, t, n - 1);
    }
}

fn find_arity(funs: &Vec<(String, usize)>, f: &String) -> (r: Option<usize>)
    ensures
        match r {
            Some(n) => arity_map(funs@, funs.len() as int).contains_key(f@) && arity_map(
                funs@,
                funs.len() as int,
            )[f@] == n,
            None => !arity_map(funs@, funs.len() as int).contains_key(f@),
        },
{
    let ghost full = arity_map(funs@, funs.len() as int);
    let mut k: usize = funs.len();
    while k > 0
        invariant
            k <= funs.len(),
            full == arity_map(funs@, funs.len() as int),
            full.contains_key(f@) == arity_map(funs@, k as int).contains_key(f@),
            full.contains_key(f@) ==> full[f@] == arity_map(funs@, k as int)[f@],
        decreases k,
    {
        k -= 1;
        if funs[k].0 == *f {
            return Some(funs[k].1);
        }
    }
    None
}

fn clone_funs(funs: &Vec<(String, usize)>) -> (r: Vec<(String, usize)>)
    ensures
        r@ == funs@,
{
    let mut r: Vec<(String, usize)> = Vec::new();
    let mut i: usize = 0;
    while i < funs.len()
        invariant
            i <= funs.len(),
            r@ == funs@.take(i as int),
        decreases funs.len() - i,
    {
        r.push((funs[i].0.clone(), funs[i].1));
        assert(r@ =~= funs@.take(i + 1));
        i += 1;
    }
    assert(r@ =~= funs@);
    r
}

fn contains_name_before(v: &Vec<String>, n: usize, x: &String) -> (b: bool)
    requires
        n <= v.len(),
    ensures
        b == names_of(v@).take(n as int).contains(x@),
{
    let ghost head = names_of(v@).take(n as int);
    let mut i: usize = 0;
    while i < n
        invariant
            i <= n,
            n <= v.len(),
            head == names_of(v@).take(n as int),
            forall|j: int| 0 <= j < i ==> head[j] != x@,
        decreases n - i,
    {
        if v[i] == *x {
            assert(head[i as int] == x@);
            return true;
        }
        i += 1;
    }
    false
}

fn repeated(names: &Vec<String>) -> (r: Option<usize>)
    ensures
        match r {
            Some(j) => j < names.len() && first_repeat(names_of(names@), names.len() as int)
                == Some(names[j as int]@),
            None => first_repeat(names_of(names@), names.len() as int) is None,
        },
{
    let ghost nv = names_of(names@);
    let mut j: usize = 0;
    while j < names.len()
        invariant
            j <= names.len(),
            nv == names_of(names@),
            first_repeat(nv, j as int) is None,
        decreases names.len() - j,
    {
        if contains_name_before(names, j, &names[j]) {
            proof {
                lemma_repeat_found(nv, j as int, names.len() as int);
            }
            return Some(j);
        }
        j += 1;
    }
    None
}

fn check_exp<Span: Clone>(e: &Exp<Span>, vars: &Vec<String>, funs: &Vec<(String, usize)>) -> (r:
    Result<(), CompileErr<Span>>)
    requires
        e@.is_surface(),
    ensures
        verdict(r, first_error(e@, name_set(vars@), arity_map(funs@, funs.len() as int))),
    decreases e,
{
    let ghost vs = name_set(vars@);
    let ghost fm = arity_map(funs@, funs.len() as int);
    match e {
        Exp::Num(n, span) => {
            if *n > MAX_SNAKE_INT || *n < MIN_SNAKE_INT {
                Err(CompileErr::Overflow { num: *n, location: span.clone() })
            } else {
                Ok(())
            }
        },
        Exp::Bool(..) => Ok(()),
        Exp::Var(x, span) => {
            if contains_name(vars, x) {
                Ok(())
            } else if find_arity(funs, x).is_some() {
                Err(CompileErr::FunctionUsedAsValue { function_name: x.clone(), location: span.clone() })
            } else {
                Err(CompileErr::UnboundVariable { unbound: x.clone(), location: span.clone() })
            }
        },
        Exp::Prim(_, es, _) => {
            assert(e@->Prim_1 == boxed_exps_view(es@));
            check_boxed(es, vars, funs)
        },
        Exp::Let { bindings, body, ann } => {
            assert(e@->Let_bindings == bindings_view(bindings@));
            match check_let(bindings, vars, funs, ann) {
                Err(err) => Err(err),
                Ok(cur) => check_exp(body, &cur, funs),
            }
        },
        Exp::If { cond, thn, els, .. } => {
            match check_exp(cond, vars, funs) {
                Err(err) => Err(err),
                Ok(_) => match check_exp(thn, vars, funs) {
                    Err(err) => Err(err),
                    Ok(_) => check_exp(els, vars, funs),
                },
            }
        },
        Exp::FunDefs { decls, body, .. } => {
            assert(e@->FunDefs_decls == decls_view(decls@));
            match check_headers(decls, funs) {
                Err(err) => Err(err),
                Ok(inner) => match check_bodies(decls, vars, &inner) {
                    Err(err) => Err(err),
                    Ok(_) => check_exp(body, vars, &inner),
                },
            }
        },
        Exp::Call(f, args, ann) => {
            assert(e@->Call_1 == exps_view(args@));
            if contains_name(vars, f) {
                return Err(
                    CompileErr::ValueUsedAsFunction { variable_name: f.clone(), location: ann.clone() },
                );
            }
            match find_arity(funs, f) {
                None => Err(CompileErr::UndefinedFunction { undefined: f.clone(), location: ann.clone() }),
                Some(n) => {
                    if args.len() != n {
                        Err(
                            CompileErr::FunctionCalledWrongArity {
                                function_name: f.clone(),
                                correct_arity: n,
                                arity_used: args.len(),
                                location: ann.clone(),
                            },
                        )
                    } else {
                        check_args(args, vars, funs)
                    }
                },
            }
        },
        Exp::InternalTailCall(..) => Ok(()),
        Exp::ExternalCall { .. } => Ok(()),
    }
}

fn check_boxed<Span: Clone>(
    es: &Vec<Box<Exp<Span>>>,
    vars: &Vec<String>,
    funs: &Vec<(String, usize)>,
) -> (r: Result<(), CompileErr<Span>>)
    requires
        forall|i: int|
            0 <= i < boxed_exps_view(es@).len() ==> (#[trigger] boxed_exps_view(
                es@,
            )[i]).is_surface(),
    ensures
        verdict(
            r,
            first_of(
                operand_errors(
                    boxed_exps_view(es@),
                    name_set(vars@),
                    arity_map(funs@, funs.len() as int),
                ),
            ),
        ),
    decreases es,
{
    let ghost ev = boxed_exps_view(es@);
    let ghost errs = operand_errors(ev, name_set(vars@), arity_map(funs@, funs.len() as int));
    let mut i: usize = 0;
    while i < es.len()
        invariant
            i <= es.len(),
            ev == boxed_exps_view(es@),
            errs == operand_errors(ev, name_set(vars@), arity_map(funs@, funs.len() as int)),
            forall|i: int| 0 <= i < ev.len() ==> (#[trigger] ev[i]).is_surface(),
            first_upto(errs, i as int) is None,
        decreases es.len() - i,
    {
        assert(ev[i as int] == es[i as int]@);
        match check_exp(&es[i], vars, funs) {
            Err(err) => {
                proof {
                    lemma_first_found(errs, i as int, es.len() as int);
                }
                return Err(err);
            },
            Ok(_) => {},
        }
        i += 1;
    }
    Ok(())
}

fn check_args<Span: Clone>(es: &Vec<Exp<Span>>, vars: &Vec<String>, funs: &Vec<(String, usize)>) -> (r:
    Result<(), CompileErr<Span>>)
    requires
        forall|i: int|
            0 <= i < exps_view(es@).len() ==> (#[trigger] exps_view(es@)[i]).is_surface(),
    ensures
        verdict(
            r,
            first_of(
                operand_errors(exps_view(es@), name_set(vars@), arity_map(funs@, funs.len() as int)),
            ),
        ),
    decreases es,
{
    let ghost ev = exps_view(es@);
    let ghost errs = operand_errors(ev, name_set(vars@), arity_map(funs@, funs.len() as int));
    let mut i: usize = 0;
    while i < es.len()
        invariant
            i <= es.len(),
            ev == exps_view(es@),
            errs == operand_errors(ev, name_set(vars@), arity_map(funs@, funs.len() as int)),
            forall|i: int| 0 <= i < ev.len() ==> (#[trigger] ev[i]).is_surface(),
            first_upto(errs, i as int) is None,
        decreases es.len() - i,
    {
        assert(ev[i as int] == es[i as int]@);
        match check_exp(&es[i], vars, funs) {
            Err(err) => {
                proof {
                    lemma_first_found(errs, i as int, es.len() as int);
                }
                return Err(err);
            },
            Ok(_) => {},
        }
        i += 1;
    }
    Ok(())
}

fn check_let<Span: Clone>(
    bs: &Vec<(String, Exp<Span>)>,
    vars: &Vec<String>,
    funs: &Vec<(String, usize)>,
    loc: &Span,
) -> (r: Result<Vec<String>, CompileErr<Span>>)
    requires
        forall|i: int|
            0 <= i < bindings_view(bs@).len() ==> (#[trigger] bindings_view(bs@)[i]).1.is_surface(),
    ensures
        verdict(
            r,
            first_of(
                binding_errors(
                    bindings_view(bs@),
                    name_set(vars@),
                    arity_map(funs@, funs.len() as int),
                    *loc,
                ),
            ),
        ),
        r is Ok ==> name_set(r->Ok_0@) == name_set(vars@).union(
            binding_names(bindings_view(bs@)).to_set(),
        ),
    decreases bs,
{
    let ghost bv = bindings_view(bs@);
    let ghost names = binding_names(bv);
    let ghost vs = name_set(vars@);
    let ghost errs = binding_errors(bv, vs, arity_map(funs@, funs.len() as int), *loc);
    let mut seen: Vec<String> = Vec::new();
    let mut cur: Vec<String> = clone_names(vars);
    assert(names_of(seen@) =~= names.take(0));
    assert(names.take(0).to_set() =~= Set::<Seq<char>>::empty());
    assert(name_set(cur@) =~= vs.union(names.take(0).to_set()));
    let mut i: usize = 0;
    while i < bs.len()
        invariant
            i <= bs.len(),
            bv == bindings_view(bs@),
            names == binding_names(bv),
            vs == name_set(vars@),
            errs == binding_errors(bv, vs, arity_map(funs@, funs.len() as int), *loc),
            forall|i: int| 0 <= i < bv.len() ==> (#[trigger] bv[i]).1.is_surface(),
            first_upto(errs, i as int) is None,
            names_of(seen@) == names.take(i as int),
            name_set(cur@) == vs.union(names.take(i as int).to_set()),
        decreases bs.len() - i,
    {
        assert(bv[i as int].1 == bs[i as int].1@);
        assert(bv[i as int].0 == bs[i as int].0@);
        if contains_name(&seen, &bs[i].0) {
            proof {
                lemma_first_found(errs, i as int, bs.len() as int);
            }
            return Err(
                CompileErr::DuplicateBinding {
                    duplicated_name: bs[i].0.clone(),
                    location: loc.clone(),
                },
            );
        }
        match check_exp(&bs[i].1, &cur, funs) {
            Err(err) => {
                proof {
                    lemma_first_found(errs, i as int, bs.len() as int);
                }
                return Err(err);
            },
            Ok(_) => {},
        }
        proof {
            lemma_env_insert_set(names_of(cur@), bs[i as int].0@);
            assert(names.take(i + 1) =~= names.take(i as int).push(names[i as int]));
            names.take(i as int).lemma_push_to_set_commute(names[i as int]);
            assert(names_of(seen@).push(bs[i as int].0@) =~= names.take(i + 1));
        }
        seen.push(bs[i].0.clone());
        assert(names_of(seen@) =~= names.take(i + 1));
        insert_name(&mut cur, &bs[i].0);
        assert(name_set(cur@) =~= vs.union(names.take(i + 1).to_set()));
        i += 1;
    }
    assert(names.take(bs.len() as int) =~= names);
    Ok(cur)
}

fn check_headers<Span: Clone>(ds: &Vec<FunDecl<Exp<Span>, Span>>, funs: &Vec<(String, usize)>) -> (r:
    Result<Vec<(String, usize)>, CompileErr<Span>>)
    ensures
        verdict(r, first_of(header_errors(decls_view(ds@)))),
        r is Ok ==> arity_map(r->Ok_0@, r->Ok_0.len() as int) == with_group(
            arity_map(funs@, funs.len() as int),
            decls_view(ds@),
            ds.len() as int,
        ),
{
    let ghost dv = decls_view(ds@);
    let ghost names = group_names(dv);
    let ghost errs = header_errors(dv);
    let ghost base = arity_map(funs@, funs.len() as int);
    let mut seen: Vec<String> = Vec::new();
    let mut inner: Vec<(String, usize)> = clone_funs(funs);
    assert(names_of(seen@) =~= names.take(0));
    let mut i: usize = 0;
    while i < ds.len()
        invariant
            i <= ds.len(),
            dv == decls_view(ds@),
            names == group_names(dv),
            errs == header_errors(dv),
            base == arity_map(funs@, funs.len() as int),
            first_upto(errs, i as int) is None,
            names_of(seen@) == names.take(i as int),
            arity_map(inner@, inner.len() as int) == with_group(base, dv, i as int),
        decreases ds.len() - i,
    {
        let d = &ds[i];
        assert(dv[i as int].name == d.name@);
        assert(dv[i as int].parameters == names_of(d.parameters@));
        assert(dv[i as int].ann == d.ann);
        if contains_name(&seen, &d.name) {
            proof {
                lemma_first_found(errs, i as int, ds.len() as int);
            }
            return Err(
                CompileErr::DuplicateFunName {
                    duplicated_name: d.name.clone(),
                    location: d.ann.clone(),
                },
            );
        }
        match repeated(&d.parameters) {
            Some(j) => {
                proof {
                    lemma_first_found(errs, i as int, ds.len() as int);
                }
                return Err(
                    CompileErr::DuplicateArgName {
                        duplicated_name: d.parameters[j].clone(),
                        location: d.ann.clone(),
                    },
                );
            },
            None => {},
        }
        assert(names[i as int] == d.name@);
        assert(names.take(i + 1) =~= names.take(i as int).push(names[i as int]));
        seen.push(d.name.clone());
        assert(names_of(seen@) =~= names.take(i + 1));
        let ghost before = inner@;
        inner.push((d.name.clone(), d.parameters.len()));
        proof {
            lemma_arity_map_prefix(inner@, before, before.len() as int);
        }
        i += 1;
    }
    Ok(inner)
}

fn check_bodies<Span: Clone>(
    ds: &Vec<FunDecl<Exp<Span>, Span>>,
    vars: &Vec<String>,
    funs: &Vec<(String, usize)>,
) -> (r: Result<(), CompileErr<Span>>)
    requires
        forall|i: int|
            0 <= i < decls_view(ds@).len() ==> (#[trigger] decls_view(ds@)[i]).body.is_surface(),
    ensures
        verdict(
            r,
            first_of(
                body_errors(decls_view(ds@), name_set(vars@), arity_map(funs@, funs.len() as int)),
            ),
        ),
    decreases ds,
{
    let ghost dv = decls_view(ds@);
    let ghost vs = name_set(vars@);
    let ghost errs = body_errors(dv, vs, arity_map(funs@, funs.len() as int));
    let mut i: usize = 0;
    while i < ds.len()
        invariant
            i <= ds.len(),
            dv == decls_view(ds@),
            vs == name_set(vars@),
            errs == body_errors(dv, vs, arity_map(funs@, funs.len() as int)),
            forall|i: int| 0 <= i < dv.len() ==> (#[trigger] dv[i]).body.is_surface(),
            first_upto(errs, i as int) is None,
        decreases ds.len() - i,
    {
        let d = &ds[i];
        assert(dv[i as int].body == d.body@);
        assert(dv[i as int].parameters == names_of(d.parameters@));
        let mut inner: Vec<String> = clone_names(vars);
        insert_names(&mut inner, &d.parameters);
        proof {
            lemma_env_extend_set(names_of(vars@), names_of(d.parameters@), d.parameters.len() as int);
            assert(names_of(d.parameters@).take(d.parameters.len() as int) =~= names_of(
                d.parameters@,
            ));
        }
        match check_exp(&d.body, &inner, funs) {
            Err(err) => {
                proof {
                    lemma_first_found(errs, i as int, ds.len() as int);
                }
                return Err(err);
            },
            Ok(_) => {},
        }
        i += 1;
    }
    Ok(())
}

/// Checks that the program `p` is well formed, and reports the first error if it is
/// not.
pub fn check_prog<Span: Clone>(p: &Exp<Span>) -> (r: Result<(), CompileErr<Span>>)
    requires
        p@.is_surface(),
    ensures
        verdict(r, first_error_prog(p@)),
        r is Ok <==> well_formed_prog(p@),
{
    let vars: Vec<String> = Vec::new();
    let funs: Vec<(String, usize)> = Vec::new();
    assert(name_set(vars@) =~= Set::<Seq<char>>::empty());
    proof {
        lemma_no_error_iff_well_formed(p@, Set::empty(), Map::empty());
    }
    check_exp(p, &vars, &funs)
}

/// There is no first error exactly where no entry is an error.
pub proof fn lemma_first_none<E>(s: Seq<Option<E>>, n: int)
    requires
        0 <= n <= s.len(),
    ensures
        first_upto(s, n) is None <==> forall|i: int| 0 <= i < n ==> (#[trigger] s[i]) is None,
    decreases n,
{
    if n > 0 {
        lemma_first_none(s, n - 1);
        if first_upto(s, n) is None {
            assert forall|i: int| 0 <= i < n implies (#[trigger] s[i]) is None by {
                if i < n - 1 {
                }
            }
        }
    }
}

/// No name repeats an earlier one exactly where the names are distinct.
pub proof fn lemma_repeat_none(names: Seq<Seq<char>>, n: int)
    requires
        0 <= n <= names.len(),
    ensures
        first_repeat(names, n) is None <==> names.take(n).no_duplicates(),
    decreases n,
{
    if n > 0 {
        lemma_repeat_none(names, n - 1);
        let a = names.take(n - 1);
        let b = names.take(n);
        assert(b =~= a.push(names[n - 1]));
        if first_repeat(names, n) is None {
            assert(!a.contains(names[n - 1]));
            assert forall|i: int, j: int| 0 <= i < b.len() && 0 <= j < b.len() && i != j implies b[i]
                != b[j] by {
                if i < n - 1 && j < n - 1 {
                    assert(a[i] != a[j]);
                } else if i < n - 1 {
                    assert(a[i] == b[i]);
                } else {
                    assert(a[j] == b[j]);
                }
            }
        }
        if b.no_duplicates() {
            assert forall|i: int, j: int| 0 <= i < a.len() && 0 <= j < a.len() && i != j implies a[i]
                != a[j] by {
                assert(b[i] == a[i] && b[j] == a[j]);
            }
            if a.contains(names[n - 1]) {
                let k = choose|k: int| 0 <= k < a.len() && a[k] == names[n - 1];
                assert(b[k] == b[n - 1]);
            }
        }
    } else {
        assert(names.take(0) =~= Seq::<Seq<char>>::empty());
    }
}

/// The names of a list are distinct exactly where none occurs among those before it.
pub proof fn lemma_distinct_by_prefix(names: Seq<Seq<char>>)
    ensures
        names.no_duplicates() <==> forall|i: int|
            0 <= i < names.len() ==> !names.take(i).contains(#[trigger] names[i]),
{
    if names.no_duplicates() {
        assert forall|i: int| 0 <= i < names.len() implies !names.take(i).contains(
            #[trigger] names[i],
        ) by {
            if names.take(i).contains(names[i]) {
                let k = choose|k: int| 0 <= k < names.take(i).len() && names.take(i)[k] == names[i];
                assert(names[k] == names[i]);
            }
        }
    }
    if forall|i: int| 0 <= i < names.len() ==> !names.take(i).contains(#[trigger] names[i]) {
        assert forall|i: int, j: int|
            0 <= i < names.len() && 0 <= j < names.len() && i != j implies names[i] != names[j] by {
            if names[i] == names[j] {
                if i < j {
                    assert(names.take(j)[i] == names[j]);
                    assert(names.take(j).contains(names[j]));
                } else {
                    assert(names.take(i)[j] == names[i]);
                    assert(names.take(i).contains(names[i]));
                }
            }
        }
    }
}

/// The check finds no error in a surface expression exactly where the expression is
/// well formed.
pub proof fn lemma_no_error_iff_well_formed<S>(
    e: ExpV<S>,
    vars: Set<Seq<char>>,
    funs: Map<Seq<char>, nat>,
)
    requires
        e.is_surface(),
    ensures
        first_error(e, vars, funs) is None <==> well_formed(e, vars, funs),
    decreases e,
{
    match e {
        ExpV::Num(..) | ExpV::Bool(..) | ExpV::Var(..) => {},
        ExpV::Prim(_, es, _) => {
            let errs = operand_errors(es, vars, funs);
            lemma_first_none(errs, es.len() as int);
            assert forall|i: int| 0 <= i < es.len() implies ((#[trigger] errs[i]) is None
                <==> well_formed(es[i], vars, funs)) by {
                lemma_no_error_iff_well_formed(es[i], vars, funs);
            }
            if well_formed(e, vars, funs) {
                assert forall|i: int| 0 <= i < es.len() implies (#[trigger] errs[i]) is None by {
                    assert(well_formed(es[i], vars, funs));
                }
            }
            if first_error(e, vars, funs) is None {
                assert forall|i: int| 0 <= i < es.len() implies well_formed(
                    #[trigger] es[i],
                    vars,
                    funs,
                ) by {
                    assert(errs[i] is None);
                }
            }
        },
        ExpV::Let { bindings, body, ann } => {
            let names = binding_names(bindings);
            let errs = binding_errors(bindings, vars, funs, ann);
            lemma_first_none(errs, bindings.len() as int);
            lemma_distinct_by_prefix(names);
            lemma_no_error_iff_well_formed(*body, vars.union(names.to_set()), funs);
            assert forall|i: int| 0 <= i < bindings.len() implies ((#[trigger] errs[i]) is None
                <==> (!names.take(i).contains(names[i]) && well_formed(
                bindings[i].1,
                vars.union(names.take(i).to_set()),
                funs,
            ))) by {
                lemma_no_error_iff_well_formed(
                    bindings[i].1,
                    vars.union(names.take(i).to_set()),
                    funs,
                );
            }
            if well_formed(e, vars, funs) {
                assert forall|i: int| 0 <= i < bindings.len() implies (#[trigger] errs[i]) is None by {
                    assert(well_formed(bindings[i].1, vars.union(names.take(i).to_set()), funs));
                    assert(!names.take(i).contains(names[i]));
                }
            }
            if first_error(e, vars, funs) is None {
                assert forall|i: int| 0 <= i < names.len() implies !names.take(i).contains(
                    #[trigger] names[i],
                ) by {
                    assert(errs[i] is None);
                }
                assert forall|i: int| 0 <= i < bindings.len() implies well_formed(
                    (#[trigger] bindings[i]).1,
                    vars.union(names.take(i).to_set()),
                    funs,
                ) by {
                    assert(errs[i] is None);
                }
            }
        },
        ExpV::If { cond, thn, els, .. } => {
            lemma_no_error_iff_well_formed(*cond, vars, funs);
            lemma_no_error_iff_well_formed(*thn, vars, funs);
            lemma_no_error_iff_well_formed(*els, vars, funs);
        },
        ExpV::FunDefs { decls, body, .. } => {
            let names = group_names(decls);
            let inner = with_group(funs, decls, decls.len() as int);
            let heads = header_errors(decls);
            let bodies = body_errors(decls, vars, inner);
            lemma_first_none(heads, decls.len() as int);
            lemma_first_none(bodies, decls.len() as int);
            lemma_distinct_by_prefix(names);
            lemma_no_error_iff_well_formed(*body, vars, inner);
            assert forall|i: int| 0 <= i < decls.len() implies ((#[trigger] heads[i]) is None
                <==> (!names.take(i).contains(names[i]) && decls[i].parameters.no_duplicates())) by {
                let ps = decls[i].parameters;
                lemma_repeat_none(ps, ps.len() as int);
                assert(ps.take(ps.len() as int) =~= ps);
            }
            assert forall|i: int| 0 <= i < decls.len() implies ((#[trigger] bodies[i]) is None
                <==> well_formed(decls[i].body, vars.union(decls[i].parameters.to_set()), inner)) by {
                lemma_no_error_iff_well_formed(
                    decls[i].body,
                    vars.union(decls[i].parameters.to_set()),
                    inner,
                );
            }
            if well_formed(e, vars, funs) {
                assert forall|i: int| 0 <= i < decls.len() implies (#[trigger] heads[i]) is None by {
                    assert(decls[i].parameters.no_duplicates());
                    assert(!names.take(i).contains(names[i]));
                }
                assert forall|i: int| 0 <= i < decls.len() implies (#[trigger] bodies[i]) is None by {
                    assert(well_formed(
                        decls[i].body,
                        vars.union(decls[i].parameters.to_set()),
                        inner,
                    ));
                }
            }
            if first_error(e, vars, funs) is None {
                assert forall|i: int| 0 <= i < names.len() implies !names.take(i).contains(
                    #[trigger] names[i],
                ) by {
                    assert(heads[i] is None);
                }
                assert forall|i: int| 0 <= i < decls.len() implies (
                #[trigger] decls[i]).parameters.no_duplicates() by {
                    assert(heads[i] is None);
                }
                assert forall|i: int| 0 <= i < decls.len() implies well_formed(
                    (#[trigger] decls[i]).body,
                    vars.union(decls[i].parameters.to_set()),
                    inner,
                ) by {
                    assert(bodies[i] is None);
                }
            }
        },
        ExpV::Call(f, args, _) => {
            let errs = operand_errors(args, vars, funs);
            lemma_first_none(errs, args.len() as int);
            assert forall|i: int| 0 <= i < args.len() implies ((#[trigger] errs[i]) is None
                <==> well_formed(args[i], vars, funs)) by {
                lemma_no_error_iff_well_formed(args[i], vars, funs);
            }
            if well_formed(e, vars, funs) {
                assert forall|i: int| 0 <= i < args.len() implies (#[trigger] errs[i]) is None by {
                    assert(well_formed(args[i], vars, funs));
                }
            }
            if first_error(e, vars, funs) is None {
                assert forall|i: int| 0 <= i < args.len() implies well_formed(
                    #[trigger] args[i],
                    vars,
                    funs,
                ) by {
                    assert(errs[i] is None);
                }
            }
        },
        ExpV::InternalTailCall(..) | ExpV::ExternalCall { .. } => {},
    }
}

/// The free variables of each expression of a list.
pub open spec fn operand_free<S>(es: Seq<ExpV<S>>) -> Seq<Set<Seq<char>>>
    decreases es,
{
    Seq::new(
        es.len(),
        |i: int|
            if 0 <= i < es.len() {
                free_vars(es[i])
            } else {
                Set::empty()
            },
    )
}

/// For each binding of a `Let`, the free variables of the bound expression that the
/// bindings before it do not bind.
pub open spec fn binding_free<S>(bs: Seq<(Seq<char>, ExpV<S>)>) -> Seq<Set<Seq<char>>>
    decreases bs,
{
    Seq::new(
        bs.len(),
        |i: int|
            if 0 <= i < bs.len() {
                free_vars(bs[i].1).difference(binding_names(bs).take(i).to_set())
            } else {
                Set::empty()
            },
    )
}

/// For each declaration, the free variables of the body that are no parameters.
pub open spec fn decl_free<S>(ds: Seq<FunDeclV<ExpV<S>, S>>) -> Seq<Set<Seq<char>>>
    decreases ds,
{
    Seq::new(
        ds.len(),
        |i: int|
            if 0 <= i < ds.len() {
                free_vars(ds[i].body).difference(ds[i].parameters.to_set())
            } else {
                Set::empty()
            },
    )
}

/// The free variables of `e`: the variables that `e` reads at a place where neither a
/// `Let` nor a parameter list inside `e` binds them.
pub open spec fn free_vars<S>(e: ExpV<S>) -> Set<Seq<char>>
    decreases e,
{
    match e {
        ExpV::Num(..) | ExpV::Bool(..) => Set::empty(),
        ExpV::Var(x, _) => Set::empty().insert(x),
        ExpV::Prim(_, es, _) => union_all(operand_free(es)),
        ExpV::Let { bindings, body, .. } => union_all(binding_free(bindings)).union(
            free_vars(*body).difference(binding_names(bindings).to_set()),
        ),
        ExpV::If { cond, thn, els, .. } => free_vars(*cond).union(free_vars(*thn)).union(
            free_vars(*els),
        ),
        ExpV::FunDefs { decls, body, .. } => union_all(decl_free(decls)).union(free_vars(*body)),
        ExpV::Call(_, args, _) => union_all(operand_free(args)),
        ExpV::InternalTailCall(_, args, _) => union_all(operand_free(args)),
        ExpV::ExternalCall { args, .. } => union_all(operand_free(args)),
    }
}

/// Every free variable of a well-formed expression is in scope.
pub proof fn lemma_well_formed_closed<S>(
    e: ExpV<S>,
    vars: Set<Seq<char>>,
    funs: Map<Seq<char>, nat>,
)
    requires
        well_formed(e, vars, funs),
    ensures
        free_vars(e).subset_of(vars),
    decreases e,
{
    match e {
        ExpV::Num(..) | ExpV::Bool(..) | ExpV::Var(..) => {},
        ExpV::Prim(_, es, _) => {
            let sets = operand_free(es);
            assert forall|x: Seq<char>| union_all(sets).contains(x) implies vars.contains(x) by {
                let j = choose|j: int|
                    0 <= j < sets.len() && j < sets.len() && #[trigger] sets[j].contains(x);
                assert(well_formed(es[j], vars, funs));
                lemma_well_formed_closed(es[j], vars, funs);
            }
        },
        ExpV::Let { bindings, body, .. } => {
            let sets = binding_free(bindings);
            let names = binding_names(bindings);
            assert forall|x: Seq<char>| union_all(sets).contains(x) implies vars.contains(x) by {
                let j = choose|j: int|
                    0 <= j < sets.len() && j < sets.len() && #[trigger] sets[j].contains(x);
                assert(well_formed(bindings[j].1, vars.union(names.take(j).to_set()), funs));
                lemma_well_formed_closed(bindings[j].1, vars.union(names.take(j).to_set()), funs);
            }
            lemma_well_formed_closed(*body, vars.union(names.to_set()), funs);
        },
        ExpV::If { cond, thn, els, .. } => {
            lemma_well_formed_closed(*cond, vars, funs);
            lemma_well_formed_closed(*thn, vars, funs);
            lemma_well_formed_closed(*els, vars, funs);
        },
        ExpV::FunDefs { decls, body, .. } => {
            let sets = decl_free(decls);
            let inner = with_group(funs, decls, decls.len() as int);
            assert forall|x: Seq<char>| union_all(sets).contains(x) implies vars.contains(x) by {
                let j = choose|j: int|
                    0 <= j < sets.len() && j < sets.len() && #[trigger] sets[j].contains(x);
                assert(well_formed(decls[j].body, vars.union(decls[j].parameters.to_set()), inner));
                lemma_well_formed_closed(
                    decls[j].body,
                    vars.union(decls[j].parameters.to_set()),
                    inner,
                );
            }
            lemma_well_formed_closed(*body, vars, inner);
        },
        ExpV::Call(_, args, _) => {
            let sets = operand_free(args);
            assert forall|x: Seq<char>| union_all(sets).contains(x) implies vars.contains(x) by {
                let j = choose|j: int|
                    0 <= j < sets.len() && j < sets.len() && #[trigger] sets[j].contains(x);
                assert(well_formed(args[j], vars, funs));
                lemma_well_formed_closed(args[j], vars, funs);
            }
        },
        ExpV::InternalTailCall(..) | ExpV::ExternalCall { .. } => {},
    }
}

/// The check rejects every surface program that reads a variable which nothing in
/// the program binds.
pub proof fn lemma_unbound_variable_rejected<S>(p: ExpV<S>, x: Seq<char>)
    requires
        p.is_surface(),
        free_vars(p).contains(x),
    ensures
        first_error_prog(p) is Some,
        !well_formed_prog(p),
{
    lemma_no_error_iff_well_formed(p, Set::empty(), Map::empty());
    if well_formed_prog(p) {
        lemma_well_formed_closed(p, Set::empty(), Map::empty());
        assert(Set::<Seq<char>>::empty().contains(x));
    }
}

} // verus!
