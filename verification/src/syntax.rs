//! The trees that the passes work on: the surface language, its sequential
//! form, and the mathematical view of each.

use vstd::prelude::*;
use crate::names::names_of;

verus! {

/// The primitive operations of the language.
#[derive(Clone, Copy, Debug, PartialEq, Eq, Structural)]
pub enum Prim {
    Add1,
    Sub1,
    Not,
    Print,
    IsNum,
    IsBool,
    Add,
    Sub,
    Mul,
    And,
    Or,
    Lt,
    Gt,
    Le,
    Ge,
    Eq,
    Neq,
}

impl Prim {
    /// Whether the operation takes one operand; the others take two.
    pub open spec fn unary(self) -> bool {
        self == Prim::Add1 || self == Prim::Sub1 || self == Prim::Not || self == Prim::Print
            || self == Prim::IsNum || self == Prim::IsBool
    }

    /// The number of operands that the operation takes.
    pub open spec fn arity(self) -> nat {
        if self.unary() {
            1
        } else {
            2
        }
    }

    /// Whether the operation takes one operand.
    pub fn is_unary(&self) -> (b: bool)
        ensures
            b == self.unary(),
    {
        match self {
            Prim::Add1 | Prim::Sub1 | Prim::Not | Prim::Print | Prim::IsNum | Prim::IsBool => true,
            _ => false,
        }
    }
}

/// A function declaration whose body is an `E`.
#[derive(Debug, PartialEq, Eq)]
pub struct FunDecl<E, Ann> {
    pub name: String,
    pub parameters: Vec<String>,
    pub body: E,
    pub ann: Ann,
}

/// An expression of the surface language, each node annotated with an `Ann`.
#[derive(Debug, PartialEq, Eq)]
pub enum Exp<Ann> {
    Num(i64, Ann),
    Bool(bool, Ann),
    Var(String, Ann),
    Prim(Prim, Vec<Box<Exp<Ann>>>, Ann),
    Let { bindings: Vec<(String, Exp<Ann>)>, body: Box<Exp<Ann>>, ann: Ann },
    If { cond: Box<Exp<Ann>>, thn: Box<Exp<Ann>>, els: Box<Exp<Ann>>, ann: Ann },
    FunDefs { decls: Vec<FunDecl<Exp<Ann>, Ann>>, body: Box<Exp<Ann>>, ann: Ann },
    Call(String, Vec<Exp<Ann>>, Ann),
    InternalTailCall(String, Vec<Exp<Ann>>, Ann),
    ExternalCall { fun_name: String, args: Vec<Exp<Ann>>, is_tail: bool, ann: Ann },
}

/// A whole surface program is one expression.
pub type SurfProg<Ann> = Exp<Ann>;

/// An operand that needs no computation.
#[derive(Clone, Debug, PartialEq, Eq)]
pub enum ImmExp {
    Num(i64),
    Bool(bool),
    Var(String),
}

/// An expression in sequential form: every operand is immediate.
#[derive(Debug, PartialEq, Eq)]
pub enum SeqExp<Ann> {
    Imm(ImmExp, Ann),
    Prim(Prim, Vec<ImmExp>, Ann),
    Let { var: String, bound_exp: Box<SeqExp<Ann>>, body: Box<SeqExp<Ann>>, ann: Ann },
    If { cond: ImmExp, thn: Box<SeqExp<Ann>>, els: Box<SeqExp<Ann>>, ann: Ann },
    FunDefs { decls: Vec<FunDecl<SeqExp<Ann>, Ann>>, body: Box<SeqExp<Ann>>, ann: Ann },
    InternalTailCall(String, Vec<ImmExp>, Ann),
    ExternalCall { fun_name: String, args: Vec<ImmExp>, is_tail: bool, ann: Ann },
}

/// A program in sequential form: the top-level functions and the main expression.
#[derive(Debug, PartialEq, Eq)]
pub struct SeqProg<Ann> {
    pub funs: Vec<FunDecl<SeqExp<Ann>, Ann>>,
    pub main: SeqExp<Ann>,
    pub ann: Ann,
}

/// The view of a function declaration: names are sequences of characters.
pub struct FunDeclV<E, Ann> {
    pub name: Seq<char>,
    pub parameters: Seq<Seq<char>>,
    pub body: E,
    pub ann: Ann,
}

/// The view of a surface expression.
pub enum ExpV<Ann> {
    Num(i64, Ann),
    Bool(bool, Ann),
    Var(Seq<char>, Ann),
    Prim(Prim, Seq<ExpV<Ann>>, Ann),
    Let { bindings: Seq<(Seq<char>, ExpV<Ann>)>, body: Box<ExpV<Ann>>, ann: Ann },
    If { cond: Box<ExpV<Ann>>, thn: Box<ExpV<Ann>>, els: Box<ExpV<Ann>>, ann: Ann },
    FunDefs { decls: Seq<FunDeclV<ExpV<Ann>, Ann>>, body: Box<ExpV<Ann>>, ann: Ann },
    Call(Seq<char>, Seq<ExpV<Ann>>, Ann),
    InternalTailCall(Seq<char>, Seq<ExpV<Ann>>, Ann),
    ExternalCall { fun_name: Seq<char>, args: Seq<ExpV<Ann>>, is_tail: bool, ann: Ann },
}

impl<Ann> ExpV<Ann> {
    /// Whether the expression is written in the surface language alone: it holds no
    /// call that is already classified as internal or external.
    pub open spec fn is_surface(self) -> bool
        decreases self,
    {
        match self {
            ExpV::Num(..) | ExpV::Bool(..) | ExpV::Var(..) => true,
            ExpV::Prim(_, es, _) => forall|i: int| 0 <= i < es.len() ==> (#[trigger] es[i]).is_surface(),
            ExpV::Let { bindings, body, .. } => {
                &&& forall|i: int| 0 <= i < bindings.len() ==> (#[trigger] bindings[i]).1.is_surface()
                &&& body.is_surface()
            },
            ExpV::If { cond, thn, els, .. } => cond.is_surface() && thn.is_surface()
                && els.is_surface(),
            ExpV::FunDefs { decls, body, .. } => {
                &&& forall|i: int| 0 <= i < decls.len() ==> (#[trigger] decls[i]).body.is_surface()
                &&& body.is_surface()
            },
            ExpV::Call(_, args, _) => forall|i: int|
                0 <= i < args.len() ==> (#[trigger] args[i]).is_surface(),
            ExpV::InternalTailCall(..) | ExpV::ExternalCall { .. } => false,
        }
    }

    /// Whether every call in the expression is classified as internal or external.
    pub open spec fn calls_classified(self) -> bool
        decreases self,
    {
        match self {
            ExpV::Num(..) | ExpV::Bool(..) | ExpV::Var(..) => true,
            ExpV::Prim(_, es, _) => forall|i: int|
                0 <= i < es.len() ==> (#[trigger] es[i]).calls_classified(),
            ExpV::Let { bindings, body, .. } => {
                &&& forall|i: int|
                    0 <= i < bindings.len() ==> (#[trigger] bindings[i]).1.calls_classified()
                &&& body.calls_classified()
            },
            ExpV::If { cond, thn, els, .. } => cond.calls_classified() && thn.calls_classified()
                && els.calls_classified(),
            ExpV::FunDefs { decls, body, .. } => {
                &&& forall|i: int|
                    0 <= i < decls.len() ==> (#[trigger] decls[i]).body.calls_classified()
                &&& body.calls_classified()
            },
            ExpV::Call(..) => false,
            ExpV::InternalTailCall(_, args, _) => forall|i: int|
                0 <= i < args.len() ==> (#[trigger] args[i]).calls_classified(),
            ExpV::ExternalCall { args, .. } => forall|i: int|
                0 <= i < args.len() ==> (#[trigger] args[i]).calls_classified(),
        }
    }

    /// Whether every primitive operation has as many operands as it takes.
    pub open spec fn prims_saturated(self) -> bool
        decreases self,
    {
        match self {
            ExpV::Num(..) | ExpV::Bool(..) | ExpV::Var(..) => true,
            ExpV::Prim(p, es, _) => {
                &&& es.len() == p.arity()
                &&& forall|i: int| 0 <= i < es.len() ==> (#[trigger] es[i]).prims_saturated()
            },
            ExpV::Let { bindings, body, .. } => {
                &&& forall|i: int|
                    0 <= i < bindings.len() ==> (#[trigger] bindings[i]).1.prims_saturated()
                &&& body.prims_saturated()
            },
            ExpV::If { cond, thn, els, .. } => cond.prims_saturated() && thn.prims_saturated()
                && els.prims_saturated(),
            ExpV::FunDefs { decls, body, .. } => {
                &&& forall|i: int|
                    0 <= i < decls.len() ==> (#[trigger] decls[i]).body.prims_saturated()
                &&& body.prims_saturated()
            },
            ExpV::Call(_, args, _) => forall|i: int|
                0 <= i < args.len() ==> (#[trigger] args[i]).prims_saturated(),
            ExpV::InternalTailCall(_, args, _) => forall|i: int|
                0 <= i < args.len() ==> (#[trigger] args[i]).prims_saturated(),
            ExpV::ExternalCall { args, .. } => forall|i: int|
                0 <= i < args.len() ==> (#[trigger] args[i]).prims_saturated(),
        }
    }
}

/// The view of an immediate operand.
pub enum ImmExpV {
    Num(i64),
    Bool(bool),
    Var(Seq<char>),
}

/// The view of a sequential expression.
pub enum SeqExpV<Ann> {
    Imm(ImmExpV, Ann),
    Prim(Prim, Seq<ImmExpV>, Ann),
    Let { var: Seq<char>, bound_exp: Box<SeqExpV<Ann>>, body: Box<SeqExpV<Ann>>, ann: Ann },
    If { cond: ImmExpV, thn: Box<SeqExpV<Ann>>, els: Box<SeqExpV<Ann>>, ann: Ann },
    FunDefs { decls: Seq<FunDeclV<SeqExpV<Ann>, Ann>>, body: Box<SeqExpV<Ann>>, ann: Ann },
    InternalTailCall(Seq<char>, Seq<ImmExpV>, Ann),
    ExternalCall { fun_name: Seq<char>, args: Seq<ImmExpV>, is_tail: bool, ann: Ann },
}

/// The view of a sequential program.
pub struct SeqProgV<Ann> {
    pub funs: Seq<FunDeclV<SeqExpV<Ann>, Ann>>,
    pub main: SeqExpV<Ann>,
    pub ann: Ann,
}

/// The view of the expression `e`.
pub open spec fn exp_view<Ann>(e: &Exp<Ann>) -> ExpV<Ann>
    decreases e,
{
    match e {
        Exp::Num(n, a) => ExpV::Num(*n, *a),
        Exp::Bool(b, a) => ExpV::Bool(*b, *a),
        Exp::Var(x, a) => ExpV::Var(x@, *a),
        Exp::Prim(p, es, a) => ExpV::Prim(*p, boxed_exps_view(es@), *a),
        Exp::Let { bindings, body, ann } => ExpV::Let {
            bindings: bindings_view(bindings@),
            body: Box::new(exp_view(body)),
            ann: *ann,
        },
        Exp::If { cond, thn, els, ann } => ExpV::If {
            cond: Box::new(exp_view(cond)),
            thn: Box::new(exp_view(thn)),
            els: Box::new(exp_view(els)),
            ann: *ann,
        },
        Exp::FunDefs { decls, body, ann } => ExpV::FunDefs {
            decls: decls_view(decls@),
            body: Box::new(exp_view(body)),
            ann: *ann,
        },
        Exp::Call(f, args, a) => ExpV::Call(f@, exps_view(args@), *a),
        Exp::InternalTailCall(f, args, a) => ExpV::InternalTailCall(f@, exps_view(args@), *a),
        Exp::ExternalCall { fun_name, args, is_tail, ann } => ExpV::ExternalCall {
            fun_name: fun_name@,
            args: exps_view(args@),
            is_tail: *is_tail,
            ann: *ann,
        },
    }
}

/// The views of a list of expressions.
pub open spec fn exps_view<Ann>(es: Seq<Exp<Ann>>) -> Seq<ExpV<Ann>>
    decreases es,
{
    Seq::new(
        es.len(),
        |i: int|
            if 0 <= i < es.len() {
                exp_view(&es[i])
            } else {
                arbitrary()
            },
    )
}

/// The views of a list of boxed expressions.
pub open spec fn boxed_exps_view<Ann>(es: Seq<Box<Exp<Ann>>>) -> Seq<ExpV<Ann>>
    decreases es,
{
    Seq::new(
        es.len(),
        |i: int|
            if 0 <= i < es.len() {
                exp_view(&*es[i])
            } else {
                arbitrary()
            },
    )
}

/// The views of the bindings of a `Let`.
pub open spec fn bindings_view<Ann>(bs: Seq<(String, Exp<Ann>)>) -> Seq<(Seq<char>, ExpV<Ann>)>
    decreases bs,
{
    Seq::new(
        bs.len(),
        |i: int|
            if 0 <= i < bs.len() {
                (bs[i].0@, exp_view(&bs[i].1))
            } else {
                arbitrary()
            },
    )
}

/// The view of a declaration whose body is a surface expression.
pub open spec fn decl_view<Ann>(d: &FunDecl<Exp<Ann>, Ann>) -> FunDeclV<ExpV<Ann>, Ann> {
    FunDeclV { name: d.name@, parameters: names_of(d.parameters@), body: exp_view(&d.body), ann: d.ann }
}

/// The views of a list of declarations.
pub open spec fn decls_view<Ann>(ds: Seq<FunDecl<Exp<Ann>, Ann>>) -> Seq<FunDeclV<ExpV<Ann>, Ann>>
    decreases ds,
{
    Seq::new(
        ds.len(),
        |i: int|
            if 0 <= i < ds.len() {
                FunDeclV {
                    name: ds[i].name@,
                    parameters: names_of(ds[i].parameters@),
                    body: exp_view(&ds[i].body),
                    ann: ds[i].ann,
                }
            } else {
                arbitrary()
            },
    )
}

impl<Ann> View for Exp<Ann> {
    type V = ExpV<Ann>;

    open spec fn view(&self) -> ExpV<Ann> {
        exp_view(self)
    }
}

impl<Ann> View for FunDecl<Exp<Ann>, Ann> {
    type V = FunDeclV<ExpV<Ann>, Ann>;

    open spec fn view(&self) -> FunDeclV<ExpV<Ann>, Ann> {
        decl_view(self)
    }
}

impl View for ImmExp {
    type V = ImmExpV;

    open spec fn view(&self) -> ImmExpV {
        match self {
            ImmExp::Num(n) => ImmExpV::Num(*n),
            ImmExp::Bool(b) => ImmExpV::Bool(*b),
            ImmExp::Var(x) => ImmExpV::Var(x@),
        }
    }
}

/// The views of a list of immediate operands.
pub open spec fn imms_view(is: Seq<ImmExp>) -> Seq<ImmExpV> {
    is.map_values(|i: ImmExp| i@)
}

/// The view of the sequential expression `e`.
pub open spec fn seq_exp_view<Ann>(e: &SeqExp<Ann>) -> SeqExpV<Ann>
    decreases e,
{
    match e {
        SeqExp::Imm(i, a) => SeqExpV::Imm(i@, *a),
        SeqExp::Prim(p, is, a) => SeqExpV::Prim(*p, imms_view(is@), *a),
        SeqExp::Let { var, bound_exp, body, ann } => SeqExpV::Let {
            var: var@,
            bound_exp: Box::new(seq_exp_view(bound_exp)),
            body: Box::new(seq_exp_view(body)),
            ann: *ann,
        },
        SeqExp::If { cond, thn, els, ann } => SeqExpV::If {
            cond: cond@,
            thn: Box::new(seq_exp_view(thn)),
            els: Box::new(seq_exp_view(els)),
            ann: *ann,
        },
        SeqExp::FunDefs { decls, body, ann } => SeqExpV::FunDefs {
            decls: seq_decls_view(decls@),
            body: Box::new(seq_exp_view(body)),
            ann: *ann,
        },
        SeqExp::InternalTailCall(f, args, a) => SeqExpV::InternalTailCall(f@, imms_view(args@), *a),
        SeqExp::ExternalCall { fun_name, args, is_tail, ann } => SeqExpV::ExternalCall {
            fun_name: fun_name@,
            args: imms_view(args@),
            is_tail: *is_tail,
            ann: *ann,
        },
    }
}

/// The view of a declaration whose body is a sequential expression.
pub open spec fn seq_decl_view<Ann>(d: &FunDecl<SeqExp<Ann>, Ann>) -> FunDeclV<SeqExpV<Ann>, Ann> {
    FunDeclV {
        name: d.name@,
        parameters: names_of(d.parameters@),
        body: seq_exp_view(&d.body),
        ann: d.ann,
    }
}

/// The views of a list of sequential declarations.
pub open spec fn seq_decls_view<Ann>(ds: Seq<FunDecl<SeqExp<Ann>, Ann>>) -> Seq<
    FunDeclV<SeqExpV<Ann>, Ann>,
>
    decreases ds,
{
    Seq::new(
        ds.len(),
        |i: int|
            if 0 <= i < ds.len() {
                FunDeclV {
                    name: ds[i].name@,
                    parameters: names_of(ds[i].parameters@),
                    body: seq_exp_view(&ds[i].body),
                    ann: ds[i].ann,
                }
            } else {
                arbitrary()
            },
    )
}

impl<Ann> View for SeqExp<Ann> {
    type V = SeqExpV<Ann>;

    open spec fn view(&self) -> SeqExpV<Ann> {
        seq_exp_view(self)
    }
}

impl<Ann> View for FunDecl<SeqExp<Ann>, Ann> {
    type V = FunDeclV<SeqExpV<Ann>, Ann>;

    open spec fn view(&self) -> FunDeclV<SeqExpV<Ann>, Ann> {
        seq_decl_view(self)
    }
}

impl<Ann> View for SeqProg<Ann> {
    type V = SeqProgV<Ann>;

    open spec fn view(&self) -> SeqProgV<Ann> {
        SeqProgV { funs: seq_decls_view(self.funs@), main: self.main@, ann: self.ann }
    }
}

/// The view of a list with one more expression at its end.
pub proof fn lemma_exps_view_push<Ann>(v: Seq<Exp<Ann>>, x: Exp<Ann>)
    ensures
        exps_view(v.push(x)) == exps_view(v).push(x@),
{
    assert(exps_view(v.push(x)) =~= exps_view(v).push(x@));
}

/// The view of a list with one more boxed expression at its end.
pub proof fn lemma_boxed_exps_view_push<Ann>(v: Seq<Box<Exp<Ann>>>, x: Box<Exp<Ann>>)
    ensures
        boxed_exps_view(v.push(x)) == boxed_exps_view(v).push((*x)@),
{
    assert(boxed_exps_view(v.push(x)) =~= boxed_exps_view(v).push((*x)@));
}

/// The view of a list with one more binding at its end.
pub proof fn lemma_bindings_view_push<Ann>(v: Seq<(String, Exp<Ann>)>, x: (String, Exp<Ann>))
    ensures
        bindings_view(v.push(x)) == bindings_view(v).push((x.0@, x.1@)),
{
    assert(bindings_view(v.push(x)) =~= bindings_view(v).push((x.0@, x.1@)));
}

/// The view of a list with one more declaration at its end.
pub proof fn lemma_decls_view_push<Ann>(v: Seq<FunDecl<Exp<Ann>, Ann>>, x: FunDecl<Exp<Ann>, Ann>)
    ensures
        decls_view(v.push(x)) == decls_view(v).push(x@),
{
    assert(decls_view(v.push(x)) =~= decls_view(v).push(x@));
}

/// The view of two lists of declarations, one after the other.
pub proof fn lemma_decls_view_add<Ann>(
    v: Seq<FunDecl<Exp<Ann>, Ann>>,
    w: Seq<FunDecl<Exp<Ann>, Ann>>,
)
    ensures
        decls_view(v + w) == decls_view(v) + decls_view(w),
{
    assert(decls_view(v + w) =~= decls_view(v) + decls_view(w));
}

/// The view of a list with one more sequential declaration at its end.
pub proof fn lemma_seq_decls_view_push<Ann>(
    v: Seq<FunDecl<SeqExp<Ann>, Ann>>,
    x: FunDecl<SeqExp<Ann>, Ann>,
)
    ensures
        seq_decls_view(v.push(x)) == seq_decls_view(v).push(x@),
{
    assert(seq_decls_view(v.push(x)) =~= seq_decls_view(v).push(x@));
}

/// The view of a list with one more immediate operand at its end.
pub proof fn lemma_imms_view_push(v: Seq<ImmExp>, x: ImmExp)
    ensures
        imms_view(v.push(x)) == imms_view(v).push(x@),
{
    assert(imms_view(v.push(x)) =~= imms_view(v).push(x@));
}

impl<Ann> Exp<Ann> {
    /// Whether the expression is written in the surface language alone.
    #[verifier::loop_isolation(false)]
    pub fn is_surface(&self) -> (b: bool)
        ensures
            b == self@.is_surface(),
        decreases self,
    {
        match self {
            Exp::Num(..) | Exp::Bool(..) | Exp::Var(..) => true,
            Exp::Prim(_, es, _) => {
                assert(self@->Prim_1 == boxed_exps_view(es@));
                let mut i: usize = 0;
                while i < es.len()
                    invariant
                        i <= es.len(),
                        forall|j: int| 0 <= j < i ==> (#[trigger] boxed_exps_view(es@)[j]).is_surface(),
                    decreases es.len() - i,
                {
                    assert(boxed_exps_view(es@)[i as int] == es[i as int]@);
                    if !es[i].is_surface() {
                        return false;
                    }
                    i += 1;
                }
                true
            },
            Exp::Let { bindings, body, .. } => {
                assert(self@->Let_bindings == bindings_view(bindings@));
                let mut i: usize = 0;
                while i < bindings.len()
                    invariant
                        i <= bindings.len(),
                        forall|j: int|
                            0 <= j < i ==> (#[trigger] bindings_view(bindings@)[j]).1.is_surface(),
                    decreases bindings.len() - i,
                {
                    assert(bindings_view(bindings@)[i as int].1 == bindings[i as int].1@);
                    if !bindings[i].1.is_surface() {
                        return false;
                    }
                    i += 1;
                }
                body.is_surface()
            },
            Exp::If { cond, thn, els, .. } => cond.is_surface() && thn.is_surface()
                && els.is_surface(),
            Exp::FunDefs { decls, body, .. } => {
                assert(self@->FunDefs_decls == decls_view(decls@));
                let mut i: usize = 0;
                while i < decls.len()
                    invariant
                        i <= decls.len(),
                        forall|j: int|
                            0 <= j < i ==> (#[trigger] decls_view(decls@)[j]).body.is_surface(),
                    decreases decls.len() - i,
                {
                    assert(decls_view(decls@)[i as int].body == decls[i as int].body@);
                    if !decls[i].body.is_surface() {
                        return false;
                    }
                    i += 1;
                }
                body.is_surface()
            },
            Exp::Call(_, args, _) => {
                assert(self@->Call_1 == exps_view(args@));
                let mut i: usize = 0;
                while i < args.len()
                    invariant
                        i <= args.len(),
                        forall|j: int| 0 <= j < i ==> (#[trigger] exps_view(args@)[j]).is_surface(),
                    decreases args.len() - i,
                {
                    assert(exps_view(args@)[i as int] == args[i as int]@);
                    if !args[i].is_surface() {
                        return false;
                    }
                    i += 1;
                }
                true
            },
            Exp::InternalTailCall(..) => false,
            Exp::ExternalCall { .. } => false,
        }
    }

    /// Whether every primitive operation has as many operands as it takes.
    #[verifier::loop_isolation(false)]
    pub fn prims_saturated(&self) -> (b: bool)
        ensures
            b == self@.prims_saturated(),
        decreases self,
    {
        match self {
            Exp::Num(..) | Exp::Bool(..) | Exp::Var(..) => true,
            Exp::Prim(p, es, _) => {
                assert(self@->Prim_1 == boxed_exps_view(es@));
                let wanted: usize = if p.is_unary() {
                    1
                } else {
                    2
                };
                if es.len() != wanted {
                    return false;
                }
                let mut i: usize = 0;
                while i < es.len()
                    invariant
                        i <= es.len(),
                        forall|j: int|
                            0 <= j < i ==> (#[trigger] boxed_exps_view(es@)[j]).prims_saturated(),
                    decreases es.len() - i,
                {
                    assert(boxed_exps_view(es@)[i as int] == es[i as int]@);
                    if !es[i].prims_saturated() {
                        return false;
                    }
                    i += 1;
                }
                true
            },
            Exp::Let { bindings, body, .. } => {
                assert(self@->Let_bindings == bindings_view(bindings@));
                let mut i: usize = 0;
                while i < bindings.len()
                    invariant
                        i <= bindings.len(),
                        forall|j: int|
                            0 <= j < i ==> (#[trigger] bindings_view(
                                bindings@,
                            )[j]).1.prims_saturated(),
                    decreases bindings.len() - i,
                {
                    assert(bindings_view(bindings@)[i as int].1 == bindings[i as int].1@);
                    if !bindings[i].1.prims_saturated() {
                        return false;
                    }
                    i += 1;
                }
                body.prims_saturated()
            },
            Exp::If { cond, thn, els, .. } => cond.prims_saturated() && thn.prims_saturated()
                && els.prims_saturated(),
            Exp::FunDefs { decls, body, .. } => {
                assert(self@->FunDefs_decls == decls_view(decls@));
                let mut i: usize = 0;
                while i < decls.len()
                    invariant
                        i <= decls.len(),
                        forall|j: int|
                            0 <= j < i ==> (#[trigger] decls_view(decls@)[j]).body.prims_saturated(),
                    decreases decls.len() - i,
                {
                    assert(decls_view(decls@)[i as int].body == decls[i as int].body@);
                    if !decls[i].body.prims_saturated() {
                        return false;
                    }
                    i += 1;
                }
                body.prims_saturated()
            },
            Exp::Call(_, args, _) => {
                assert(self@->Call_1 == exps_view(args@));
                all_saturated(args)
            },
            Exp::InternalTailCall(_, args, _) => {
                assert(self@->InternalTailCall_1 == exps_view(args@));
                all_saturated(args)
            },
            Exp::ExternalCall { args, .. } => {
                assert(self@->ExternalCall_args == exps_view(args@));
                all_saturated(args)
            },
        }
    }
}

#[verifier::loop_isolation(false)]
fn all_saturated<Ann>(args: &Vec<Exp<Ann>>) -> (b: bool)
    ensures
        b == forall|j: int|
            0 <= j < exps_view(args@).len() ==> (#[trigger] exps_view(args@)[j]).prims_saturated(),
    decreases args,
{
    let mut i: usize = 0;
    while i < args.len()
        invariant
            i <= args.len(),
            forall|j: int| 0 <= j < i ==> (#[trigger] exps_view(args@)[j]).prims_saturated(),
        decreases args.len() - i,
    {
        assert(exps_view(args@)[i as int] == args[i as int]@);
        if !args[i].prims_saturated() {
            return false;
        }
        i += 1;
    }
    true
}

/// The names that a group of declarations declares, in order.
pub open spec fn group_names<E, A>(ds: Seq<FunDeclV<E, A>>) -> Seq<Seq<char>> {
    Seq::new(ds.len(), |i: int| ds[i].name)
}

/// The names that the bindings of a `Let` bind, in order.
pub open spec fn binding_names<A>(bs: Seq<(Seq<char>, ExpV<A>)>) -> Seq<Seq<char>> {
    Seq::new(bs.len(), |i: int| bs[i].0)
}

} // verus!
