//! Syntax trees of surface programs, each node with the source span it came from.

use vstd::prelude::*;

verus! {

/// A byte range `start..end` of the source.
#[derive(Debug, Clone, Copy, PartialEq, Eq, PartialOrd, Ord, Hash, Default, Structural)]
pub struct Span {
    pub start: usize,
    pub end: usize,
}

impl Span {
    pub fn new(start: usize, end: usize) -> (r: Self)
        ensures
            r == (Span { start, end }),
    {
        Self { start, end }
    }

    /// The span from the start of `self` to the end of `other`.
    pub fn join(self, other: Self) -> (r: Self)
        ensures
            r == (Span { start: self.start, end: other.end }),
    {
        Self { start: self.start, end: other.end }
    }
}

/// A node with its span.
#[derive(Debug, Clone, PartialEq, Eq)]
pub struct Spanned<T> {
    pub node: T,
    pub span: Span,
}

impl<T> Spanned<T> {
    pub fn new(node: T, span: Span) -> (r: Self)
        ensures
            r.node == node,
            r.span == span,
    {
        Self { node, span }
    }
}

pub type Name = String;

/// A whole program: its declarations in source order.
#[derive(Debug, PartialEq, Eq)]
pub struct Program {
    pub decls: Vec<Decl>,
}

#[derive(Debug, PartialEq, Eq)]
pub enum Decl {
    Fn(FnDecl),
    Effect(EffectDecl),
}

#[derive(Debug, PartialEq, Eq)]
pub struct FnDecl {
    pub public: bool,
    pub name: Spanned<Name>,
    pub params: Vec<Param>,
    pub ret: TypeExpr,
    pub effects: Option<Span>,
    pub boundedness: Boundedness,
    pub body: Expr,
    pub span: Span,
}

#[derive(Debug, PartialEq, Eq)]
pub struct Param {
    pub name: Spanned<Name>,
    pub ty: TypeExpr,
}

/// `effect E { op: A -> B }`.
#[derive(Debug, PartialEq, Eq)]
pub struct EffectDecl {
    pub name: Spanned<Name>,
    pub op: Spanned<Name>,
    pub param: Param,
    pub ret: TypeExpr,
    pub span: Span,
}

/// How a recursive function shows that it terminates: by structural descent (the
/// default), by a measure, or not at all (`div`).
#[derive(Debug, PartialEq, Eq)]
pub enum Boundedness {
    StructuralDescent,
    Measure(Expr),
    Div(Span),
}

#[derive(Debug, PartialEq, Eq)]
pub enum TypeExpr {
    Unit(Span),
    Nat(Span),
    Array(Span),
    /// `^T`: a value that must be held uniquely.
    Unique(Box<TypeExpr>, Span),
    Arrow(Box<TypeExpr>, Box<TypeExpr>, Span),
}

impl TypeExpr {
    pub open spec fn span_of(&self) -> Span {
        match self {
            TypeExpr::Unit(span) => *span,
            TypeExpr::Nat(span) => *span,
            TypeExpr::Array(span) => *span,
            TypeExpr::Unique(_, span) => *span,
            TypeExpr::Arrow(_, _, span) => *span,
        }
    }

    pub fn span(&self) -> (r: Span)
        ensures
            r == self.span_of(),
    {
        match self {
            TypeExpr::Unit(span) => *span,
            TypeExpr::Nat(span) => *span,
            TypeExpr::Array(span) => *span,
            TypeExpr::Unique(_, span) => *span,
            TypeExpr::Arrow(_, _, span) => *span,
        }
    }
}

#[derive(Debug, PartialEq, Eq)]
pub struct Expr {
    pub kind: ExprKind,
    pub span: Span,
}

impl Expr {
    pub fn new(kind: ExprKind, span: Span) -> (r: Self)
        ensures
            r.kind == kind,
            r.span == span,
    {
        Self { kind, span }
    }
}

#[derive(Debug, PartialEq, Eq)]
pub enum ExprKind {
    Unit,
    Nat(u64),
    Var(Name),
    Call { callee: Box<Expr>, args: Vec<Expr> },
    Binary { op: BinaryOp, lhs: Box<Expr>, rhs: Box<Expr> },
    Prefix { op: PrefixOp, expr: Box<Expr> },
    QualifiedCall { effect: Name, op: Name, args: Vec<Expr> },
    Pipe { lhs: Box<Expr>, rhs: Box<Expr> },
    Block { bindings: Vec<Binding>, result: Box<Expr> },
    CaseNat { scrutinee: Box<Expr>, arms: Vec<CaseArm> },
    Handle { body: Box<Expr>, clauses: Vec<HandleClause> },
}

#[derive(Debug, Clone, Copy, PartialEq, Eq, Structural)]
pub enum BinaryOp {
    Add,
    Sub,
    Mul,
}

/// The ownership prefixes: `move`, `inplace`, `freeze`.
#[derive(Debug, Clone, Copy, PartialEq, Eq, Structural)]
pub enum PrefixOp {
    Move,
    Inplace,
    Freeze,
}

/// `name = expr` inside a block.
#[derive(Debug, PartialEq, Eq)]
pub struct Binding {
    pub name: Spanned<Name>,
    pub expr: Expr,
    pub span: Span,
}

#[derive(Debug, PartialEq, Eq)]
pub struct CaseArm {
    pub pattern: Pattern,
    pub body: Expr,
    pub span: Span,
}

#[derive(Debug, PartialEq, Eq)]
pub enum Pattern {
    Zero(Span),
    Bind(Spanned<Name>),
    Wildcard(Span),
}

impl Pattern {
    pub open spec fn span_of(&self) -> Span {
        match self {
            Pattern::Zero(span) => *span,
            Pattern::Wildcard(span) => *span,
            Pattern::Bind(name) => name.span,
        }
    }

    pub fn span(&self) -> (r: Span)
        ensures
            r == self.span_of(),
    {
        match self {
            Pattern::Zero(span) => *span,
            Pattern::Wildcard(span) => *span,
            Pattern::Bind(name) => name.span,
        }
    }
}

#[derive(Debug, PartialEq, Eq)]
pub enum HandleClause {
    Return { var: Spanned<Name>, body: Expr, span: Span },
    Operation {
        effect: Spanned<Name>,
        op: Spanned<Name>,
        param: Pattern,
        kont: Pattern,
        body: Expr,
        span: Span,
    },
}

// ---------------------------------------------------------------------------------------
// Models of the syntax trees: the same trees with names as character sequences and lists
// as sequences.
pub struct NameM {
    pub node: Seq<char>,
    pub span: Span,
}

pub struct ExprM {
    pub kind: ExprKindM,
    pub span: Span,
}

pub enum ExprKindM {
    Unit,
    Nat(u64),
    Var(Seq<char>),
    Call { callee: Box<ExprM>, args: Seq<ExprM> },
    Binary { op: BinaryOp, lhs: Box<ExprM>, rhs: Box<ExprM> },
    Prefix { op: PrefixOp, expr: Box<ExprM> },
    QualifiedCall { effect: Seq<char>, op: Seq<char>, args: Seq<ExprM> },
    Pipe { lhs: Box<ExprM>, rhs: Box<ExprM> },
    Block { bindings: Seq<BindingM>, result: Box<ExprM> },
    CaseNat { scrutinee: Box<ExprM>, arms: Seq<CaseArmM> },
    Handle { body: Box<ExprM>, clauses: Seq<HandleClauseM> },
}

pub struct BindingM {
    pub name: NameM,
    pub expr: ExprM,
    pub span: Span,
}

pub enum PatternM {
    Zero(Span),
    Bind(NameM),
    Wildcard(Span),
}

impl PatternM {
    pub open spec fn span_of(self) -> Span {
        match self {
            PatternM::Zero(span) => span,
            PatternM::Wildcard(span) => span,
            PatternM::Bind(name) => name.span,
        }
    }
}

pub struct CaseArmM {
    pub pattern: PatternM,
    pub body: ExprM,
    pub span: Span,
}

pub enum HandleClauseM {
    Return { var: NameM, body: ExprM, span: Span },
    Operation { effect: NameM, op: NameM, param: PatternM, kont: PatternM, body: ExprM, span: Span },
}

pub struct ParamM {
    pub name: NameM,
    pub ty: TypeExpr,
}

pub enum BoundednessM {
    StructuralDescent,
    Measure(ExprM),
    Div(Span),
}

pub struct FnDeclM {
    pub public: bool,
    pub name: NameM,
    pub params: Seq<ParamM>,
    pub ret: TypeExpr,
    pub effects: Option<Span>,
    pub boundedness: BoundednessM,
    pub body: ExprM,
    pub span: Span,
}

pub struct EffectDeclM {
    pub name: NameM,
    pub op: NameM,
    pub param: ParamM,
    pub ret: TypeExpr,
    pub span: Span,
}

pub enum DeclM {
    Fn(FnDeclM),
    Effect(EffectDeclM),
}

pub open spec fn name_view(n: Spanned<Name>) -> NameM {
    NameM { node: n.node@, span: n.span }
}

pub open spec fn expr_view(e: Expr) -> ExprM
    decreases e, 0nat,
{
    ExprM { kind: kind_view(e.kind), span: e.span }
}

pub open spec fn kind_view(k: ExprKind) -> ExprKindM
    decreases k, 0nat,
{
    match k {
        ExprKind::Unit => ExprKindM::Unit,
        ExprKind::Nat(v) => ExprKindM::Nat(v),
        ExprKind::Var(n) => ExprKindM::Var(n@),
        ExprKind::Call { callee, args } => ExprKindM::Call {
            callee: Box::new(expr_view(*callee)),
            args: exprs_view(args@),
        },
        ExprKind::Binary { op, lhs, rhs } => ExprKindM::Binary {
            op,
            lhs: Box::new(expr_view(*lhs)),
            rhs: Box::new(expr_view(*rhs)),
        },
        ExprKind::Prefix { op, expr } => ExprKindM::Prefix { op, expr: Box::new(expr_view(*expr)) },
        ExprKind::QualifiedCall { effect, op, args } => ExprKindM::QualifiedCall {
            effect: effect@,
            op: op@,
            args: exprs_view(args@),
        },
        ExprKind::Pipe { lhs, rhs } => ExprKindM::Pipe {
            lhs: Box::new(expr_view(*lhs)),
            rhs: Box::new(expr_view(*rhs)),
        },
        ExprKind::Block { bindings, result } => ExprKindM::Block {
            bindings: block_bindings_view(bindings@),
            result: Box::new(expr_view(*result)),
        },
        ExprKind::CaseNat { scrutinee, arms } => ExprKindM::CaseNat {
            scrutinee: Box::new(expr_view(*scrutinee)),
            arms: arms_view(arms@),
        },
        ExprKind::Handle { body, clauses } => ExprKindM::Handle {
            body: Box::new(expr_view(*body)),
            clauses: handle_clauses_view(clauses@),
        },
    }
}

pub open spec fn exprs_view(s: Seq<Expr>) -> Seq<ExprM>
    decreases s, 0nat,
{
    if s.len() == 0 {
        Seq::empty()
    } else {
        exprs_view(s.drop_last()).push(expr_view(s.last()))
    }
}

pub open spec fn binding_view(b: Binding) -> BindingM
    decreases b, 0nat,
{
    BindingM { name: name_view(b.name), expr: expr_view(b.expr), span: b.span }
}

pub open spec fn block_bindings_view(s: Seq<Binding>) -> Seq<BindingM>
    decreases s, 0nat,
{
    if s.len() == 0 {
        Seq::empty()
    } else {
        block_bindings_view(s.drop_last()).push(binding_view(s.last()))
    }
}

pub open spec fn pattern_view(p: Pattern) -> PatternM {
    match p {
        Pattern::Zero(span) => PatternM::Zero(span),
        Pattern::Bind(n) => PatternM::Bind(name_view(n)),
        Pattern::Wildcard(span) => PatternM::Wildcard(span),
    }
}

pub open spec fn arm_view(a: CaseArm) -> CaseArmM
    decreases a, 0nat,
{
    CaseArmM { pattern: pattern_view(a.pattern), body: expr_view(a.body), span: a.span }
}

pub open spec fn arms_view(s: Seq<CaseArm>) -> Seq<CaseArmM>
    decreases s, 0nat,
{
    if s.len() == 0 {
        Seq::empty()
    } else {
        arms_view(s.drop_last()).push(arm_view(s.last()))
    }
}

pub open spec fn handle_clause_view(c: HandleClause) -> HandleClauseM
    decreases c, 0nat,
{
    match c {
        HandleClause::Return { var, body, span } => HandleClauseM::Return {
            var: name_view(var),
            body: expr_view(body),
            span,
        },
        HandleClause::Operation { effect, op, param, kont, body, span } => HandleClauseM::Operation {
            effect: name_view(effect),
            op: name_view(op),
            param: pattern_view(param),
            kont: pattern_view(kont),
            body: expr_view(body),
            span,
        },
    }
}

pub open spec fn handle_clauses_view(s: Seq<HandleClause>) -> Seq<HandleClauseM>
    decreases s, 0nat,
{
    if s.len() == 0 {
        Seq::empty()
    } else {
        handle_clauses_view(s.drop_last()).push(handle_clause_view(s.last()))
    }
}

pub open spec fn param_view(p: Param) -> ParamM {
    ParamM { name: name_view(p.name), ty: p.ty }
}

pub open spec fn params_view(s: Seq<Param>) -> Seq<ParamM> {
    s.map_values(|p: Param| param_view(p))
}

pub open spec fn boundedness_view(b: Boundedness) -> BoundednessM {
    match b {
        Boundedness::StructuralDescent => BoundednessM::StructuralDescent,
        Boundedness::Measure(e) => BoundednessM::Measure(expr_view(e)),
        Boundedness::Div(span) => BoundednessM::Div(span),
    }
}

pub open spec fn fn_decl_view(f: FnDecl) -> FnDeclM {
    FnDeclM {
        public: f.public,
        name: name_view(f.name),
        params: params_view(f.params@),
        ret: f.ret,
        effects: f.effects,
        boundedness: boundedness_view(f.boundedness),
        body: expr_view(f.body),
        span: f.span,
    }
}

pub open spec fn effect_decl_view(d: EffectDecl) -> EffectDeclM {
    EffectDeclM {
        name: name_view(d.name),
        op: name_view(d.op),
        param: param_view(d.param),
        ret: d.ret,
        span: d.span,
    }
}

pub open spec fn decl_view(d: Decl) -> DeclM {
    match d {
        Decl::Fn(f) => DeclM::Fn(fn_decl_view(f)),
        Decl::Effect(e) => DeclM::Effect(effect_decl_view(e)),
    }
}

pub open spec fn decls_view(s: Seq<Decl>) -> Seq<DeclM> {
    s.map_values(|d: Decl| decl_view(d))
}

impl View for Expr {
    type V = ExprM;

    open spec fn view(&self) -> ExprM {
        expr_view(*self)
    }
}


} // verus!
