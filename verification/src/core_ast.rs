//! Core term language of λ_Atli: types, terms, handlers, recursion binding groups,
//! witnesses, and the structural operations (substitution, value test, continuation-id
//! normalization) used by the reduction rules.
//!
//! Every executable term has a mathematical model (`TermM`, reached through `@`): names
//! become character sequences and vectors become sequences.  The contracts of the
//! structural operations are stated over these models.

use vstd::prelude::*;

use crate::grade::{Bound, Eff, Label, Region};
use crate::text::{owned, str_eq};

verus! {

broadcast use vstd::std_specs::vec::group_vec_axioms, vstd::seq::group_seq_axioms;

pub type Name = String;

#[derive(Debug, PartialEq, Eq, Hash)]
pub enum Type {
    Unit,
    Nat,
    Array,
    Arrow(Box<Type>, Box<Type>),
    Cont(Box<Type>, Box<Type>),
}

impl Clone for Type {
    fn clone(&self) -> (r: Self)
        ensures
            r == *self,
    {
        self.duplicate()
    }
}

impl Type {
    /// A structurally equal copy.
    pub fn duplicate(&self) -> (r: Type)
        ensures
            r == *self,
        decreases self,
    {
        match self {
            Type::Unit => Type::Unit,
            Type::Nat => Type::Nat,
            Type::Array => Type::Array,
            Type::Arrow(a, b) => Type::Arrow(Box::new(a.duplicate()), Box::new(b.duplicate())),
            Type::Cont(a, b) => Type::Cont(Box::new(a.duplicate()), Box::new(b.duplicate())),
        }
    }

    /// Structural equality of types.
    pub fn same(&self, other: &Type) -> (r: bool)
        ensures
            r == (*self == *other),
        decreases self,
    {
        match (self, other) {
            (Type::Unit, Type::Unit) => true,
            (Type::Nat, Type::Nat) => true,
            (Type::Array, Type::Array) => true,
            (Type::Arrow(a, b), Type::Arrow(c, d)) => a.same(c) && b.same(d),
            (Type::Cont(a, b), Type::Cont(c, d)) => a.same(c) && b.same(d),
            _ => false,
        }
    }

    /// `Cont[Nat, Nat]`, the type of a captured one-shot continuation.
    pub fn nat_cont() -> (r: Type)
        ensures
            r == Type::Cont(Box::new(Type::Nat), Box::new(Type::Nat)),
    {
        Type::Cont(Box::new(Type::Nat), Box::new(Type::Nat))
    }

    /// `Nat -> Nat`.
    pub fn nat_arrow() -> (r: Type)
        ensures
            r == Type::Arrow(Box::new(Type::Nat), Box::new(Type::Nat)),
    {
        Type::Arrow(Box::new(Type::Nat), Box::new(Type::Nat))
    }
}

#[derive(Debug, Clone, Copy, PartialEq, Eq, PartialOrd, Ord, Hash, Structural)]
pub struct ContId(pub u64);

#[derive(Debug, Clone, Copy, PartialEq, Eq, PartialOrd, Ord, Hash, Structural)]
pub enum RecursionTag {
    StructuralDescent,
    Measure,
    Div,
}

#[derive(Debug, Clone, Copy, PartialEq, Eq, PartialOrd, Ord, Hash, Structural)]
pub enum Divergence {
    Terminates,
    Div,
}

#[derive(Debug, Clone, Copy, PartialEq, Eq, PartialOrd, Ord, Hash, Structural)]
pub enum CoverageTag {
    LambdaApp,
    Let,
    FixStructural,
    FixMeasure,
    Perform,
    HandleResuming,
    HandleDropped,
    Array,
    RecordAggregate,
    VariantAggregate,
    DestructureConsume,
    RecordFunctionalUpdate,
    RecordInplaceUpdate,
    ConstructorPatternDescent,
}

/// Core term grammar.
#[derive(Debug, PartialEq, Eq)]
pub enum Term {
    Var(Name),
    Unit,
    Zero,
    Succ(Box<Term>),
    /// Runtime array value.
    Array(Vec<Term>),
    MkArray(Box<Term>, Box<Term>),
    ArrayGet(Box<Term>, Box<Term>),
    ArraySet(Box<Term>, Box<Term>, Box<Term>),
    ArrayLen(Box<Term>),
    Move(Box<Term>),
    Inplace(Box<Term>),
    Freeze(Box<Term>),
    /// Coverage-only origin marker for aggregates lowered to arrays.
    Mark(CoverageTag, Box<Term>),
    CaseNat { scrutinee: Box<Term>, zero_body: Box<Term>, succ_var: Name, succ_body: Box<Term> },
    Lam { param: Name, param_ty: Type, body: Box<Term> },
    App(Box<Term>, Box<Term>),
    Let { var: Name, expr: Box<Term>, body: Box<Term> },
    Fix { func: Name, param: Name, param_ty: Type, body: Box<Term>, tag: RecursionTag },
    /// Binding group `fix*`.
    FixGroup { bindings: Vec<FixBinding>, entry: Name },
    Perform(Label, Box<Term>),
    Handle { body: Box<Term>, handler: Handler },
    Resume { kont: Box<Term>, arg: Box<Term> },
    /// Runtime-only one-shot continuation value.
    Cont(ContId),
}

#[derive(Debug, PartialEq, Eq)]
pub struct Handler {
    pub return_var: Name,
    pub return_body: Box<Term>,
    pub clauses: Vec<OpClause>,
}

#[derive(Debug, PartialEq, Eq)]
pub struct OpClause {
    pub op_label: Label,
    pub op_param: Name,
    pub op_k: Name,
    pub op_body: Box<Term>,
}

#[derive(Debug, PartialEq, Eq)]
pub struct FixBinding {
    pub func: Name,
    pub param: Name,
    pub param_ty: Type,
    pub body: Box<Term>,
    pub tag: RecursionTag,
}

// ---------------------------------------------------------------------------------------
// Mathematical model of terms.
/// Model of a term: names are character sequences, vectors are sequences.
pub enum TermM {
    Var(Seq<char>),
    Unit,
    Zero,
    Succ(Box<TermM>),
    Array(Seq<TermM>),
    MkArray(Box<TermM>, Box<TermM>),
    ArrayGet(Box<TermM>, Box<TermM>),
    ArraySet(Box<TermM>, Box<TermM>, Box<TermM>),
    ArrayLen(Box<TermM>),
    Move(Box<TermM>),
    Inplace(Box<TermM>),
    Freeze(Box<TermM>),
    Mark(CoverageTag, Box<TermM>),
    CaseNat {
        scrutinee: Box<TermM>,
        zero_body: Box<TermM>,
        succ_var: Seq<char>,
        succ_body: Box<TermM>,
    },
    Lam { param: Seq<char>, param_ty: Type, body: Box<TermM> },
    App(Box<TermM>, Box<TermM>),
    Let { var: Seq<char>, expr: Box<TermM>, body: Box<TermM> },
    Fix { func: Seq<char>, param: Seq<char>, param_ty: Type, body: Box<TermM>, tag: RecursionTag },
    FixGroup { bindings: Seq<FixBindingM>, entry: Seq<char> },
    Perform(Seq<char>, Box<TermM>),
    Handle { body: Box<TermM>, handler: HandlerM },
    Resume { kont: Box<TermM>, arg: Box<TermM> },
    Cont(ContId),
}

/// Model of a handler.
pub struct HandlerM {
    pub return_var: Seq<char>,
    pub return_body: Box<TermM>,
    pub clauses: Seq<OpClauseM>,
}

/// Model of an operation clause.
pub struct OpClauseM {
    pub op_label: Seq<char>,
    pub op_param: Seq<char>,
    pub op_k: Seq<char>,
    pub op_body: Box<TermM>,
}

/// Model of a `fix*` member.
pub struct FixBindingM {
    pub func: Seq<char>,
    pub param: Seq<char>,
    pub param_ty: Type,
    pub body: Box<TermM>,
    pub tag: RecursionTag,
}

pub open spec fn term_view(t: Term) -> TermM
    decreases t, 0nat,
{
    match t {
        Term::Var(x) => TermM::Var(x@),
        Term::Unit => TermM::Unit,
        Term::Zero => TermM::Zero,
        Term::Succ(i) => TermM::Succ(Box::new(term_view(*i))),
        Term::Array(v) => TermM::Array(terms_view(v@)),
        Term::MkArray(a, b) => TermM::MkArray(Box::new(term_view(*a)), Box::new(term_view(*b))),
        Term::ArrayGet(a, b) => TermM::ArrayGet(Box::new(term_view(*a)), Box::new(term_view(*b))),
        Term::ArraySet(a, b, c) => TermM::ArraySet(
            Box::new(term_view(*a)),
            Box::new(term_view(*b)),
            Box::new(term_view(*c)),
        ),
        Term::ArrayLen(i) => TermM::ArrayLen(Box::new(term_view(*i))),
        Term::Move(i) => TermM::Move(Box::new(term_view(*i))),
        Term::Inplace(i) => TermM::Inplace(Box::new(term_view(*i))),
        Term::Freeze(i) => TermM::Freeze(Box::new(term_view(*i))),
        Term::Mark(tag, i) => TermM::Mark(tag, Box::new(term_view(*i))),
        Term::CaseNat { scrutinee, zero_body, succ_var, succ_body } => TermM::CaseNat {
            scrutinee: Box::new(term_view(*scrutinee)),
            zero_body: Box::new(term_view(*zero_body)),
            succ_var: succ_var@,
            succ_body: Box::new(term_view(*succ_body)),
        },
        Term::Lam { param, param_ty, body } => TermM::Lam {
            param: param@,
            param_ty,
            body: Box::new(term_view(*body)),
        },
        Term::App(f, a) => TermM::App(Box::new(term_view(*f)), Box::new(term_view(*a))),
        Term::Let { var, expr, body } => TermM::Let {
            var: var@,
            expr: Box::new(term_view(*expr)),
            body: Box::new(term_view(*body)),
        },
        Term::Fix { func, param, param_ty, body, tag } => TermM::Fix {
            func: func@,
            param: param@,
            param_ty,
            body: Box::new(term_view(*body)),
            tag,
        },
        Term::FixGroup { bindings, entry } => TermM::FixGroup {
            bindings: bindings_view(bindings@),
            entry: entry@,
        },
        Term::Perform(l, a) => TermM::Perform(l@, Box::new(term_view(*a))),
        Term::Handle { body, handler } => TermM::Handle {
            body: Box::new(term_view(*body)),
            handler: handler_view(handler),
        },
        Term::Resume { kont, arg } => TermM::Resume {
            kont: Box::new(term_view(*kont)),
            arg: Box::new(term_view(*arg)),
        },
        Term::Cont(id) => TermM::Cont(id),
    }
}

pub open spec fn terms_view(s: Seq<Term>) -> Seq<TermM>
    decreases s, 0nat,
{
    if s.len() == 0 {
        Seq::empty()
    } else {
        terms_view(s.drop_last()).push(term_view(s.last()))
    }
}

pub open spec fn handler_view(h: Handler) -> HandlerM
    decreases h, 0nat,
{
    HandlerM {
        return_var: h.return_var@,
        return_body: Box::new(term_view(*h.return_body)),
        clauses: clauses_view(h.clauses@),
    }
}

pub open spec fn clause_view(c: OpClause) -> OpClauseM
    decreases c, 0nat,
{
    OpClauseM {
        op_label: c.op_label@,
        op_param: c.op_param@,
        op_k: c.op_k@,
        op_body: Box::new(term_view(*c.op_body)),
    }
}

pub open spec fn clauses_view(s: Seq<OpClause>) -> Seq<OpClauseM>
    decreases s, 0nat,
{
    if s.len() == 0 {
        Seq::empty()
    } else {
        clauses_view(s.drop_last()).push(clause_view(s.last()))
    }
}

pub open spec fn binding_view(b: FixBinding) -> FixBindingM
    decreases b, 0nat,
{
    FixBindingM {
        func: b.func@,
        param: b.param@,
        param_ty: b.param_ty,
        body: Box::new(term_view(*b.body)),
        tag: b.tag,
    }
}

pub open spec fn bindings_view(s: Seq<FixBinding>) -> Seq<FixBindingM>
    decreases s, 0nat,
{
    if s.len() == 0 {
        Seq::empty()
    } else {
        bindings_view(s.drop_last()).push(binding_view(s.last()))
    }
}

impl View for Term {
    type V = TermM;

    open spec fn view(&self) -> TermM {
        term_view(*self)
    }
}

impl View for Handler {
    type V = HandlerM;

    open spec fn view(&self) -> HandlerM {
        handler_view(*self)
    }
}

impl View for OpClause {
    type V = OpClauseM;

    open spec fn view(&self) -> OpClauseM {
        clause_view(*self)
    }
}

impl View for FixBinding {
    type V = FixBindingM;

    open spec fn view(&self) -> FixBindingM {
        binding_view(*self)
    }
}

/// The element-wise characterization of the sequence views.
pub proof fn lemma_terms_view(s: Seq<Term>)
    ensures
        terms_view(s).len() == s.len(),
        forall|i: int| 0 <= i < s.len() ==> #[trigger] terms_view(s)[i] == term_view(s[i]),
    decreases s.len(),
{
    if s.len() > 0 {
        lemma_terms_view(s.drop_last());
    }
}

pub proof fn lemma_clauses_view(s: Seq<OpClause>)
    ensures
        clauses_view(s).len() == s.len(),
        forall|i: int| 0 <= i < s.len() ==> #[trigger] clauses_view(s)[i] == clause_view(s[i]),
    decreases s.len(),
{
    if s.len() > 0 {
        lemma_clauses_view(s.drop_last());
    }
}

pub proof fn lemma_bindings_view(s: Seq<FixBinding>)
    ensures
        bindings_view(s).len() == s.len(),
        forall|i: int| 0 <= i < s.len() ==> #[trigger] bindings_view(s)[i] == binding_view(s[i]),
    decreases s.len(),
{
    if s.len() > 0 {
        lemma_bindings_view(s.drop_last());
    }
}

// ---------------------------------------------------------------------------------------
// Specifications of the structural operations.
/// The Peano numeral for `n`.
pub open spec fn nat_m(n: nat) -> TermM
    decreases n,
{
    if n == 0 {
        TermM::Zero
    } else {
        TermM::Succ(Box::new(nat_m((n - 1) as nat)))
    }
}

/// Values: unit, numerals over values, lambdas, continuations, arrays, marked values.
pub open spec fn is_value_m(t: TermM) -> bool
    decreases t,
{
    match t {
        TermM::Unit | TermM::Zero | TermM::Lam { .. } | TermM::Cont(_) | TermM::Array(_) => true,
        TermM::Succ(i) => is_value_m(*i),
        TermM::Mark(_, i) => is_value_m(*i),
        _ => false,
    }
}

/// Whether some member of a binding group is named `x`.
pub open spec fn group_binds(bs: Seq<FixBindingM>, x: Seq<char>) -> bool {
    exists|i: int| 0 <= i < bs.len() && #[trigger] bs[i].func == x
}

/// Substitution `t[x := r]`, stopping at binders of `x` (names are globally fresh in
/// generated and elaborated terms, so no renaming is performed).
pub open spec fn subst_m(t: TermM, x: Seq<char>, r: TermM) -> TermM
    decreases t, 0nat,
{
    match t {
        TermM::Var(v) => if v == x {
            r
        } else {
            t
        },
        TermM::Unit | TermM::Zero | TermM::Cont(_) | TermM::Array(_) => t,
        TermM::Succ(i) => TermM::Succ(Box::new(subst_m(*i, x, r))),
        TermM::MkArray(a, b) => TermM::MkArray(
            Box::new(subst_m(*a, x, r)),
            Box::new(subst_m(*b, x, r)),
        ),
        TermM::ArrayGet(a, b) => TermM::ArrayGet(
            Box::new(subst_m(*a, x, r)),
            Box::new(subst_m(*b, x, r)),
        ),
        TermM::ArraySet(a, b, c) => TermM::ArraySet(
            Box::new(subst_m(*a, x, r)),
            Box::new(subst_m(*b, x, r)),
            Box::new(subst_m(*c, x, r)),
        ),
        TermM::ArrayLen(i) => TermM::ArrayLen(Box::new(subst_m(*i, x, r))),
        TermM::Move(i) => TermM::Move(Box::new(subst_m(*i, x, r))),
        TermM::Inplace(i) => TermM::Inplace(Box::new(subst_m(*i, x, r))),
        TermM::Freeze(i) => TermM::Freeze(Box::new(subst_m(*i, x, r))),
        TermM::Mark(tag, i) => TermM::Mark(tag, Box::new(subst_m(*i, x, r))),
        TermM::CaseNat { scrutinee, zero_body, succ_var, succ_body } => TermM::CaseNat {
            scrutinee: Box::new(subst_m(*scrutinee, x, r)),
            zero_body: Box::new(subst_m(*zero_body, x, r)),
            succ_var,
            succ_body: if succ_var == x {
                succ_body
            } else {
                Box::new(subst_m(*succ_body, x, r))
            },
        },
        TermM::Lam { param, param_ty, body } => if param == x {
            t
        } else {
            TermM::Lam { param, param_ty, body: Box::new(subst_m(*body, x, r)) }
        },
        TermM::App(f, a) => TermM::App(Box::new(subst_m(*f, x, r)), Box::new(subst_m(*a, x, r))),
        TermM::Let { var, expr, body } => TermM::Let {
            var,
            expr: Box::new(subst_m(*expr, x, r)),
            body: if var == x {
                body
            } else {
                Box::new(subst_m(*body, x, r))
            },
        },
        TermM::Fix { func, param, param_ty, body, tag } => if func == x || param == x {
            t
        } else {
            TermM::Fix { func, param, param_ty, body: Box::new(subst_m(*body, x, r)), tag }
        },
        TermM::FixGroup { bindings, entry } => if group_binds(bindings, x) {
            t
        } else {
            TermM::FixGroup { bindings: bindings_subst_m(bindings, x, r), entry }
        },
        TermM::Perform(l, a) => TermM::Perform(l, Box::new(subst_m(*a, x, r))),
        TermM::Handle { body, handler } => TermM::Handle {
            body: Box::new(subst_m(*body, x, r)),
            handler: handler_subst_m(handler, x, r),
        },
        TermM::Resume { kont, arg } => TermM::Resume {
            kont: Box::new(subst_m(*kont, x, r)),
            arg: Box::new(subst_m(*arg, x, r)),
        },
    }
}

pub open spec fn binding_subst_m(b: FixBindingM, x: Seq<char>, r: TermM) -> FixBindingM
    decreases b, 0nat,
{
    FixBindingM {
        func: b.func,
        param: b.param,
        param_ty: b.param_ty,
        body: if b.func == x || b.param == x {
            b.body
        } else {
            Box::new(subst_m(*b.body, x, r))
        },
        tag: b.tag,
    }
}

pub open spec fn bindings_subst_m(s: Seq<FixBindingM>, x: Seq<char>, r: TermM) -> Seq<
    FixBindingM,
>
    decreases s, 0nat,
{
    if s.len() == 0 {
        s
    } else {
        bindings_subst_m(s.drop_last(), x, r).push(binding_subst_m(s.last(), x, r))
    }
}

pub open spec fn clause_subst_m(c: OpClauseM, x: Seq<char>, r: TermM) -> OpClauseM
    decreases c, 0nat,
{
    OpClauseM {
        op_label: c.op_label,
        op_param: c.op_param,
        op_k: c.op_k,
        op_body: if c.op_param == x || c.op_k == x {
            c.op_body
        } else {
            Box::new(subst_m(*c.op_body, x, r))
        },
    }
}

pub open spec fn clauses_subst_m(s: Seq<OpClauseM>, x: Seq<char>, r: TermM) -> Seq<OpClauseM>
    decreases s, 0nat,
{
    if s.len() == 0 {
        s
    } else {
        clauses_subst_m(s.drop_last(), x, r).push(clause_subst_m(s.last(), x, r))
    }
}

pub open spec fn handler_subst_m(h: HandlerM, x: Seq<char>, r: TermM) -> HandlerM
    decreases h, 0nat,
{
    HandlerM {
        return_var: h.return_var,
        return_body: if h.return_var == x {
            h.return_body
        } else {
            Box::new(subst_m(*h.return_body, x, r))
        },
        clauses: clauses_subst_m(h.clauses, x, r),
    }
}

/// Every runtime continuation id replaced by `κ0` (array contents are left alone).
pub open spec fn normalize_m(t: TermM) -> TermM
    decreases t, 0nat,
{
    match t {
        TermM::Cont(_) => TermM::Cont(ContId(0)),
        TermM::Var(_) | TermM::Unit | TermM::Zero | TermM::Array(_) => t,
        TermM::Succ(i) => TermM::Succ(Box::new(normalize_m(*i))),
        TermM::MkArray(a, b) => TermM::MkArray(
            Box::new(normalize_m(*a)),
            Box::new(normalize_m(*b)),
        ),
        TermM::ArrayGet(a, b) => TermM::ArrayGet(
            Box::new(normalize_m(*a)),
            Box::new(normalize_m(*b)),
        ),
        TermM::ArraySet(a, b, c) => TermM::ArraySet(
            Box::new(normalize_m(*a)),
            Box::new(normalize_m(*b)),
            Box::new(normalize_m(*c)),
        ),
        TermM::ArrayLen(i) => TermM::ArrayLen(Box::new(normalize_m(*i))),
        TermM::Move(i) => TermM::Move(Box::new(normalize_m(*i))),
        TermM::Inplace(i) => TermM::Inplace(Box::new(normalize_m(*i))),
        TermM::Freeze(i) => TermM::Freeze(Box::new(normalize_m(*i))),
        TermM::Mark(tag, i) => TermM::Mark(tag, Box::new(normalize_m(*i))),
        TermM::CaseNat { scrutinee, zero_body, succ_var, succ_body } => TermM::CaseNat {
            scrutinee: Box::new(normalize_m(*scrutinee)),
            zero_body: Box::new(normalize_m(*zero_body)),
            succ_var,
            succ_body: Box::new(normalize_m(*succ_body)),
        },
        TermM::Lam { param, param_ty, body } => TermM::Lam {
            param,
            param_ty,
            body: Box::new(normalize_m(*body)),
        },
        TermM::App(f, a) => TermM::App(Box::new(normalize_m(*f)), Box::new(normalize_m(*a))),
        TermM::Let { var, expr, body } => TermM::Let {
            var,
            expr: Box::new(normalize_m(*expr)),
            body: Box::new(normalize_m(*body)),
        },
        TermM::Fix { func, param, param_ty, body, tag } => TermM::Fix {
            func,
            param,
            param_ty,
            body: Box::new(normalize_m(*body)),
            tag,
        },
        TermM::FixGroup { bindings, entry } => TermM::FixGroup {
            bindings: bindings_normalize_m(bindings),
            entry,
        },
        TermM::Perform(l, a) => TermM::Perform(l, Box::new(normalize_m(*a))),
        TermM::Handle { body, handler } => TermM::Handle {
            body: Box::new(normalize_m(*body)),
            handler: handler_normalize_m(handler),
        },
        TermM::Resume { kont, arg } => TermM::Resume {
            kont: Box::new(normalize_m(*kont)),
            arg: Box::new(normalize_m(*arg)),
        },
    }
}

pub open spec fn binding_normalize_m(b: FixBindingM) -> FixBindingM
    decreases b, 0nat,
{
    FixBindingM {
        func: b.func,
        param: b.param,
        param_ty: b.param_ty,
        body: Box::new(normalize_m(*b.body)),
        tag: b.tag,
    }
}

pub open spec fn bindings_normalize_m(s: Seq<FixBindingM>) -> Seq<FixBindingM>
    decreases s, 0nat,
{
    if s.len() == 0 {
        s
    } else {
        bindings_normalize_m(s.drop_last()).push(binding_normalize_m(s.last()))
    }
}

pub open spec fn clause_normalize_m(c: OpClauseM) -> OpClauseM
    decreases c, 0nat,
{
    OpClauseM {
        op_label: c.op_label,
        op_param: c.op_param,
        op_k: c.op_k,
        op_body: Box::new(normalize_m(*c.op_body)),
    }
}

pub open spec fn clauses_normalize_m(s: Seq<OpClauseM>) -> Seq<OpClauseM>
    decreases s, 0nat,
{
    if s.len() == 0 {
        s
    } else {
        clauses_normalize_m(s.drop_last()).push(clause_normalize_m(s.last()))
    }
}

pub open spec fn handler_normalize_m(h: HandlerM) -> HandlerM
    decreases h, 0nat,
{
    HandlerM {
        return_var: h.return_var,
        return_body: Box::new(normalize_m(*h.return_body)),
        clauses: clauses_normalize_m(h.clauses),
    }
}

/// Normalizing continuation identifiers twice is normalizing them once.
pub proof fn lemma_normalize_idempotent(t: TermM)
    ensures
        normalize_m(normalize_m(t)) == normalize_m(t),
    decreases t, 0nat,
{
    match t {
        TermM::Cont(_) => {
            assert(normalize_m(t) == TermM::Cont(ContId(0)));
            let z = TermM::Cont(ContId(0));
            assert(normalize_m(z) == z);
            assert(normalize_m(normalize_m(t)) == normalize_m(z));
        },
        TermM::Var(_) | TermM::Unit | TermM::Zero | TermM::Array(_) => {
            assert(normalize_m(t) == t);
        },
        TermM::Succ(i) | TermM::ArrayLen(i) | TermM::Move(i) | TermM::Inplace(i) | TermM::Freeze(i) => {
            lemma_normalize_idempotent(*i);
        },
        TermM::Mark(_, i) => lemma_normalize_idempotent(*i),
        TermM::MkArray(a, b) | TermM::ArrayGet(a, b) | TermM::App(a, b) => {
            lemma_normalize_idempotent(*a);
            lemma_normalize_idempotent(*b);
        },
        TermM::ArraySet(a, b, c) => {
            lemma_normalize_idempotent(*a);
            lemma_normalize_idempotent(*b);
            lemma_normalize_idempotent(*c);
        },
        TermM::CaseNat { scrutinee, zero_body, succ_body, .. } => {
            lemma_normalize_idempotent(*scrutinee);
            lemma_normalize_idempotent(*zero_body);
            lemma_normalize_idempotent(*succ_body);
        },
        TermM::Lam { body, .. } => lemma_normalize_idempotent(*body),
        TermM::Let { expr, body, .. } => {
            lemma_normalize_idempotent(*expr);
            lemma_normalize_idempotent(*body);
        },
        TermM::Fix { body, .. } => lemma_normalize_idempotent(*body),
        TermM::FixGroup { bindings, entry } => {
            lemma_bindings_normalize_idempotent(bindings);
            let n = TermM::FixGroup { bindings: bindings_normalize_m(bindings), entry };
            assert(normalize_m(t) == n);
            assert(normalize_m(n) == n);
        },
        TermM::Perform(_, a) => lemma_normalize_idempotent(*a),
        TermM::Handle { body, handler } => {
            lemma_normalize_idempotent(*body);
            lemma_normalize_idempotent(*handler.return_body);
            lemma_clauses_normalize_idempotent(handler.clauses);
            let h = handler_normalize_m(handler);
            assert(handler_normalize_m(h) == h);
        },
        TermM::Resume { kont, arg } => {
            lemma_normalize_idempotent(*kont);
            lemma_normalize_idempotent(*arg);
        },
    }
}

proof fn lemma_bindings_normalize_idempotent(s: Seq<FixBindingM>)
    ensures
        bindings_normalize_m(bindings_normalize_m(s)) == bindings_normalize_m(s),
    decreases s, 0nat,
{
    if s.len() > 0 {
        lemma_bindings_normalize_idempotent(s.drop_last());
        lemma_normalize_idempotent(*s.last().body);
        let n = bindings_normalize_m(s);
        assert(n.drop_last() =~= bindings_normalize_m(s.drop_last()));
        assert(n.last() == binding_normalize_m(s.last()));
        assert(binding_normalize_m(n.last()) == n.last());
        let nn = bindings_normalize_m(n);
        assert(nn.drop_last() == bindings_normalize_m(n.drop_last()));
        assert(nn =~= n);
    }
}

proof fn lemma_clauses_normalize_idempotent(s: Seq<OpClauseM>)
    ensures
        clauses_normalize_m(clauses_normalize_m(s)) == clauses_normalize_m(s),
    decreases s, 0nat,
{
    if s.len() > 0 {
        lemma_clauses_normalize_idempotent(s.drop_last());
        lemma_normalize_idempotent(*s.last().op_body);
        let n = clauses_normalize_m(s);
        assert(n.drop_last() =~= clauses_normalize_m(s.drop_last()));
        assert(n.last() == clause_normalize_m(s.last()));
        assert(clause_normalize_m(n.last()) == n.last());
        let nn = clauses_normalize_m(n);
        assert(nn.drop_last() == clauses_normalize_m(n.drop_last()));
        assert(nn =~= n);
    }
}

/// Index of the first clause handling `label`, if any.
pub open spec fn first_clause(clauses: Seq<OpClauseM>, label: Seq<char>) -> Option<int>
    decreases clauses.len(),
{
    if clauses.len() == 0 {
        None
    } else if clauses[0].op_label == label {
        Some(0)
    } else {
        match first_clause(clauses.drop_first(), label) {
            Some(i) => Some(i + 1),
            None => None,
        }
    }
}

pub proof fn lemma_first_clause(clauses: Seq<OpClauseM>, label: Seq<char>)
    ensures
        first_clause(clauses, label) matches Some(i) ==> 0 <= i < clauses.len()
            && clauses[i].op_label == label && forall|j: int|
            0 <= j < i ==> clauses[j].op_label != label,
        first_clause(clauses, label) is None ==> forall|j: int|
            0 <= j < clauses.len() ==> clauses[j].op_label != label,
    decreases clauses.len(),
{
    if clauses.len() > 0 {
        lemma_first_clause(clauses.drop_first(), label);
        if clauses[0].op_label != label {
            assert forall|j: int| 1 <= j < clauses.len() implies clauses[j]
                == clauses.drop_first()[j - 1] by {}
        }
    }
}

// ---------------------------------------------------------------------------------------
// Executable operations.
impl Clone for Term {
    fn clone(&self) -> (r: Self)
        ensures
            r@ == self@,
    {
        self.duplicate()
    }
}

impl Term {
    pub fn var(name: &str) -> (r: Self)
        ensures
            r@ == TermM::Var(name@),
    {
        Self::Var(owned(name))
    }

    pub fn zero() -> (r: Self)
        ensures
            r@ == TermM::Zero,
    {
        Self::Zero
    }

    pub fn succ(inner: Self) -> (r: Self)
        ensures
            r@ == TermM::Succ(Box::new(inner@)),
    {
        Self::Succ(Box::new(inner))
    }

    /// The numeral `succ^value(zero)`.
    pub fn natural(value: u64) -> (r: Self)
        ensures
            r@ == nat_m(value as nat),
    {
        let mut term = Self::Zero;
        let mut i: u64 = 0;
        while i < value
            invariant
                i <= value,
                term@ == nat_m(i as nat),
            decreases value - i,
        {
            term = Self::succ(term);
            i += 1;
        }
        term
    }

    pub fn unit() -> (r: Self)
        ensures
            r@ == TermM::Unit,
    {
        Self::Unit
    }

    pub fn is_value(&self) -> (r: bool)
        ensures
            r == is_value_m(self@),
        decreases self,
    {
        match self {
            Self::Unit | Self::Zero | Self::Lam { .. } | Self::Cont(_) | Self::Array(_) => true,
            Self::Succ(inner) => inner.is_value(),
            Self::Mark(_, inner) => inner.is_value(),
            _ => false,
        }
    }

    /// A copy with the same model.
    pub fn duplicate(&self) -> (r: Self)
        ensures
            r@ == self@,
        decreases self, 0nat,
    {
        match self {
            Self::Var(x) => Self::Var(x.clone()),
            Self::Unit => Self::Unit,
            Self::Zero => Self::Zero,
            Self::Succ(i) => Self::Succ(Box::new(i.duplicate())),
            Self::Array(v) => Self::Array(duplicate_terms(v)),
            Self::MkArray(a, b) => Self::MkArray(Box::new(a.duplicate()), Box::new(b.duplicate())),
            Self::ArrayGet(a, b) => Self::ArrayGet(
                Box::new(a.duplicate()),
                Box::new(b.duplicate()),
            ),
            Self::ArraySet(a, b, c) => Self::ArraySet(
                Box::new(a.duplicate()),
                Box::new(b.duplicate()),
                Box::new(c.duplicate()),
            ),
            Self::ArrayLen(i) => Self::ArrayLen(Box::new(i.duplicate())),
            Self::Move(i) => Self::Move(Box::new(i.duplicate())),
            Self::Inplace(i) => Self::Inplace(Box::new(i.duplicate())),
            Self::Freeze(i) => Self::Freeze(Box::new(i.duplicate())),
            Self::Mark(tag, i) => Self::Mark(*tag, Box::new(i.duplicate())),
            Self::CaseNat { scrutinee, zero_body, succ_var, succ_body } => Self::CaseNat {
                scrutinee: Box::new(scrutinee.duplicate()),
                zero_body: Box::new(zero_body.duplicate()),
                succ_var: succ_var.clone(),
                succ_body: Box::new(succ_body.duplicate()),
            },
            Self::Lam { param, param_ty, body } => Self::Lam {
                param: param.clone(),
                param_ty: param_ty.duplicate(),
                body: Box::new(body.duplicate()),
            },
            Self::App(f, a) => Self::App(Box::new(f.duplicate()), Box::new(a.duplicate())),
            Self::Let { var, expr, body } => Self::Let {
                var: var.clone(),
                expr: Box::new(expr.duplicate()),
                body: Box::new(body.duplicate()),
            },
            Self::Fix { func, param, param_ty, body, tag } => Self::Fix {
                func: func.clone(),
                param: param.clone(),
                param_ty: param_ty.duplicate(),
                body: Box::new(body.duplicate()),
                tag: *tag,
            },
            Self::FixGroup { bindings, entry } => Self::FixGroup {
                bindings: duplicate_bindings(bindings),
                entry: entry.clone(),
            },
            Self::Perform(l, a) => Self::Perform(*l, Box::new(a.duplicate())),
            Self::Handle { body, handler } => Self::Handle {
                body: Box::new(body.duplicate()),
                handler: handler.duplicate(),
            },
            Self::Resume { kont, arg } => Self::Resume {
                kont: Box::new(kont.duplicate()),
                arg: Box::new(arg.duplicate()),
            },
            Self::Cont(id) => Self::Cont(*id),
        }
    }

    /// Substitution `self[name := replacement]` as used by β, let, unfold, case, H-return
    /// and H-op.
    pub fn subst(&self, name: &str, replacement: &Self) -> (r: Self)
        ensures
            r@ == subst_m(self@, name@, replacement@),
        decreases self, 0nat,
    {
        match self {
            Self::Var(var) => {
                if str_eq(var.as_str(), name) {
                    replacement.duplicate()
                } else {
                    self.duplicate()
                }
            },
            Self::Unit | Self::Zero | Self::Cont(_) | Self::Array(_) => self.duplicate(),
            Self::Succ(inner) => Self::Succ(Box::new(inner.subst(name, replacement))),
            Self::MkArray(len, fill) => Self::MkArray(
                Box::new(len.subst(name, replacement)),
                Box::new(fill.subst(name, replacement)),
            ),
            Self::ArrayGet(array, index) => Self::ArrayGet(
                Box::new(array.subst(name, replacement)),
                Box::new(index.subst(name, replacement)),
            ),
            Self::ArraySet(array, index, value) => Self::ArraySet(
                Box::new(array.subst(name, replacement)),
                Box::new(index.subst(name, replacement)),
                Box::new(value.subst(name, replacement)),
            ),
            Self::ArrayLen(array) => Self::ArrayLen(Box::new(array.subst(name, replacement))),
            Self::Move(inner) => Self::Move(Box::new(inner.subst(name, replacement))),
            Self::Inplace(inner) => Self::Inplace(Box::new(inner.subst(name, replacement))),
            Self::Freeze(inner) => Self::Freeze(Box::new(inner.subst(name, replacement))),
            Self::Mark(tag, inner) => Self::Mark(*tag, Box::new(inner.subst(name, replacement))),
            Self::CaseNat { scrutinee, zero_body, succ_var, succ_body } => Self::CaseNat {
                scrutinee: Box::new(scrutinee.subst(name, replacement)),
                zero_body: Box::new(zero_body.subst(name, replacement)),
                succ_var: succ_var.clone(),
                succ_body: if str_eq(succ_var.as_str(), name) {
                    Box::new(succ_body.duplicate())
                } else {
                    Box::new(succ_body.subst(name, replacement))
                },
            },
            Self::Lam { param, param_ty, body } => {
                if str_eq(param.as_str(), name) {
                    self.duplicate()
                } else {
                    Self::Lam {
                        param: param.clone(),
                        param_ty: param_ty.duplicate(),
                        body: Box::new(body.subst(name, replacement)),
                    }
                }
            },
            Self::App(fun, arg) => Self::App(
                Box::new(fun.subst(name, replacement)),
                Box::new(arg.subst(name, replacement)),
            ),
            Self::Let { var, expr, body } => Self::Let {
                var: var.clone(),
                expr: Box::new(expr.subst(name, replacement)),
                body: if str_eq(var.as_str(), name) {
                    Box::new(body.duplicate())
                } else {
                    Box::new(body.subst(name, replacement))
                },
            },
            Self::Fix { func, param, param_ty, body, tag } => {
                if str_eq(func.as_str(), name) || str_eq(param.as_str(), name) {
                    self.duplicate()
                } else {
                    Self::Fix {
                        func: func.clone(),
                        param: param.clone(),
                        param_ty: param_ty.duplicate(),
                        body: Box::new(body.subst(name, replacement)),
                        tag: *tag,
                    }
                }
            },
            Self::FixGroup { bindings, entry } => {
                if binds_name(bindings, name) {
                    self.duplicate()
                } else {
                    Self::FixGroup {
                        bindings: subst_bindings(bindings, name, replacement),
                        entry: entry.clone(),
                    }
                }
            },
            Self::Perform(label, arg) => Self::Perform(
                *label,
                Box::new(arg.subst(name, replacement)),
            ),
            Self::Handle { body, handler } => Self::Handle {
                body: Box::new(body.subst(name, replacement)),
                handler: handler.subst(name, replacement),
            },
            Self::Resume { kont, arg } => Self::Resume {
                kont: Box::new(kont.subst(name, replacement)),
                arg: Box::new(arg.subst(name, replacement)),
            },
        }
    }

    /// Every runtime continuation id replaced by `κ0`, so determinism comparisons see
    /// structure rather than allocation numbers.
    pub fn normalize_cont_ids(&self) -> (r: Self)
        ensures
            r@ == normalize_m(self@),
        decreases self, 0nat,
    {
        match self {
            Self::Cont(_) => Self::Cont(ContId(0)),
            Self::Var(_) | Self::Unit | Self::Zero | Self::Array(_) => self.duplicate(),
            Self::Succ(inner) => Self::Succ(Box::new(inner.normalize_cont_ids())),
            Self::MkArray(len, fill) => Self::MkArray(
                Box::new(len.normalize_cont_ids()),
                Box::new(fill.normalize_cont_ids()),
            ),
            Self::ArrayGet(array, index) => Self::ArrayGet(
                Box::new(array.normalize_cont_ids()),
                Box::new(index.normalize_cont_ids()),
            ),
            Self::ArraySet(array, index, value) => Self::ArraySet(
                Box::new(array.normalize_cont_ids()),
                Box::new(index.normalize_cont_ids()),
                Box::new(value.normalize_cont_ids()),
            ),
            Self::ArrayLen(array) => Self::ArrayLen(Box::new(array.normalize_cont_ids())),
            Self::Move(inner) => Self::Move(Box::new(inner.normalize_cont_ids())),
            Self::Inplace(inner) => Self::Inplace(Box::new(inner.normalize_cont_ids())),
            Self::Freeze(inner) => Self::Freeze(Box::new(inner.normalize_cont_ids())),
            Self::Mark(tag, inner) => Self::Mark(*tag, Box::new(inner.normalize_cont_ids())),
            Self::CaseNat { scrutinee, zero_body, succ_var, succ_body } => Self::CaseNat {
                scrutinee: Box::new(scrutinee.normalize_cont_ids()),
                zero_body: Box::new(zero_body.normalize_cont_ids()),
                succ_var: succ_var.clone(),
                succ_body: Box::new(succ_body.normalize_cont_ids()),
            },
            Self::Lam { param, param_ty, body } => Self::Lam {
                param: param.clone(),
                param_ty: param_ty.duplicate(),
                body: Box::new(body.normalize_cont_ids()),
            },
            Self::App(fun, arg) => Self::App(
                Box::new(fun.normalize_cont_ids()),
                Box::new(arg.normalize_cont_ids()),
            ),
            Self::Let { var, expr, body } => Self::Let {
                var: var.clone(),
                expr: Box::new(expr.normalize_cont_ids()),
                body: Box::new(body.normalize_cont_ids()),
            },
            Self::Fix { func, param, param_ty, body, tag } => Self::Fix {
                func: func.clone(),
                param: param.clone(),
                param_ty: param_ty.duplicate(),
                body: Box::new(body.normalize_cont_ids()),
                tag: *tag,
            },
            Self::FixGroup { bindings, entry } => Self::FixGroup {
                bindings: normalize_bindings(bindings),
                entry: entry.clone(),
            },
            Self::Perform(label, arg) => Self::Perform(
                *label,
                Box::new(arg.normalize_cont_ids()),
            ),
            Self::Handle { body, handler } => Self::Handle {
                body: Box::new(body.normalize_cont_ids()),
                handler: handler.normalize_cont_ids(),
            },
            Self::Resume { kont, arg } => Self::Resume {
                kont: Box::new(kont.normalize_cont_ids()),
                arg: Box::new(arg.normalize_cont_ids()),
            },
        }
    }
}

/// Whether some binding of the group is named `name`.
fn binds_name(bindings: &Vec<FixBinding>, name: &str) -> (r: bool)
    ensures
        r == group_binds(bindings_view(bindings@), name@),
{
    proof {
        lemma_bindings_view(bindings@);
    }
    let mut i: usize = 0;
    while i < bindings.len()
        invariant
            i <= bindings@.len(),
            bindings_view(bindings@).len() == bindings@.len(),
            forall|j: int| 0 <= j < bindings@.len() ==> #[trigger] bindings_view(bindings@)[j]
                == binding_view(bindings@[j]),
            forall|j: int| 0 <= j < i ==> bindings@[j].func@ != name@,
        decreases bindings@.len() - i,
    {
        if str_eq(bindings[i].func.as_str(), name) {
            assert(bindings_view(bindings@)[i as int].func == name@);
            return true;
        }
        i += 1;
    }
    proof {
        assert forall|j: int| 0 <= j < bindings@.len() implies #[trigger] bindings_view(
            bindings@,
        )[j].func != name@ by {
            assert(bindings_view(bindings@)[j] == binding_view(bindings@[j]));
        }
    }
    false
}

fn duplicate_terms(v: &Vec<Term>) -> (r: Vec<Term>)
    ensures
        terms_view(r@) == terms_view(v@),
    decreases v, 1nat,
{
    let mut out: Vec<Term> = Vec::new();
    let mut i: usize = 0;
    while i < v.len()
        invariant
            i <= v@.len(),
            terms_view(out@) == terms_view(v@.subrange(0, i as int)),
        decreases v@.len() - i,
    {
        proof {
            assert(decreases_to!(v => v@));
            assert(decreases_to!(v@ => v@[i as int]));
        }
        let t = v[i].duplicate();
        let ghost before = out@;
        out.push(t);
        proof {
            assert(out@.drop_last() =~= before);
            assert(v@.subrange(0, i + 1).drop_last() =~= v@.subrange(0, i as int));
        }
        i += 1;
    }
    assert(v@.subrange(0, v@.len() as int) =~= v@);
    out
}

fn duplicate_bindings(v: &Vec<FixBinding>) -> (r: Vec<FixBinding>)
    ensures
        bindings_view(r@) == bindings_view(v@),
    decreases v, 1nat,
{
    let mut out: Vec<FixBinding> = Vec::new();
    let mut i: usize = 0;
    while i < v.len()
        invariant
            i <= v@.len(),
            bindings_view(out@) == bindings_view(v@.subrange(0, i as int)),
        decreases v@.len() - i,
    {
        proof {
            assert(decreases_to!(v => v@));
            assert(decreases_to!(v@ => v@[i as int]));
        }
        let b = v[i].duplicate();
        let ghost before = out@;
        out.push(b);
        proof {
            assert(out@.drop_last() =~= before);
            assert(v@.subrange(0, i + 1).drop_last() =~= v@.subrange(0, i as int));
        }
        i += 1;
    }
    assert(v@.subrange(0, v@.len() as int) =~= v@);
    out
}

fn duplicate_clauses(v: &Vec<OpClause>) -> (r: Vec<OpClause>)
    ensures
        clauses_view(r@) == clauses_view(v@),
    decreases v, 1nat,
{
    let mut out: Vec<OpClause> = Vec::new();
    let mut i: usize = 0;
    while i < v.len()
        invariant
            i <= v@.len(),
            clauses_view(out@) == clauses_view(v@.subrange(0, i as int)),
        decreases v@.len() - i,
    {
        proof {
            assert(decreases_to!(v => v@));
            assert(decreases_to!(v@ => v@[i as int]));
        }
        let c = v[i].duplicate();
        let ghost before = out@;
        out.push(c);
        proof {
            assert(out@.drop_last() =~= before);
            assert(v@.subrange(0, i + 1).drop_last() =~= v@.subrange(0, i as int));
        }
        i += 1;
    }
    assert(v@.subrange(0, v@.len() as int) =~= v@);
    out
}

fn subst_bindings(v: &Vec<FixBinding>, name: &str, replacement: &Term) -> (r: Vec<FixBinding>)
    ensures
        bindings_view(r@) == bindings_subst_m(bindings_view(v@), name@, replacement@),
    decreases v, 1nat,
{
    let mut out: Vec<FixBinding> = Vec::new();
    let mut i: usize = 0;
    while i < v.len()
        invariant
            i <= v@.len(),
            bindings_view(out@) == bindings_subst_m(
                bindings_view(v@.subrange(0, i as int)),
                name@,
                replacement@,
            ),
        decreases v@.len() - i,
    {
        proof {
            assert(decreases_to!(v => v@));
            assert(decreases_to!(v@ => v@[i as int]));
        }
        let b = v[i].subst(name, replacement);
        let ghost before = out@;
        out.push(b);
        proof {
            assert(out@.drop_last() =~= before);
            let pre = v@.subrange(0, i as int);
            assert(v@.subrange(0, i + 1).drop_last() =~= pre);
            assert(bindings_view(v@.subrange(0, i + 1)).drop_last() =~= bindings_view(pre));
        }
        i += 1;
    }
    assert(v@.subrange(0, v@.len() as int) =~= v@);
    out
}

fn normalize_bindings(v: &Vec<FixBinding>) -> (r: Vec<FixBinding>)
    ensures
        bindings_view(r@) == bindings_normalize_m(bindings_view(v@)),
    decreases v, 1nat,
{
    let mut out: Vec<FixBinding> = Vec::new();
    let mut i: usize = 0;
    while i < v.len()
        invariant
            i <= v@.len(),
            bindings_view(out@) == bindings_normalize_m(bindings_view(v@.subrange(0, i as int))),
        decreases v@.len() - i,
    {
        proof {
            assert(decreases_to!(v => v@));
            assert(decreases_to!(v@ => v@[i as int]));
        }
        let b = v[i].normalize_cont_ids();
        let ghost before = out@;
        out.push(b);
        proof {
            assert(out@.drop_last() =~= before);
            let pre = v@.subrange(0, i as int);
            assert(v@.subrange(0, i + 1).drop_last() =~= pre);
            assert(bindings_view(v@.subrange(0, i + 1)).drop_last() =~= bindings_view(pre));
        }
        i += 1;
    }
    assert(v@.subrange(0, v@.len() as int) =~= v@);
    out
}

fn subst_clauses(v: &Vec<OpClause>, name: &str, replacement: &Term) -> (r: Vec<OpClause>)
    ensures
        clauses_view(r@) == clauses_subst_m(clauses_view(v@), name@, replacement@),
    decreases v, 1nat,
{
    let mut out: Vec<OpClause> = Vec::new();
    let mut i: usize = 0;
    while i < v.len()
        invariant
            i <= v@.len(),
            clauses_view(out@) == clauses_subst_m(
                clauses_view(v@.subrange(0, i as int)),
                name@,
                replacement@,
            ),
        decreases v@.len() - i,
    {
        proof {
            assert(decreases_to!(v => v@));
            assert(decreases_to!(v@ => v@[i as int]));
        }
        let c = v[i].subst(name, replacement);
        let ghost before = out@;
        out.push(c);
        proof {
            assert(out@.drop_last() =~= before);
            let pre = v@.subrange(0, i as int);
            assert(v@.subrange(0, i + 1).drop_last() =~= pre);
            assert(clauses_view(v@.subrange(0, i + 1)).drop_last() =~= clauses_view(pre));
        }
        i += 1;
    }
    assert(v@.subrange(0, v@.len() as int) =~= v@);
    out
}

fn normalize_clauses(v: &Vec<OpClause>) -> (r: Vec<OpClause>)
    ensures
        clauses_view(r@) == clauses_normalize_m(clauses_view(v@)),
    decreases v, 1nat,
{
    let mut out: Vec<OpClause> = Vec::new();
    let mut i: usize = 0;
    while i < v.len()
        invariant
            i <= v@.len(),
            clauses_view(out@) == clauses_normalize_m(clauses_view(v@.subrange(0, i as int))),
        decreases v@.len() - i,
    {
        proof {
            assert(decreases_to!(v => v@));
            assert(decreases_to!(v@ => v@[i as int]));
        }
        let c = v[i].normalize_cont_ids();
        let ghost before = out@;
        out.push(c);
        proof {
            assert(out@.drop_last() =~= before);
            let pre = v@.subrange(0, i as int);
            assert(v@.subrange(0, i + 1).drop_last() =~= pre);
            assert(clauses_view(v@.subrange(0, i + 1)).drop_last() =~= clauses_view(pre));
        }
        i += 1;
    }
    assert(v@.subrange(0, v@.len() as int) =~= v@);
    out
}

impl Clone for FixBinding {
    fn clone(&self) -> (r: Self)
        ensures
            r@ == self@,
    {
        self.duplicate()
    }
}

impl FixBinding {
    pub fn duplicate(&self) -> (r: Self)
        ensures
            r@ == self@,
        decreases self, 0nat,
    {
        Self {
            func: self.func.clone(),
            param: self.param.clone(),
            param_ty: self.param_ty.duplicate(),
            body: Box::new(self.body.duplicate()),
            tag: self.tag,
        }
    }

    pub fn subst(&self, name: &str, replacement: &Term) -> (r: Self)
        ensures
            r@ == binding_subst_m(self@, name@, replacement@),
        decreases self, 0nat,
    {
        let body = if str_eq(self.func.as_str(), name) || str_eq(self.param.as_str(), name) {
            Box::new(self.body.duplicate())
        } else {
            Box::new(self.body.subst(name, replacement))
        };
        Self {
            func: self.func.clone(),
            param: self.param.clone(),
            param_ty: self.param_ty.duplicate(),
            body,
            tag: self.tag,
        }
    }

    pub fn normalize_cont_ids(&self) -> (r: Self)
        ensures
            r@ == binding_normalize_m(self@),
        decreases self, 0nat,
    {
        Self {
            func: self.func.clone(),
            param: self.param.clone(),
            param_ty: self.param_ty.duplicate(),
            body: Box::new(self.body.normalize_cont_ids()),
            tag: self.tag,
        }
    }
}

impl Clone for Handler {
    fn clone(&self) -> (r: Self)
        ensures
            r@ == self@,
    {
        self.duplicate()
    }
}

impl Handler {
    /// A handler with one operation clause.
    pub fn single(return_var: Name, return_body: Box<Term>, clause: OpClause) -> (r: Self)
        ensures
            r.return_var == return_var,
            r.return_body == return_body,
            r.clauses@ == seq![clause],
    {
        let mut clauses = Vec::new();
        clauses.push(clause);
        Self { return_var, return_body, clauses }
    }

    /// The first clause handling `label`.
    #[verifier::rlimit(30)]
    pub fn clause_for(&self, label: Label) -> (r: Option<&OpClause>)
        ensures
            match first_clause(self@.clauses, label@) {
                Some(i) => r == Some(&self.clauses@[i]),
                None => r is None,
            },
    {
        let ghost cm = self@.clauses;
        proof {
            lemma_clauses_view(self.clauses@);
            lemma_first_clause(cm, label@);
        }
        let mut i: usize = 0;
        while i < self.clauses.len()
            invariant
                i <= self.clauses@.len(),
                cm == clauses_view(self.clauses@),
                cm.len() == self.clauses@.len(),
                forall|j: int| 0 <= j < cm.len() ==> #[trigger] cm[j] == clause_view(
                    self.clauses@[j],
                ),
                forall|j: int| 0 <= j < i ==> (#[trigger] cm[j]).op_label != label@,
            decreases self.clauses@.len() - i,
        {
            if self.clauses[i].op_label.same(&label) {
                proof {
                    assert(cm[i as int].op_label == label@);
                    lemma_first_clause(cm, label@);
                    match first_clause(cm, label@) {
                        Some(k) => {
                            if k < i {
                                assert(cm[k].op_label != label@);
                            }
                            if k > i {
                                assert(cm[i as int].op_label != label@);
                            }
                        },
                        None => {
                            assert(cm[i as int].op_label != label@);
                        },
                    }
                }
                return Some(&self.clauses[i]);
            }
            i += 1;
        }
        proof {
            lemma_first_clause(cm, label@);
            if let Some(k) = first_clause(cm, label@) {
                assert(cm[k].op_label != label@);
            }
        }
        None
    }

    pub fn duplicate(&self) -> (r: Self)
        ensures
            r@ == self@,
        decreases self, 0nat,
    {
        Self {
            return_var: self.return_var.clone(),
            return_body: Box::new(self.return_body.duplicate()),
            clauses: duplicate_clauses(&self.clauses),
        }
    }

    pub fn subst(&self, name: &str, replacement: &Term) -> (r: Self)
        ensures
            r@ == handler_subst_m(self@, name@, replacement@),
        decreases self, 0nat,
    {
        let return_body = if str_eq(self.return_var.as_str(), name) {
            Box::new(self.return_body.duplicate())
        } else {
            Box::new(self.return_body.subst(name, replacement))
        };
        let clauses = subst_clauses(&self.clauses, name, replacement);
        Self { return_var: self.return_var.clone(), return_body, clauses }
    }

    pub fn normalize_cont_ids(&self) -> (r: Self)
        ensures
            r@ == handler_normalize_m(self@),
        decreases self, 0nat,
    {
        Self {
            return_var: self.return_var.clone(),
            return_body: Box::new(self.return_body.normalize_cont_ids()),
            clauses: normalize_clauses(&self.clauses),
        }
    }
}

impl Clone for OpClause {
    fn clone(&self) -> (r: Self)
        ensures
            r@ == self@,
    {
        self.duplicate()
    }
}

impl OpClause {
    pub fn duplicate(&self) -> (r: Self)
        ensures
            r@ == self@,
        decreases self, 0nat,
    {
        Self {
            op_label: self.op_label,
            op_param: self.op_param.clone(),
            op_k: self.op_k.clone(),
            op_body: Box::new(self.op_body.duplicate()),
        }
    }

    pub fn subst(&self, name: &str, replacement: &Term) -> (r: Self)
        ensures
            r@ == clause_subst_m(self@, name@, replacement@),
        decreases self, 0nat,
    {
        let op_body = if str_eq(self.op_param.as_str(), name) || str_eq(self.op_k.as_str(), name) {
            Box::new(self.op_body.duplicate())
        } else {
            Box::new(self.op_body.subst(name, replacement))
        };
        Self {
            op_label: self.op_label,
            op_param: self.op_param.clone(),
            op_k: self.op_k.clone(),
            op_body,
        }
    }

    pub fn normalize_cont_ids(&self) -> (r: Self)
        ensures
            r@ == clause_normalize_m(self@),
        decreases self, 0nat,
    {
        Self {
            op_label: self.op_label,
            op_param: self.op_param.clone(),
            op_k: self.op_k.clone(),
            op_body: Box::new(self.op_body.normalize_cont_ids()),
        }
    }
}

// ---------------------------------------------------------------------------------------
// Witnesses.
#[derive(Debug, Clone, Copy, PartialEq, Eq, Structural)]
pub struct ContinuationUseFacts {
    pub introduced: u32,
    pub resumed: u32,
    pub dropped: u32,
}

/// A finite set of coverage tags.
#[derive(Debug, Clone, Copy, PartialEq, Eq, Default, Structural)]
pub struct CoverageSet {
    bits: u32,
}

/// Position of a tag in a coverage set.
pub open spec fn tag_index(tag: CoverageTag) -> u32 {
    match tag {
        CoverageTag::LambdaApp => 0,
        CoverageTag::Let => 1,
        CoverageTag::FixStructural => 2,
        CoverageTag::FixMeasure => 3,
        CoverageTag::Perform => 4,
        CoverageTag::HandleResuming => 5,
        CoverageTag::HandleDropped => 6,
        CoverageTag::Array => 7,
        CoverageTag::RecordAggregate => 8,
        CoverageTag::VariantAggregate => 9,
        CoverageTag::DestructureConsume => 10,
        CoverageTag::RecordFunctionalUpdate => 11,
        CoverageTag::RecordInplaceUpdate => 12,
        CoverageTag::ConstructorPatternDescent => 13,
    }
}

fn tag_bit(tag: CoverageTag) -> (r: u32)
    ensures
        r == tag_index(tag),
{
    match tag {
        CoverageTag::LambdaApp => 0,
        CoverageTag::Let => 1,
        CoverageTag::FixStructural => 2,
        CoverageTag::FixMeasure => 3,
        CoverageTag::Perform => 4,
        CoverageTag::HandleResuming => 5,
        CoverageTag::HandleDropped => 6,
        CoverageTag::Array => 7,
        CoverageTag::RecordAggregate => 8,
        CoverageTag::VariantAggregate => 9,
        CoverageTag::DestructureConsume => 10,
        CoverageTag::RecordFunctionalUpdate => 11,
        CoverageTag::RecordInplaceUpdate => 12,
        CoverageTag::ConstructorPatternDescent => 13,
    }
}

/// The position of `tag` among the coverage tags.
pub fn coverage_position(tag: CoverageTag) -> (r: usize)
    ensures
        r == tag_index(tag),
{
    tag_bit(tag) as usize
}

pub open spec fn bit_set(bits: u32, i: u32) -> bool {
    (bits >> i) & 1u32 == 1u32
}

proof fn lemma_bits(a: u32, b: u32, i: u32, j: u32)
    requires
        i < 32,
        j < 32,
    ensures
        bit_set(a | b, j) == (bit_set(a, j) || bit_set(b, j)),
        bit_set(a | (1u32 << i), j) == (i == j || bit_set(a, j)),
        !bit_set(0u32, j),
{
    assert(((a | b) >> j) & 1u32 == 1u32 <==> ((a >> j) & 1u32 == 1u32 || (b >> j) & 1u32 == 1u32))
        by (bit_vector)
        requires
            j < 32,
    ;
    assert(((a | (1u32 << i)) >> j) & 1u32 == 1u32 <==> (i == j || (a >> j) & 1u32 == 1u32))
        by (bit_vector)
        requires
            i < 32,
            j < 32,
    ;
    assert((0u32 >> j) & 1u32 != 1u32) by (bit_vector);
}

impl View for CoverageSet {
    type V = Set<CoverageTag>;

    closed spec fn view(&self) -> Set<CoverageTag> {
        Set::new(|t: CoverageTag| bit_set(self.bits, tag_index(t)))
    }
}

impl CoverageSet {
    pub fn new() -> (r: Self)
        ensures
            r@ == Set::<CoverageTag>::empty(),
    {
        let r = Self { bits: 0 };
        proof {
            assert forall|t: CoverageTag| !r@.contains(t) by {
                lemma_bits(0, 0, 0, tag_index(t));
            }
            assert(r@ =~= Set::<CoverageTag>::empty());
        }
        r
    }

    pub fn insert(&mut self, tag: CoverageTag)
        ensures
            final(self)@ == old(self)@.insert(tag),
    {
        let bit = tag_bit(tag);
        let ghost before = self.bits;
        self.bits = self.bits | (1u32 << bit);
        proof {
            assert forall|t: CoverageTag| #[trigger] self@.contains(t) == old(self)@.insert(
                tag,
            ).contains(t) by {
                lemma_bits(before, 0, bit, tag_index(t));
            }
            assert(self@ =~= old(self)@.insert(tag));
        }
    }

    pub fn contains(&self, tag: CoverageTag) -> (r: bool)
        ensures
            r == self@.contains(tag),
    {
        (self.bits >> tag_bit(tag)) & 1u32 == 1u32
    }

    /// Adds every tag of `other`.
    pub fn extend(&mut self, other: &Self)
        ensures
            final(self)@ == old(self)@.union(other@),
    {
        let ghost before = self.bits;
        self.bits = self.bits | other.bits;
        proof {
            assert forall|t: CoverageTag| #[trigger] self@.contains(t) == old(self)@.union(
                other@,
            ).contains(t) by {
                lemma_bits(before, other.bits, 0, tag_index(t));
            }
            assert(self@ =~= old(self)@.union(other@));
        }
    }
}

#[derive(Debug, Clone, PartialEq, Eq)]
pub struct Witness {
    pub ty: Type,
    pub effects: Eff,
    pub bound: Bound,
    pub region: Region,
    pub continuation_uses: ContinuationUseFacts,
    pub divergence: Divergence,
    pub coverage: CoverageSet,
}

/// Model of a witness.
pub struct WitnessM {
    pub ty: Type,
    pub effects: Set<Seq<char>>,
    pub bound: Bound,
    pub region: Region,
    pub uses: ContinuationUseFacts,
    pub divergence: Divergence,
    pub coverage: Set<CoverageTag>,
}

impl View for Witness {
    type V = WitnessM;

    open spec fn view(&self) -> WitnessM {
        WitnessM {
            ty: self.ty,
            effects: self.effects@,
            bound: self.bound,
            region: self.region,
            uses: self.continuation_uses,
            divergence: self.divergence,
            coverage: self.coverage@,
        }
    }
}

#[derive(Debug, Clone, Copy, PartialEq, Eq, Structural)]
pub enum ExpectedOutcome {
    Safe,
    UnhandledOperation,
}

#[derive(Debug, Clone, PartialEq, Eq, Default, Structural)]
pub struct GenerationFacts {
    pub depth: usize,
    pub nested_handlers: bool,
    pub strict_rec_calls: usize,
    pub non_strict_rec_calls: usize,
}

#[derive(Debug, Clone, PartialEq, Eq)]
pub struct GeneratedTerm {
    pub term: Term,
    pub witness: Witness,
    pub name: &'static str,
    pub expected: ExpectedOutcome,
    pub facts: GenerationFacts,
}

} // verus!
