//! The graded typing relation, as a function from a term, an environment and the
//! constraint system built so far to a partial witness (or a type error) and the extended
//! system.
//!
//! `infer_m` fixes, case by case, the type, effect row, boundedness expression,
//! continuation-use facts, divergence and coverage of a term, the error (rule, section,
//! rejected term, message and kind) of an ill-typed one, and the unknowns and constraints
//! that recursion binders add to the system.  The executable checker computes exactly it.

use vstd::prelude::*;

use crate::check::error::{mismatch_text, TypeErrorKindM, TypeErrorM};
use crate::check::solve::{BoundExpr, Constraint, UnknownId};
use crate::core_ast::{
    group_binds, ContinuationUseFacts, CoverageTag, Divergence, FixBindingM, OpClauseM,
    RecursionTag, TermM, Type,
};
use crate::core_text::{term_text, type_text};
use crate::grade::{Bound, Region};
use crate::text::decimal_m;

verus! {

broadcast use vstd::seq::group_seq_axioms;

/// The recursion context of a `fix` / `fix*` member.
pub struct RecM {
    pub func: Seq<char>,
    pub param: Seq<char>,
    pub tag: RecursionTag,
    pub strict_var: Option<Seq<char>>,
    pub unknown: UnknownId,
}

/// Typing environment: variables (latest binding last), continuation variables, the
/// recursion member being checked and its whole group.
pub struct EnvM {
    pub vars: Seq<(Seq<char>, Type)>,
    pub cont_vars: Set<Seq<char>>,
    pub rec: Option<RecM>,
    pub recs: Seq<RecM>,
}

/// A witness whose boundedness is still an expression over solver unknowns.
pub struct PartialM {
    pub ty: Type,
    pub effects: Set<Seq<char>>,
    pub bound: BoundExpr,
    pub region: Region,
    pub uses: ContinuationUseFacts,
    pub divergence: Divergence,
    pub coverage: Set<CoverageTag>,
}

/// The constraint system: unknowns allocated and constraints recorded, in order.
pub struct SysM {
    pub unknowns: nat,
    pub constraints: Seq<Constraint>,
}

pub type InferM = (Result<PartialM, TypeErrorM>, SysM);

pub open spec fn empty_env() -> EnvM {
    EnvM { vars: Seq::empty(), cont_vars: Set::empty(), rec: None, recs: Seq::empty() }
}

pub open spec fn sat_add(a: u32, b: u32) -> u32 {
    if a + b > u32::MAX {
        u32::MAX
    } else {
        (a + b) as u32
    }
}

pub open spec fn one() -> BoundExpr {
    BoundExpr::Const(Bound::Finite(1))
}

pub open spec fn add_m(a: BoundExpr, b: BoundExpr) -> BoundExpr {
    BoundExpr::Add(Box::new(a), Box::new(b))
}

pub open spec fn join_m(a: BoundExpr, b: BoundExpr) -> BoundExpr {
    BoundExpr::Join(Box::new(a), Box::new(b))
}

pub open spec fn nat_arrow_m(ret: Type) -> Type {
    Type::Arrow(Box::new(Type::Nat), Box::new(ret))
}

pub open spec fn nat_cont_m() -> Type {
    Type::Cont(Box::new(Type::Nat), Box::new(Type::Nat))
}

/// The witness of a closed, effect-free, allocation-free form of type `ty`.
pub open spec fn pure_m(ty: Type) -> PartialM {
    PartialM {
        ty,
        effects: Set::empty(),
        bound: BoundExpr::Const(Bound::Finite(0)),
        region: Region::Arena,
        uses: ContinuationUseFacts { introduced: 0, resumed: 0, dropped: 0 },
        divergence: Divergence::Terminates,
        coverage: Set::empty(),
    }
}

/// Sequential composition of two sub-derivations (the type is the left one's).
pub open spec fn combine_m(a: PartialM, b: PartialM) -> PartialM {
    PartialM {
        ty: a.ty,
        effects: a.effects.union(b.effects),
        bound: add_m(a.bound, b.bound),
        region: Region::Arena,
        uses: ContinuationUseFacts {
            introduced: sat_add(a.uses.introduced, b.uses.introduced),
            resumed: sat_add(a.uses.resumed, b.uses.resumed),
            dropped: sat_add(a.uses.dropped, b.uses.dropped),
        },
        divergence: if b.divergence == Divergence::Div {
            Divergence::Div
        } else {
            a.divergence
        },
        coverage: a.coverage.union(b.coverage),
    }
}

/// An effectful child costs one more frame.
pub open spec fn contextualize_m(p: PartialM) -> BoundExpr {
    if p.effects != Set::<Seq<char>>::empty() {
        add_m(p.bound, one())
    } else {
        p.bound
    }
}

#[verifier::opaque]
pub open spec fn err_m(
    rule: Seq<char>,
    section: Seq<char>,
    t: TermM,
    message: Seq<char>,
    kind: TypeErrorKindM,
) -> TypeErrorM {
    TypeErrorM { rule, section, term: term_text(t), message, kind }
}

/// `found` is accepted where `expected` is required (`Nat` and `Array` are compatible).
pub open spec fn compatible(found: Type, expected: Type) -> bool {
    ||| found == expected
    ||| (found == Type::Nat && expected == Type::Array)
    ||| (found == Type::Array && expected == Type::Nat)
}

pub open spec fn expect_m(
    found: Type,
    expected: Type,
    t: TermM,
    rule: Seq<char>,
    section: Seq<char>,
) -> Option<TypeErrorM> {
    if compatible(found, expected) {
        None
    } else {
        Some(
            err_m(
                rule,
                section,
                t,
                mismatch_text(expected, found),
                TypeErrorKindM::TypeMismatch { expected, found },
            ),
        )
    }
}

/// A successful derivation whose type must be accepted where `expected` is required.
pub open spec fn checked_m(
    r: Result<PartialM, TypeErrorM>,
    expected: Type,
    t: TermM,
    rule: Seq<char>,
    section: Seq<char>,
) -> Result<PartialM, TypeErrorM> {
    match r {
        Err(e) => Err(e),
        Ok(p) => match expect_m(p.ty, expected, t, rule, section) {
            Some(e) => Err(e),
            None => Ok(p),
        },
    }
}

pub open spec fn with_ty(p: PartialM, ty: Type) -> PartialM {
    PartialM { ty, ..p }
}

pub open spec fn with_cov(p: PartialM, tag: CoverageTag) -> PartialM {
    PartialM { coverage: p.coverage.insert(tag), ..p }
}

/// The latest binding of `name`.
pub open spec fn lookup_m(vars: Seq<(Seq<char>, Type)>, name: Seq<char>) -> Option<Type>
    decreases vars.len(),
{
    if vars.len() == 0 {
        None
    } else if vars.last().0 == name {
        Some(vars.last().1)
    } else {
        lookup_m(vars.drop_last(), name)
    }
}

/// The first recursion context of `func`.
pub open spec fn find_rec_m(recs: Seq<RecM>, func: Seq<char>) -> Option<RecM>
    decreases recs.len(),
{
    if recs.len() == 0 {
        None
    } else if recs[0].func == func {
        Some(recs[0])
    } else {
        find_rec_m(recs.drop_first(), func)
    }
}

pub open spec fn with_var_m(env: EnvM, name: Seq<char>, ty: Type) -> EnvM {
    EnvM { vars: env.vars.push((name, ty)), ..env }
}

pub open spec fn with_cont_m(env: EnvM, name: Seq<char>) -> EnvM {
    EnvM {
        vars: env.vars.push((name, nat_cont_m())),
        cont_vars: env.cont_vars.insert(name),
        ..env
    }
}

pub open spec fn with_rec_m(env: EnvM, rec: RecM) -> EnvM {
    EnvM {
        vars: env.vars.push((rec.func, nat_arrow_m(Type::Nat))).push((rec.param, Type::Nat)),
        rec: Some(rec),
        recs: seq![rec],
        ..env
    }
}

/// Every member's function name, bound at `Nat -> Nat`.
pub open spec fn member_vars(recs: Seq<RecM>) -> Seq<(Seq<char>, Type)> {
    recs.map_values(|r: RecM| (r.func, nat_arrow_m(Type::Nat)))
}

pub open spec fn with_rec_group_m(
    env: EnvM,
    recs: Seq<RecM>,
    current: Seq<char>,
    param: Seq<char>,
) -> EnvM {
    EnvM {
        vars: (env.vars + member_vars(recs)).push((param, Type::Nat)),
        rec: find_rec_m(recs, current),
        recs,
        ..env
    }
}

pub open spec fn strict_rec(r: RecM, v: Seq<char>) -> RecM {
    RecM { strict_var: Some(v), ..r }
}

/// Marks `v` as the strict predecessor of the current member (in the group too).
pub open spec fn with_strict_var_m(env: EnvM, v: Seq<char>) -> EnvM {
    match env.rec {
        Some(rec) => EnvM {
            rec: Some(strict_rec(rec, v)),
            recs: env.recs.map_values(
                |g: RecM|
                    if g.func == rec.func {
                        strict_rec(g, v)
                    } else {
                        g
                    },
            ),
            ..env
        },
        None => env,
    }
}

/// The error reported when the system can take no further unknown.
pub open spec fn unknown_limit_err(t: TermM) -> TypeErrorM {
    err_m(
        "Fix"@,
        "§7.1"@,
        t,
        "too many recursion unknowns"@,
        TypeErrorKindM::Solver("unknown limit reached"@),
    )
}

/// Room for one more unknown (the solver needs the count to stay below `usize::MAX`).
pub open spec fn has_room(sys: SysM) -> bool {
    sys.unknowns + 1 < usize::MAX
}

pub open spec fn fresh_m(sys: SysM) -> SysM {
    SysM { unknowns: sys.unknowns + 1, ..sys }
}

pub open spec fn constrain_m(sys: SysM, target: UnknownId, expr: BoundExpr) -> SysM {
    SysM { constraints: sys.constraints.push(Constraint { target, expr }), ..sys }
}

/// Boundedness contributed by a recursion binder of the given tag.
pub open spec fn binder_bound(tag: RecursionTag, u: UnknownId) -> BoundExpr {
    match tag {
        RecursionTag::StructuralDescent => BoundExpr::Unknown(u),
        RecursionTag::Measure => join_m(BoundExpr::Unknown(u), one()),
        RecursionTag::Div => BoundExpr::Unknown(u),
    }
}

/// Constraint recorded for a recursion binder's unknown.
pub open spec fn binder_constraint(tag: RecursionTag, u: UnknownId, body: BoundExpr) -> BoundExpr {
    if tag == RecursionTag::Div {
        add_m(BoundExpr::Unknown(u), one())
    } else {
        body
    }
}

pub open spec fn tag_coverage(cov: Set<CoverageTag>, tag: RecursionTag) -> Set<CoverageTag> {
    match tag {
        RecursionTag::StructuralDescent => cov.insert(CoverageTag::FixStructural),
        RecursionTag::Measure => cov.insert(CoverageTag::FixMeasure),
        RecursionTag::Div => cov,
    }
}

// ---------------------------------------------------------------------------------------
// Continuation usage of handler clauses.
/// Free occurrences of `x` in `t`.
pub open spec fn free_count_m(t: TermM, x: Seq<char>) -> nat
    decreases t, 0nat,
{
    match t {
        TermM::Var(v) => if v == x {
            1
        } else {
            0
        },
        TermM::Unit | TermM::Zero | TermM::Cont(_) | TermM::Array(_) => 0,
        TermM::Succ(i) | TermM::Perform(_, i) | TermM::ArrayLen(i) | TermM::Move(i)
        | TermM::Inplace(i) | TermM::Freeze(i) | TermM::Mark(_, i) => free_count_m(*i, x),
        TermM::MkArray(a, b) | TermM::ArrayGet(a, b) => free_count_m(*a, x) + free_count_m(*b, x),
        TermM::ArraySet(a, b, c) => free_count_m(*a, x) + free_count_m(*b, x) + free_count_m(
            *c,
            x,
        ),
        TermM::Lam { param, body, .. } => if param != x {
            free_count_m(*body, x)
        } else {
            0
        },
        TermM::App(f, a) => free_count_m(*f, x) + free_count_m(*a, x),
        TermM::Resume { kont, arg } => free_count_m(*kont, x) + free_count_m(*arg, x),
        TermM::Let { var, expr, body } => free_count_m(*expr, x) + if var != x {
            free_count_m(*body, x)
        } else {
            0
        },
        TermM::Fix { func, param, body, .. } => if func != x && param != x {
            free_count_m(*body, x)
        } else {
            0
        },
        TermM::FixGroup { bindings, .. } => if !group_binds(bindings, x) {
            bindings_free_count_m(bindings, x)
        } else {
            0
        },
        TermM::CaseNat { scrutinee, zero_body, succ_var, succ_body } => free_count_m(
            *scrutinee,
            x,
        ) + free_count_m(*zero_body, x) + if succ_var != x {
            free_count_m(*succ_body, x)
        } else {
            0
        },
        TermM::Handle { body, handler } => free_count_m(*body, x) + (if handler.return_var != x {
            free_count_m(*handler.return_body, x)
        } else {
            0
        }) + clauses_free_count_m(handler.clauses, x),
    }
}

pub open spec fn bindings_free_count_m(s: Seq<FixBindingM>, x: Seq<char>) -> nat
    decreases s, 0nat,
{
    if s.len() == 0 {
        0
    } else {
        bindings_free_count_m(s.drop_last(), x) + if s.last().param != x {
            free_count_m(*s.last().body, x)
        } else {
            0
        }
    }
}

pub open spec fn clauses_free_count_m(s: Seq<OpClauseM>, x: Seq<char>) -> nat
    decreases s, 0nat,
{
    if s.len() == 0 {
        0
    } else {
        clauses_free_count_m(s.drop_last(), x) + if s.last().op_param != x && s.last().op_k != x {
            free_count_m(*s.last().op_body, x)
        } else {
            0
        }
    }
}

/// `resume` sites whose continuation is exactly the variable `x`.
pub open spec fn resume_count_m(t: TermM, x: Seq<char>) -> nat
    decreases t, 0nat,
{
    match t {
        TermM::Resume { kont, arg } => {
            let here: nat = if *kont == TermM::Var(x) {
                1
            } else {
                0
            };
            let nested: nat = if here == 0 {
                resume_count_m(*kont, x)
            } else {
                0
            };
            here + nested + resume_count_m(*arg, x)
        },
        TermM::Var(_) | TermM::Unit | TermM::Zero | TermM::Cont(_) | TermM::Array(_) => 0,
        TermM::Succ(i) | TermM::Perform(_, i) | TermM::ArrayLen(i) | TermM::Move(i)
        | TermM::Inplace(i) | TermM::Freeze(i) | TermM::Mark(_, i) => resume_count_m(*i, x),
        TermM::MkArray(a, b) | TermM::ArrayGet(a, b) => resume_count_m(*a, x) + resume_count_m(
            *b,
            x,
        ),
        TermM::ArraySet(a, b, c) => resume_count_m(*a, x) + resume_count_m(*b, x)
            + resume_count_m(*c, x),
        TermM::Lam { param, body, .. } => if param != x {
            resume_count_m(*body, x)
        } else {
            0
        },
        TermM::App(f, a) => resume_count_m(*f, x) + resume_count_m(*a, x),
        TermM::Let { var, expr, body } => resume_count_m(*expr, x) + if var != x {
            resume_count_m(*body, x)
        } else {
            0
        },
        TermM::Fix { func, param, body, .. } => if func != x && param != x {
            resume_count_m(*body, x)
        } else {
            0
        },
        TermM::FixGroup { bindings, .. } => if !group_binds(bindings, x) {
            bindings_resume_count_m(bindings, x)
        } else {
            0
        },
        TermM::CaseNat { scrutinee, zero_body, succ_var, succ_body } => resume_count_m(
            *scrutinee,
            x,
        ) + resume_count_m(*zero_body, x) + if succ_var != x {
            resume_count_m(*succ_body, x)
        } else {
            0
        },
        TermM::Handle { body, handler } => resume_count_m(*body, x) + (if handler.return_var != x {
            resume_count_m(*handler.return_body, x)
        } else {
            0
        }) + clauses_resume_count_m(handler.clauses, x),
    }
}

pub open spec fn bindings_resume_count_m(s: Seq<FixBindingM>, x: Seq<char>) -> nat
    decreases s, 0nat,
{
    if s.len() == 0 {
        0
    } else {
        bindings_resume_count_m(s.drop_last(), x) + if s.last().param != x {
            resume_count_m(*s.last().body, x)
        } else {
            0
        }
    }
}

pub open spec fn clauses_resume_count_m(s: Seq<OpClauseM>, x: Seq<char>) -> nat
    decreases s, 0nat,
{
    if s.len() == 0 {
        0
    } else {
        clauses_resume_count_m(s.drop_last(), x) + if s.last().op_param != x && s.last().op_k
            != x {
            resume_count_m(*s.last().op_body, x)
        } else {
            0
        }
    }
}

/// A count as a machine word (saturating at `usize::MAX`).
pub open spec fn capped(n: nat) -> usize {
    if n > usize::MAX {
        usize::MAX
    } else {
        n as usize
    }
}

/// How a handler clause uses its continuation: `Ok(true)` resumed exactly once,
/// `Ok(false)` dropped, or the reason it is rejected.
#[verifier::opaque]
pub open spec fn classify_m(body: TermM, k: Seq<char>) -> Result<bool, Seq<char>> {
    let m = capped(free_count_m(body, k));
    let d = capped(resume_count_m(body, k));
    if m == 0 && d == 0 {
        Ok(false)
    } else if m == 1 && d == 1 {
        Ok(true)
    } else if m == 0 {
        Err("resume count impossible without k mention"@)
    } else if d == 0 {
        Err("extra-mention: `"@ + k + "` appears free but is never directly resumed"@)
    } else {
        Err("one-resume-required: `"@ + k + "` has "@ + decimal_m(m as nat) + " free mentions and "@
            + decimal_m(d as nat) + " direct resumes"@)
    }
}

// ---------------------------------------------------------------------------------------
// The typing function.
/// Divergence of a `case`: a diverging scrutinee diverges; a literal scrutinee selects its
/// branch; otherwise both branches must diverge.
pub open spec fn case_divergence_m(
    scrutinee: TermM,
    sw: PartialM,
    zw: PartialM,
    cw: PartialM,
) -> Divergence {
    if sw.divergence == Divergence::Div {
        Divergence::Div
    } else {
        match scrutinee {
            TermM::Zero => zw.divergence,
            TermM::Succ(_) => cw.divergence,
            _ => if zw.divergence == Divergence::Div && cw.divergence == Divergence::Div {
                Divergence::Div
            } else {
                Divergence::Terminates
            },
        }
    }
}

/// The typing function, one case per syntactic form (`infer_leaf_m`, `infer_succ_m`, ...).
pub open spec fn infer_m(t: TermM, env: EnvM, sys: SysM) -> InferM
    decreases t, 2nat,
{
    match t {
        TermM::Unit | TermM::Zero | TermM::Array(_) | TermM::Cont(_) | TermM::Var(_) => infer_leaf_m(
            t,
            env,
            sys,
        ),
        TermM::Succ(_) => infer_succ_m(t, env, sys),
        TermM::MkArray(_, _) | TermM::ArrayGet(_, _) => infer_pair_m(t, env, sys),
        TermM::ArraySet(_, _, _) => infer_array_set_m(t, env, sys),
        TermM::ArrayLen(_) => infer_array_len_m(t, env, sys),
        TermM::Move(_) | TermM::Inplace(_) | TermM::Freeze(_) | TermM::Mark(_, _) => infer_marked_m(
            t,
            env,
            sys,
        ),
        TermM::Lam { .. } => infer_lam_m(t, env, sys),
        TermM::App(_, _) => infer_app_m(t, env, sys),
        TermM::Let { .. } => infer_let_m(t, env, sys),
        TermM::CaseNat { .. } => infer_case_m(t, env, sys),
        TermM::Fix { .. } => infer_fix_m(t, env, sys),
        TermM::FixGroup { .. } => infer_fix_group_m(t, env, sys),
        TermM::Perform(_, _) => infer_perform_m(t, env, sys),
        TermM::Handle { .. } => infer_handle_m(t, env, sys),
        TermM::Resume { .. } => infer_resume_m(t, env, sys),
    }
}

/// Constants, runtime values and variables.
pub open spec fn infer_leaf_m(t: TermM, env: EnvM, sys: SysM) -> InferM {
    match t {
        TermM::Unit => (Ok(pure_m(Type::Unit)), sys),
        TermM::Zero => (Ok(pure_m(Type::Nat)), sys),
        TermM::Array(_) => (Ok(pure_m(Type::Array)), sys),
        TermM::Cont(_) => (Ok(pure_m(nat_cont_m())), sys),
        TermM::Var(name) => (
            match lookup_m(env.vars, name) {
                Some(ty) => Ok(pure_m(ty)),
                None => Err(
                    err_m(
                        "Var"@,
                        "§4.1"@,
                        t,
                        "unbound variable `"@ + name + "`"@,
                        TypeErrorKindM::UnboundVariable(name),
                    ),
                ),
            },
            sys,
        ),
        _ => (Ok(pure_m(Type::Unit)), sys),
    }
}

pub open spec fn infer_succ_m(t: TermM, env: EnvM, sys: SysM) -> InferM
    decreases t, 1nat,
{
    match t {
        TermM::Succ(inner) => {
            let (r, s1) = infer_m(*inner, env, sys);
            (
                match checked_m(r, Type::Nat, t, "Succ"@, "§4.2"@) {
                    Ok(p) => Ok(PartialM { ty: Type::Nat, bound: contextualize_m(p), ..p }),
                    Err(e) => Err(e),
                },
                s1,
            )
        },
        _ => (Ok(pure_m(Type::Unit)), sys),
    }
}

pub open spec fn infer_pair_m(t: TermM, env: EnvM, sys: SysM) -> InferM
    decreases t, 1nat,
{
    match t {
        TermM::MkArray(len, fill) => {
            let (r1, s1) = infer_m(*len, env, sys);
            match checked_m(r1, Type::Nat, t, "MkArray"@, "§4.5.1"@) {
                Err(e) => (Err(e), s1),
                Ok(lw) => {
                    let (r2, s2) = infer_m(*fill, env, s1);
                    (
                        match checked_m(r2, Type::Nat, t, "MkArray"@, "§4.5.1"@) {
                            Err(e) => Err(e),
                            Ok(fw) => Ok(
                                with_cov(
                                    with_ty(combine_m(lw, fw), Type::Array),
                                    CoverageTag::Array,
                                ),
                            ),
                        },
                        s2,
                    )
                },
            }
        },
        TermM::ArrayGet(array, index) => {
            let (r1, s1) = infer_m(*array, env, sys);
            match checked_m(r1, Type::Array, t, "Array-Get"@, "§4.5.1"@) {
                Err(e) => (Err(e), s1),
                Ok(aw) => {
                    let (r2, s2) = infer_m(*index, env, s1);
                    (
                        match checked_m(r2, Type::Nat, t, "Array-Get"@, "§4.5.1"@) {
                            Err(e) => Err(e),
                            Ok(iw) => Ok(
                                with_cov(with_ty(combine_m(aw, iw), Type::Nat), CoverageTag::Array),
                            ),
                        },
                        s2,
                    )
                },
            }
        },
        _ => (Ok(pure_m(Type::Unit)), sys),
    }
}

pub open spec fn infer_array_len_m(t: TermM, env: EnvM, sys: SysM) -> InferM
    decreases t, 1nat,
{
    match t {
        TermM::ArrayLen(array) => {
            let (r, s1) = infer_m(*array, env, sys);
            (
                match checked_m(r, Type::Array, t, "Array-Len"@, "§4.5.1"@) {
                    Ok(p) => Ok(with_cov(with_ty(p, Type::Nat), CoverageTag::Array)),
                    Err(e) => Err(e),
                },
                s1,
            )
        },
        _ => (Ok(pure_m(Type::Unit)), sys),
    }
}

/// Ownership markers record array coverage; origin markers record their own tag.
pub open spec fn infer_marked_m(t: TermM, env: EnvM, sys: SysM) -> InferM
    decreases t, 1nat,
{
    match t {
        TermM::Move(inner) | TermM::Inplace(inner) | TermM::Freeze(inner) => {
            let (r, s1) = infer_m(*inner, env, sys);
            (
                match r {
                    Ok(p) => Ok(with_cov(p, CoverageTag::Array)),
                    Err(e) => Err(e),
                },
                s1,
            )
        },
        TermM::Mark(tag, inner) => {
            let (r, s1) = infer_m(*inner, env, sys);
            (
                match r {
                    Ok(p) => Ok(with_cov(p, tag)),
                    Err(e) => Err(e),
                },
                s1,
            )
        },
        _ => (Ok(pure_m(Type::Unit)), sys),
    }
}

pub open spec fn infer_lam_m(t: TermM, env: EnvM, sys: SysM) -> InferM
    decreases t, 1nat,
{
    match t {
        TermM::Lam { param, param_ty, body } => {
            let (r, s1) = infer_m(*body, with_var_m(env, param, param_ty), sys);
            (
                match r {
                    Ok(bw) => Ok(pure_m(Type::Arrow(Box::new(param_ty), Box::new(bw.ty)))),
                    Err(e) => Err(e),
                },
                s1,
            )
        },
        _ => (Ok(pure_m(Type::Unit)), sys),
    }
}

pub open spec fn infer_let_m(t: TermM, env: EnvM, sys: SysM) -> InferM
    decreases t, 1nat,
{
    match t {
        TermM::Let { var, expr, body } => {
            let (r1, s1) = infer_m(*expr, env, sys);
            match r1 {
                Err(e) => (Err(e), s1),
                Ok(ew) => {
                    let (r2, s2) = infer_m(*body, with_var_m(env, var, ew.ty), s1);
                    (
                        match r2 {
                            Err(e) => Err(e),
                            Ok(bw) => Ok(
                                with_cov(
                                    PartialM {
                                        ty: bw.ty,
                                        bound: add_m(contextualize_m(ew), bw.bound),
                                        ..combine_m(ew, bw)
                                    },
                                    CoverageTag::Let,
                                ),
                            ),
                        },
                        s2,
                    )
                },
            }
        },
        _ => (Ok(pure_m(Type::Unit)), sys),
    }
}

pub open spec fn infer_perform_m(t: TermM, env: EnvM, sys: SysM) -> InferM
    decreases t, 1nat,
{
    match t {
        TermM::Perform(label, arg) => {
            let (r, s1) = infer_m(*arg, env, sys);
            (
                match checked_m(r, Type::Nat, t, "Perform"@, "§4.6"@) {
                    Ok(p) => Ok(
                        with_cov(
                            PartialM { ty: Type::Nat, effects: p.effects.insert(label), ..p },
                            CoverageTag::Perform,
                        ),
                    ),
                    Err(e) => Err(e),
                },
                s1,
            )
        },
        _ => (Ok(pure_m(Type::Unit)), sys),
    }
}

pub open spec fn infer_array_set_m(t: TermM, env: EnvM, sys: SysM) -> InferM
    decreases t, 1nat,
{
    match t {
        TermM::ArraySet(array, index, value) => {
            let (r1, s1) = infer_m(*array, env, sys);
            match checked_m(r1, Type::Array, t, "Array-Set"@, "§4.5.1"@) {
                Err(e) => (Err(e), s1),
                Ok(aw) => {
                    let (r2, s2) = infer_m(*index, env, s1);
                    match checked_m(r2, Type::Nat, t, "Array-Set"@, "§4.5.1"@) {
                        Err(e) => (Err(e), s2),
                        Ok(iw) => {
                            let (r3, s3) = infer_m(*value, env, s2);
                            (
                                match checked_m(r3, Type::Nat, t, "Array-Set"@, "§4.5.1"@) {
                                    Err(e) => Err(e),
                                    Ok(vw) => Ok(
                                        with_cov(
                                            with_ty(
                                                combine_m(combine_m(aw, iw), vw),
                                                Type::Array,
                                            ),
                                            CoverageTag::Array,
                                        ),
                                    ),
                                },
                                s3,
                            )
                        },
                    }
                },
            }
        },
        _ => (Ok(pure_m(Type::Unit)), sys),
    }
}

pub open spec fn infer_resume_m(t: TermM, env: EnvM, sys: SysM) -> InferM
    decreases t, 1nat,
{
    match t {
        TermM::Resume { kont, arg } => {
            let (r1, s1) = infer_m(*arg, env, sys);
            match r1 {
                Err(e) => (Err(e), s1),
                Ok(aw) => {
                    let resumes = match *kont {
                        TermM::Var(name) => env.cont_vars.contains(name),
                        _ => false,
                    };
                    let (kr, s2) = if resumes {
                        (Ok(nat_cont_m()), s1)
                    } else {
                        let (r2, s2) = infer_m(*kont, env, s1);
                        (
                            match r2 {
                                Ok(kw) => Ok(kw.ty),
                                Err(e) => Err(e),
                            },
                            s2,
                        )
                    };
                    (
                        match kr {
                            Err(e) => Err(e),
                            Ok(kty) => if !(kty is Cont) {
                                Err(
                                    err_m(
                                        "Resume"@,
                                        "§4.7/§5"@,
                                        t,
                                        "expected continuation, found "@ + type_text(kty),
                                        TypeErrorKindM::ExpectedContinuation(kty),
                                    ),
                                )
                            } else {
                                match expect_m(aw.ty, Type::Nat, t, "Resume"@, "§4.7/§5"@) {
                                    Some(e) => Err(e),
                                    None => Ok(
                                        PartialM {
                                            ty: Type::Nat,
                                            uses: ContinuationUseFacts {
                                                resumed: if resumes {
                                                    sat_add(aw.uses.resumed, 1)
                                                } else {
                                                    aw.uses.resumed
                                                },
                                                ..aw.uses
                                            },
                                            ..aw
                                        },
                                    ),
                                }
                            },
                        },
                        s2,
                    )
                },
            }
        },
        _ => (Ok(pure_m(Type::Unit)), sys),
    }
}

/// Bound of a call to a recursion member from inside the group (or the structural error).
pub open spec fn rec_call_bound(
    rec: RecM,
    env: EnvM,
    strict: bool,
    t: TermM,
) -> Result<BoundExpr, TypeErrorM> {
    let same = env.rec is Some && env.rec->0.func == rec.func;
    match rec.tag {
        RecursionTag::StructuralDescent => if strict && same {
            Ok(one())
        } else {
            Err(
                err_m(
                    "Fix-Structural"@,
                    "§4.8/§7.1"@,
                    t,
                    "recursive call argument is not the peeled predecessor"@,
                    TypeErrorKindM::NonStrictStructuralRecursion,
                ),
            )
        },
        RecursionTag::Measure => Ok(
            if env.rec is Some && !same {
                join_m(BoundExpr::Unknown(rec.unknown), one())
            } else {
                one()
            },
        ),
        RecursionTag::Div => Ok(add_m(BoundExpr::Unknown(rec.unknown), one())),
    }
}

pub open spec fn infer_app_m(t: TermM, env: EnvM, sys: SysM) -> InferM
    decreases t, 1nat,
{
    match t {
        TermM::App(fun, arg) => {
            let rec_target = match *fun {
                TermM::Var(func) => find_rec_m(env.recs, func),
                _ => None,
            };
            match rec_target {
                Some(rec) => {
                    let (r1, s1) = infer_m(*arg, env, sys);
                    (
                        match checked_m(r1, Type::Nat, t, "App/Fix"@, "§4.8/§7.1"@) {
                            Err(e) => Err(e),
                            Ok(aw) => if env.rec is Some && env.rec->0.tag
                                == RecursionTag::StructuralDescent && env.rec->0.func != rec.func {
                                Err(
                                    err_m(
                                        "FixGroup-Structural"@,
                                        "§4.8/§7.1"@,
                                        t,
                                        "Structural `"@ + env.rec->0.func
                                            + "` calls group member `"@ + rec.func
                                            + "` forming a cycle; cyclic groups require `measure` or `div`"@,
                                        TypeErrorKindM::NonStrictStructuralRecursion,
                                    ),
                                )
                            } else {
                                let strict = match *arg {
                                    TermM::Var(name) => rec.strict_var == Some(name) || (
                                    env.rec is Some && env.rec->0.func == rec.func && name
                                        != env.rec->0.param),
                                    _ => false,
                                };
                                match rec_call_bound(rec, env, strict, t) {
                                    Err(e) => Err(e),
                                    Ok(b) => Ok(
                                        PartialM {
                                            ty: Type::Nat,
                                            bound: b,
                                            divergence: if rec.tag == RecursionTag::Div {
                                                Divergence::Div
                                            } else {
                                                aw.divergence
                                            },
                                            ..aw
                                        },
                                    ),
                                }
                            },
                        },
                        s1,
                    )
                },
                None => match *fun {
                    TermM::Lam { param, param_ty, body } => {
                        let (r1, s1) = infer_m(*arg, env, sys);
                        match checked_m(r1, param_ty, t, "App"@, "§4.3"@) {
                            Err(e) => (Err(e), s1),
                            Ok(aw) => {
                                let (r2, s2) = infer_m(*body, with_var_m(env, param, param_ty), s1);
                                (
                                    match r2 {
                                        Err(e) => Err(e),
                                        Ok(bw) => Ok(
                                            with_cov(
                                                PartialM {
                                                    ty: bw.ty,
                                                    bound: add_m(contextualize_m(aw), bw.bound),
                                                    ..combine_m(aw, bw)
                                                },
                                                CoverageTag::LambdaApp,
                                            ),
                                        ),
                                    },
                                    s2,
                                )
                            },
                        }
                    },
                    _ => {
                        let (r1, s1) = infer_m(*fun, env, sys);
                        match r1 {
                            Err(e) => (Err(e), s1),
                            Ok(fw) => {
                                let (r2, s2) = infer_m(*arg, env, s1);
                                (
                                    match r2 {
                                        Err(e) => Err(e),
                                        Ok(aw) => match fw.ty {
                                            Type::Arrow(at, rt) => match expect_m(
                                                aw.ty,
                                                *at,
                                                t,
                                                "App"@,
                                                "§4.3"@,
                                            ) {
                                                Some(e) => Err(e),
                                                None => Ok(
                                                    PartialM {
                                                        ty: *rt,
                                                        bound: add_m(
                                                            contextualize_m(fw),
                                                            contextualize_m(aw),
                                                        ),
                                                        ..combine_m(fw, aw)
                                                    },
                                                ),
                                            },
                                            other => Err(
                                                err_m(
                                                    "App"@,
                                                    "§4.3"@,
                                                    t,
                                                    "expected function, found "@ + type_text(other),
                                                    TypeErrorKindM::ExpectedFunction(other),
                                                ),
                                            ),
                                        },
                                    },
                                    s2,
                                )
                            },
                        }
                    },
                },
            }
        },
        _ => (Ok(pure_m(Type::Unit)), sys),
    }
}

pub open spec fn infer_case_m(t: TermM, env: EnvM, sys: SysM) -> InferM
    decreases t, 1nat,
{
    match t {
        TermM::CaseNat { scrutinee, zero_body, succ_var, succ_body } => {
            let (r1, s1) = infer_m(*scrutinee, env, sys);
            match checked_m(r1, Type::Nat, t, "Case-Nat"@, "§4.2"@) {
                Err(e) => (Err(e), s1),
                Ok(sw) => {
                    let (r2, s2) = infer_m(*zero_body, env, s1);
                    match r2 {
                        Err(e) => (Err(e), s2),
                        Ok(zw) => {
                            let plain = with_var_m(env, succ_var, Type::Nat);
                            let succ_env = match *scrutinee {
                                TermM::Var(name) => if env.rec is Some && env.rec->0.param
                                    == name {
                                    with_strict_var_m(plain, succ_var)
                                } else {
                                    plain
                                },
                                _ => plain,
                            };
                            let (r3, s3) = infer_m(*succ_body, succ_env, s2);
                            (
                                match checked_m(r3, zw.ty, t, "Case-Nat"@, "§4.2"@) {
                                    Err(e) => Err(e),
                                    Ok(cw) => Ok(
                                        PartialM {
                                            ty: zw.ty,
                                            bound: add_m(
                                                contextualize_m(sw),
                                                join_m(zw.bound, cw.bound),
                                            ),
                                            divergence: case_divergence_m(*scrutinee, sw, zw, cw),
                                            ..combine_m(combine_m(sw, zw), cw)
                                        },
                                    ),
                                },
                                s3,
                            )
                        },
                    }
                },
            }
        },
        _ => (Ok(pure_m(Type::Unit)), sys),
    }
}

pub open spec fn infer_fix_m(t: TermM, env: EnvM, sys: SysM) -> InferM
    decreases t, 1nat,
{
    match t {
        TermM::Fix { func, param, param_ty, body, tag } => match expect_m(
            param_ty,
            Type::Nat,
            t,
            "Fix"@,
            "§4.8"@,
        ) {
            Some(e) => (Err(e), sys),
            None => if !has_room(sys) {
                (Err(unknown_limit_err(t)), sys)
            } else {
                let u = UnknownId(sys.unknowns as usize);
                let rec = RecM { func, param, tag, strict_var: None, unknown: u };
                let (r, s2) = infer_m(*body, with_rec_m(env, rec), fresh_m(sys));
                match r {
                    Err(e) => (Err(e), s2),
                    Ok(bw) => (
                        Ok(
                            PartialM {
                                bound: binder_bound(tag, u),
                                divergence: if tag == RecursionTag::Div {
                                    Divergence::Div
                                } else {
                                    bw.divergence
                                },
                                coverage: tag_coverage(bw.coverage, tag),
                                ..pure_m(nat_arrow_m(bw.ty))
                            },
                        ),
                        constrain_m(s2, u, binder_constraint(tag, u, bw.bound)),
                    ),
                }
            },
        },
        _ => (Ok(pure_m(Type::Unit)), sys),
    }
}

/// Recursion contexts of a `fix*` group, one fresh unknown per member in order.
pub open spec fn group_recs_m(bs: Seq<FixBindingM>, t: TermM, sys: SysM) -> (
    Result<Seq<RecM>, TypeErrorM>,
    SysM,
)
    decreases bs.len(),
{
    if bs.len() == 0 {
        (Ok(Seq::empty()), sys)
    } else {
        let (r, s1) = group_recs_m(bs.drop_last(), t, sys);
        match r {
            Err(e) => (Err(e), s1),
            Ok(recs) => {
                let b = bs.last();
                match expect_m(b.param_ty, Type::Nat, t, "FixGroup"@, "§4.8"@) {
                    Some(e) => (Err(e), s1),
                    None => if !has_room(s1) {
                        (Err(unknown_limit_err(t)), s1)
                    } else {
                        (
                            Ok(
                                recs.push(
                                    RecM {
                                        func: b.func,
                                        param: b.param,
                                        tag: b.tag,
                                        strict_var: None,
                                        unknown: UnknownId(s1.unknowns as usize),
                                    },
                                ),
                            ),
                            fresh_m(s1),
                        )
                    },
                }
            },
        }
    }
}

/// What checking the members of a `fix*` group accumulates: the entry's type, bound and
/// divergence, and the members' coverage.
pub struct GroupAccM {
    pub entry_ty: Type,
    pub entry_bound: BoundExpr,
    pub entry_divergence: Divergence,
    pub coverage: Set<CoverageTag>,
}

pub open spec fn group_acc_init() -> GroupAccM {
    GroupAccM {
        entry_ty: Type::Nat,
        entry_bound: BoundExpr::Const(Bound::Finite(0)),
        entry_divergence: Divergence::Terminates,
        coverage: Set::empty(),
    }
}

/// Checks one member `b` of a `fix*` group and constrains its unknown.
pub open spec fn group_step_m(
    acc: GroupAccM,
    b: FixBindingM,
    recs: Seq<RecM>,
    entry: Seq<char>,
    env: EnvM,
    sys: SysM,
) -> (Result<GroupAccM, TypeErrorM>, SysM)
    decreases b, 0nat,
{
    let (rb, s2) = infer_m(*b.body, with_rec_group_m(env, recs, b.func, b.param), sys);
    match rb {
        Err(e) => (Err(e), s2),
        Ok(bw) => {
            let rec = find_rec_m(recs, b.func)->0;
            let cov = tag_coverage(acc.coverage.union(bw.coverage), b.tag);
            (
                Ok(
                    if b.func == entry {
                        GroupAccM {
                            entry_ty: bw.ty,
                            entry_bound: binder_bound(b.tag, rec.unknown),
                            entry_divergence: if b.tag == RecursionTag::Div {
                                Divergence::Div
                            } else {
                                bw.divergence
                            },
                            coverage: cov,
                        }
                    } else {
                        GroupAccM { coverage: cov, ..acc }
                    },
                ),
                constrain_m(s2, rec.unknown, binder_constraint(b.tag, rec.unknown, bw.bound)),
            )
        },
    }
}

/// Checks the members `bs` in order, constraining each member's unknown.
pub open spec fn group_fold_m(
    bs: Seq<FixBindingM>,
    recs: Seq<RecM>,
    entry: Seq<char>,
    env: EnvM,
    sys: SysM,
) -> (Result<GroupAccM, TypeErrorM>, SysM)
    decreases bs, 0nat,
{
    if bs.len() == 0 {
        (Ok(group_acc_init()), sys)
    } else {
        let (r, s1) = group_fold_m(bs.drop_last(), recs, entry, env, sys);
        match r {
            Err(e) => (Err(e), s1),
            Ok(acc) => group_step_m(acc, bs.last(), recs, entry, env, s1),
        }
    }
}

pub open spec fn infer_fix_group_m(t: TermM, env: EnvM, sys: SysM) -> InferM
    decreases t, 1nat,
{
    match t {
        TermM::FixGroup { bindings, entry } => if bindings.len() == 0 || !group_binds(
            bindings,
            entry,
        ) {
            (
                Err(
                    err_m(
                        "FixGroup"@,
                        "§4.8"@,
                        t,
                        "fix* entry `"@ + entry + "` is not a member of the binding group"@,
                        TypeErrorKindM::Solver("malformed fix* entry"@),
                    ),
                ),
                sys,
            )
        } else {
            let (rr, s1) = group_recs_m(bindings, t, sys);
            match rr {
                Err(e) => (Err(e), s1),
                Ok(recs) => {
                    let (ra, s2) = group_fold_m(bindings, recs, entry, env, s1);
                    (
                        match ra {
                            Err(e) => Err(e),
                            Ok(acc) => Ok(
                                PartialM {
                                    bound: acc.entry_bound,
                                    divergence: acc.entry_divergence,
                                    coverage: acc.coverage,
                                    ..pure_m(nat_arrow_m(acc.entry_ty))
                                },
                            ),
                        },
                        s2,
                    )
                },
            }
        },
        _ => (Ok(pure_m(Type::Unit)), sys),
    }
}

/// What checking the clauses of a handler accumulates.
pub struct HandleAccM {
    pub handled: Set<Seq<char>>,
    pub op_effects: Set<Seq<char>>,
    pub op_bound: BoundExpr,
    pub introduced: u32,
    pub resumes: u32,
    pub op_diverges: bool,
    pub op_coverage: Set<CoverageTag>,
}

pub open spec fn handle_acc_init(bw: PartialM) -> HandleAccM {
    HandleAccM {
        handled: bw.effects,
        op_effects: Set::empty(),
        op_bound: BoundExpr::Const(Bound::Finite(0)),
        introduced: 0,
        resumes: 0,
        op_diverges: false,
        op_coverage: Set::empty(),
    }
}

/// Checks one clause `c` against the body witness `bw` and return witness `rw`.
pub open spec fn handle_step_m(
    acc: HandleAccM,
    c: OpClauseM,
    bw: PartialM,
    rw: PartialM,
    env: EnvM,
    t: TermM,
    sys: SysM,
) -> (Result<HandleAccM, TypeErrorM>, SysM)
    decreases c, 0nat,
{
    let op_env = with_cont_m(with_var_m(env, c.op_param, Type::Nat), c.op_k);
    let (ro, s2) = infer_m(*c.op_body, op_env, sys);
    (
        match checked_m(ro, rw.ty, t, "Handle"@, "§4.7"@) {
            Err(e) => Err(e),
            Ok(ow) => match classify_m(*c.op_body, c.op_k) {
                Err(msg) => Err(
                    err_m(
                        "Handle"@,
                        "§4.7"@,
                        *c.op_body,
                        "label "@ + c.op_label + ": "@ + msg,
                        TypeErrorKindM::HandlerContinuationUsage(msg),
                    ),
                ),
                Ok(resumed) => Ok(
                    HandleAccM {
                        handled: acc.handled.remove(c.op_label),
                        op_effects: acc.op_effects.union(ow.effects),
                        op_bound: join_m(
                            acc.op_bound,
                            if resumed {
                                add_m(ow.bound, bw.bound)
                            } else {
                                ow.bound
                            },
                        ),
                        introduced: if bw.effects.contains(c.op_label) {
                            sat_add(acc.introduced, 1)
                        } else {
                            acc.introduced
                        },
                        resumes: if resumed {
                            sat_add(acc.resumes, 1)
                        } else {
                            acc.resumes
                        },
                        op_diverges: acc.op_diverges || ow.divergence == Divergence::Div,
                        op_coverage: acc.op_coverage.union(ow.coverage).insert(
                            if resumed {
                                CoverageTag::HandleResuming
                            } else {
                                CoverageTag::HandleDropped
                            },
                        ),
                    },
                ),
            },
        },
        s2,
    )
}

/// Checks the clauses `cs` in order against the body witness `bw` and return witness `rw`.
pub open spec fn handle_fold_m(
    cs: Seq<OpClauseM>,
    bw: PartialM,
    rw: PartialM,
    env: EnvM,
    t: TermM,
    sys: SysM,
) -> (Result<HandleAccM, TypeErrorM>, SysM)
    decreases cs, 0nat,
{
    if cs.len() == 0 {
        (Ok(handle_acc_init(bw)), sys)
    } else {
        let (r, s1) = handle_fold_m(cs.drop_last(), bw, rw, env, t, sys);
        match r {
            Err(e) => (Err(e), s1),
            Ok(acc) => handle_step_m(acc, cs.last(), bw, rw, env, t, s1),
        }
    }
}

pub open spec fn infer_handle_m(t: TermM, env: EnvM, sys: SysM) -> InferM
    decreases t, 1nat,
{
    match t {
        TermM::Handle { body, handler } => {
            let (r1, s1) = infer_m(*body, env, sys);
            match r1 {
                Err(e) => (Err(e), s1),
                Ok(bw) => {
                    let (r2, s2) = infer_m(
                        *handler.return_body,
                        with_var_m(env, handler.return_var, bw.ty),
                        s1,
                    );
                    match r2 {
                        Err(e) => (Err(e), s2),
                        Ok(rw) => {
                            let (ra, s3) = handle_fold_m(handler.clauses, bw, rw, env, t, s2);
                            (
                                match ra {
                                    Err(e) => Err(e),
                                    Ok(acc) => Ok(handle_result_m(bw, rw, acc)),
                                },
                                s3,
                            )
                        },
                    }
                },
            }
        },
        _ => (Ok(pure_m(Type::Unit)), sys),
    }
}

/// The witness of a `handle` from its body, return clause and accumulated clauses.
pub open spec fn handle_result_m(bw: PartialM, rw: PartialM, acc: HandleAccM) -> PartialM {
    PartialM {
        ty: rw.ty,
        effects: acc.handled.union(rw.effects).union(acc.op_effects),
        bound: join_m(rw.bound, acc.op_bound),
        region: Region::Arena,
        uses: ContinuationUseFacts {
            introduced: acc.introduced,
            resumed: acc.resumes,
            dropped: if acc.introduced >= acc.resumes {
                (acc.introduced - acc.resumes) as u32
            } else {
                0
            },
        },
        divergence: if bw.divergence == Divergence::Div || rw.divergence == Divergence::Div
            || acc.op_diverges {
            Divergence::Div
        } else {
            Divergence::Terminates
        },
        coverage: bw.coverage.union(rw.coverage).union(acc.op_coverage),
    }
}

} // verus!
