//! The executable checker: `Checker::infer` computes `infer_m`, threading the constraint
//! system through the derivation.

use vstd::prelude::*;

use crate::check::env::{contextualize, find_rec, rec_opt_view, recs_view, Env, PartialWitness, RecContext};
use crate::check::error::{mismatch_message, TypeError, TypeErrorKind, TypeErrorM};
use crate::check::solve::{BoundExpr, ConstraintSystem, UnknownId};
use crate::check::typing::{
    binder_bound, binder_constraint, group_step_m, handle_step_m, infer_leaf_m, infer_succ_m,
    infer_pair_m, infer_array_len_m, infer_marked_m, infer_lam_m, infer_let_m, infer_perform_m, case_divergence_m, infer_app_m, infer_array_set_m,
    infer_case_m, infer_fix_m, infer_fix_group_m, infer_handle_m, infer_resume_m, expect_m, find_rec_m, group_fold_m,
group_recs_m, handle_fold_m, infer_m, one, tag_coverage,
    unknown_limit_err, EnvM, GroupAccM, HandleAccM, PartialM, RecM, SysM,
};
use crate::check::usage::{classify_handler_k_usage, group_binds_name};
use crate::core_ast::{
    group_binds, binding_view, bindings_view, clause_view, clauses_view, lemma_bindings_view,
    lemma_clauses_view, ContinuationUseFacts, CoverageSet, CoverageTag, Divergence, FixBinding,
    FixBindingM, Handler, OpClause, OpClauseM, RecursionTag, Term, TermM, Type,
};
use crate::grade::{Bound, Eff, Region};
use crate::text::{owned, push, str_eq};

verus! {

broadcast use vstd::std_specs::vec::group_vec_axioms, vstd::seq::group_seq_axioms;

pub open spec fn sys_of(s: ConstraintSystem) -> SysM {
    SysM { unknowns: s.unknowns(), constraints: s.constraint_seq() }
}

pub open spec fn res_of(r: Result<PartialWitness, TypeError>) -> Result<PartialM, TypeErrorM> {
    match r {
        Ok(p) => Ok(p@),
        Err(e) => Err(e@),
    }
}

/// The run of the checker on `t` from system `a` ended in system `b` with result `r`,
/// exactly as `infer_m` says, and the system only grew (staying below `usize::MAX`).
pub open spec fn infer_post(
    a: ConstraintSystem,
    b: ConstraintSystem,
    t: TermM,
    env: EnvM,
    r: Result<PartialWitness, TypeError>,
) -> bool {
    &&& (res_of(r), sys_of(b)) == infer_m(t, env, sys_of(a))
    &&& a.unknowns() <= b.unknowns()
    &&& b.unknowns() < usize::MAX
}

/// `found` is accepted where `expected` is required.
pub fn expect_type(
    found: &Type,
    expected: &Type,
    term: &Term,
    rule: &'static str,
    section: &'static str,
) -> (r: Result<(), TypeError>)
    ensures
        match expect_m(*found, *expected, term@, rule@, section@) {
            None => r is Ok,
            Some(e) => r matches Err(x) && x@ == e,
        },
{
    let ok = found.same(expected) || (match (found, expected) {
        (Type::Nat, Type::Array) => true,
        (Type::Array, Type::Nat) => true,
        _ => false,
    });
    if ok {
        Ok(())
    } else {
        Err(
            TypeError::new(
                rule,
                section,
                term,
                mismatch_message(expected, found),
                TypeErrorKind::TypeMismatch { expected: expected.duplicate(), found: found.duplicate() },
            ),
        )
    }
}

fn unknown_limit(term: &Term) -> (r: TypeError)
    ensures
        r@ == unknown_limit_err(term@),
{
    TypeError::new(
        "Fix",
        "§7.1",
        term,
        owned("too many recursion unknowns"),
        TypeErrorKind::Solver(owned("unknown limit reached")),
    )
}

/// Divergence of a `case` from its scrutinee and the three sub-derivations.
fn case_divergence(
    scrutinee: &Term,
    sw: &PartialWitness,
    zw: &PartialWitness,
    cw: &PartialWitness,
) -> (r: Divergence)
    ensures
        r == case_divergence_m(scrutinee@, sw@, zw@, cw@),
{
    if sw.divergence == Divergence::Div {
        return Divergence::Div;
    }
    match scrutinee {
        Term::Zero => zw.divergence,
        Term::Succ(_) => cw.divergence,
        _ => if zw.divergence == Divergence::Div && cw.divergence == Divergence::Div {
            Divergence::Div
        } else {
            Divergence::Terminates
        },
    }
}

fn one_bound() -> (r: BoundExpr)
    ensures
        r == one(),
{
    BoundExpr::constant(Bound::finite(1))
}

fn binder_bound_exec(tag: RecursionTag, u: UnknownId) -> (r: BoundExpr)
    ensures
        r == binder_bound(tag, u),
{
    match tag {
        RecursionTag::StructuralDescent => BoundExpr::unknown(u),
        RecursionTag::Measure => BoundExpr::unknown(u).join(one_bound()),
        RecursionTag::Div => BoundExpr::unknown(u),
    }
}

fn binder_constraint_exec(tag: RecursionTag, u: UnknownId, body: &BoundExpr) -> (r: BoundExpr)
    ensures
        r == binder_constraint(tag, u, *body),
{
    if tag == RecursionTag::Div {
        BoundExpr::unknown(u).seq(one_bound())
    } else {
        body.duplicate()
    }
}

fn tag_coverage_exec(cov: &mut CoverageSet, tag: RecursionTag)
    ensures
        final(cov)@ == tag_coverage(old(cov)@, tag),
{
    match tag {
        RecursionTag::StructuralDescent => cov.insert(CoverageTag::FixStructural),
        RecursionTag::Measure => cov.insert(CoverageTag::FixMeasure),
        RecursionTag::Div => {},
    }
}

/// The model of a variable or abstraction in head position.
pub proof fn lemma_head_view(t: &Term)
    ensures
        *t matches Term::Var(f) ==> t@ == TermM::Var(f@),
        *t matches Term::Lam { param, param_ty, body } ==> t@ == (TermM::Lam {
            param: param@,
            param_ty: param_ty,
            body: Box::new(body@),
        }),
{
}

/// One more member: the fold over a prefix followed by one step.
proof fn lemma_group_fold_step(
    bs: Seq<FixBindingM>,
    k: int,
    recs: Seq<RecM>,
    entry: Seq<char>,
    env: EnvM,
    sys: SysM,
)
    requires
        0 <= k < bs.len(),
    ensures
        group_fold_m(bs.subrange(0, k + 1), recs, entry, env, sys) == (match group_fold_m(
            bs.subrange(0, k),
            recs,
            entry,
            env,
            sys,
        ) {
            (Err(e), s) => (Err(e), s),
            (Ok(acc), s) => group_step_m(acc, bs[k], recs, entry, env, s),
        }),
{
    let sub1 = bs.subrange(0, k + 1);
    assert(sub1.drop_last() =~= bs.subrange(0, k));
    assert(sub1.last() == bs[k]);
}

/// One more clause: the fold over a prefix followed by one step.
proof fn lemma_handle_fold_step(
    cs: Seq<OpClauseM>,
    k: int,
    bw: PartialM,
    rw: PartialM,
    env: EnvM,
    t: TermM,
    sys: SysM,
)
    requires
        0 <= k < cs.len(),
    ensures
        handle_fold_m(cs.subrange(0, k + 1), bw, rw, env, t, sys) == (match handle_fold_m(
            cs.subrange(0, k),
            bw,
            rw,
            env,
            t,
            sys,
        ) {
            (Err(e), s) => (Err(e), s),
            (Ok(acc), s) => handle_step_m(acc, cs[k], bw, rw, env, t, s),
        }),
{
    let sub1 = cs.subrange(0, k + 1);
    assert(sub1.drop_last() =~= cs.subrange(0, k));
    assert(sub1.last() == cs[k]);
}

/// The parts of a handler's model.
pub proof fn lemma_handler_parts(h: Handler)
    ensures
        h@.return_var == h.return_var@,
        *h@.return_body == h.return_body@,
        h@.clauses == clauses_view(h.clauses@),
{
}

/// A failure while allocating a group's recursion contexts ends the whole allocation.
proof fn lemma_recs_err(bs: Seq<FixBindingM>, k: int, t: TermM, sys: SysM)
    requires
        0 <= k <= bs.len(),
        group_recs_m(bs.subrange(0, k), t, sys).0 is Err,
    ensures
        group_recs_m(bs, t, sys) == group_recs_m(bs.subrange(0, k), t, sys),
    decreases bs.len(),
{
    if k == bs.len() {
        assert(bs.subrange(0, k) =~= bs);
    } else {
        assert(bs.drop_last().subrange(0, k) =~= bs.subrange(0, k));
        lemma_recs_err(bs.drop_last(), k, t, sys);
    }
}

/// A failure while checking a group's members ends the whole group.
proof fn lemma_group_err(
    bs: Seq<FixBindingM>,
    k: int,
    recs: Seq<RecM>,
    entry: Seq<char>,
    env: EnvM,
    sys: SysM,
)
    requires
        0 <= k <= bs.len(),
        group_fold_m(bs.subrange(0, k), recs, entry, env, sys).0 is Err,
    ensures
        group_fold_m(bs, recs, entry, env, sys) == group_fold_m(bs.subrange(0, k), recs, entry, env, sys),
    decreases bs.len(),
{
    if k == bs.len() {
        assert(bs.subrange(0, k) =~= bs);
    } else {
        assert(bs.drop_last().subrange(0, k) =~= bs.subrange(0, k));
        lemma_group_err(bs.drop_last(), k, recs, entry, env, sys);
    }
}

/// A failure while checking a handler's clauses ends the whole handler.
proof fn lemma_handle_err(
    cs: Seq<OpClauseM>,
    k: int,
    bw: PartialM,
    rw: PartialM,
    env: EnvM,
    t: TermM,
    sys: SysM,
)
    requires
        0 <= k <= cs.len(),
        handle_fold_m(cs.subrange(0, k), bw, rw, env, t, sys).0 is Err,
    ensures
        handle_fold_m(cs, bw, rw, env, t, sys) == handle_fold_m(cs.subrange(0, k), bw, rw, env, t, sys),
    decreases cs.len(),
{
    if k == cs.len() {
        assert(cs.subrange(0, k) =~= cs);
    } else {
        assert(cs.drop_last().subrange(0, k) =~= cs.subrange(0, k));
        lemma_handle_err(cs.drop_last(), k, bw, rw, env, t, sys);
    }
}

/// A member named `f` is found, and what is found is one of the members.
proof fn lemma_find_rec(recs: Seq<RecM>, f: Seq<char>, k: int)
    requires
        0 <= k < recs.len(),
        recs[k].func == f,
    ensures
        find_rec_m(recs, f) is Some,
        exists|j: int| 0 <= j < recs.len() && recs[j] == find_rec_m(recs, f)->0,
    decreases recs.len(),
{
    if recs[0].func != f {
        lemma_find_rec(recs.drop_first(), f, k - 1);
        let j = choose|j: int|
            0 <= j < recs.drop_first().len() && recs.drop_first()[j] == find_rec_m(
                recs.drop_first(),
                f,
            )->0;
        assert(recs[j + 1] == recs.drop_first()[j]);
    } else {
        assert(recs[0] == find_rec_m(recs, f)->0);
    }
}

/// What checking the members of a `fix*` group accumulates.
struct GroupAcc {
    entry_ty: Type,
    entry_bound: BoundExpr,
    entry_divergence: Divergence,
    coverage: CoverageSet,
}

impl View for GroupAcc {
    type V = GroupAccM;

    closed spec fn view(&self) -> GroupAccM {
        GroupAccM {
            entry_ty: self.entry_ty,
            entry_bound: self.entry_bound,
            entry_divergence: self.entry_divergence,
            coverage: self.coverage@,
        }
    }
}

/// What checking the clauses of a handler accumulates.
struct HandleAcc {
    handled: Eff,
    op_effects: Eff,
    op_bound: BoundExpr,
    introduced: u32,
    resumes: u32,
    op_diverges: bool,
    op_coverage: CoverageSet,
}

impl View for HandleAcc {
    type V = HandleAccM;

    closed spec fn view(&self) -> HandleAccM {
        HandleAccM {
            handled: self.handled@,
            op_effects: self.op_effects@,
            op_bound: self.op_bound,
            introduced: self.introduced,
            resumes: self.resumes,
            op_diverges: self.op_diverges,
            op_coverage: self.op_coverage@,
        }
    }
}

pub struct Checker {
    pub system: ConstraintSystem,
}

impl Checker {
    pub fn infer(&mut self, term: &Term, env: &Env) -> (r: Result<PartialWitness, TypeError>)
        requires
            old(self).system.unknowns() < usize::MAX,
        ensures
            infer_post(old(self).system, final(self).system, term@, env@, r),
        decreases term, 2nat,
    {
        match term {
            Term::Unit | Term::Zero | Term::Array(_) | Term::Cont(_) | Term::Var(_) => {
                self.infer_leaf(term, env)
            },
            Term::Succ(_) => self.infer_succ(term, env),
            Term::ArrayLen(_) => self.infer_array_len(term, env),
            Term::Perform(_, _) => self.infer_perform(term, env),
            Term::Move(_) | Term::Inplace(_) | Term::Freeze(_) | Term::Mark(_, _) => {
                self.infer_marked(term, env)
            },
            Term::MkArray(_, _) | Term::ArrayGet(_, _) => self.infer_pair(term, env),
            Term::ArraySet(_, _, _) => self.infer_array_set(term, env),
            Term::Lam { .. } => self.infer_lam(term, env),
            Term::Let { .. } => self.infer_let(term, env),
            Term::App(_, _) => self.infer_app(term, env),
            Term::CaseNat { .. } => self.infer_case(term, env),
            Term::Fix { .. } => self.infer_fix(term, env),
            Term::FixGroup { .. } => self.infer_fix_group(term, env),
            Term::Handle { .. } => self.infer_handle(term, env),
            Term::Resume { .. } => self.infer_resume(term, env),
        }
    }

    fn infer_leaf(&mut self, term: &Term, env: &Env) -> (r: Result<PartialWitness, TypeError>)
        requires
            old(self).system.unknowns() < usize::MAX,
            term is Unit || term is Zero || term is Array || term is Cont || term is Var,
        ensures
            infer_post(old(self).system, final(self).system, term@, env@, r),
    {
        proof {
            let s0 = sys_of(old(self).system);
            assert(infer_m(term@, env@, s0) == infer_leaf_m(term@, env@, s0));
        }
        match term {
            Term::Unit => Ok(PartialWitness::pure(Type::Unit)),
            Term::Zero => Ok(PartialWitness::pure(Type::Nat)),
            Term::Array(_) => Ok(PartialWitness::pure(Type::Array)),
            Term::Cont(_) => Ok(PartialWitness::pure(Type::nat_cont())),
            Term::Var(name) => match env.lookup(name.as_str()) {
                Some(ty) => Ok(PartialWitness::pure(ty)),
                None => {
                    let mut msg = owned("unbound variable `");
                    push(&mut msg, name.as_str());
                    push(&mut msg, "`");
                    Err(
                        TypeError::new(
                            "Var",
                            "§4.1",
                            term,
                            msg,
                            TypeErrorKind::UnboundVariable(name.clone()),
                        ),
                    )
                },
            },
            _ => {
                assert(false);
                Err(unknown_limit(term))
            },
        }
    }

    fn infer_succ(&mut self, term: &Term, env: &Env) -> (r: Result<PartialWitness, TypeError>)
        requires
            old(self).system.unknowns() < usize::MAX,
            term is Succ,
        ensures
            infer_post(old(self).system, final(self).system, term@, env@, r),
        decreases term, 1nat,
    {
        proof {
            let s0 = sys_of(old(self).system);
            assert(infer_m(term@, env@, s0) == infer_succ_m(term@, env@, s0));
        }
        match term {
            Term::Succ(inner) => {
                let mut out = match self.infer(inner, env) {
                    Ok(p) => p,
                    Err(e) => return Err(e),
                };
                if let Err(e) = expect_type(&out.ty, &Type::Nat, term, "Succ", "§4.2") {
                    return Err(e);
                }
                let bound = contextualize(&out);
                out.ty = Type::Nat;
                out.bound = bound;
                Ok(out)
            },
            _ => {
                assert(false);
                Err(unknown_limit(term))
            },
        }
    }

    fn infer_array_len(&mut self, term: &Term, env: &Env) -> (r: Result<PartialWitness, TypeError>)
        requires
            old(self).system.unknowns() < usize::MAX,
            term is ArrayLen,
        ensures
            infer_post(old(self).system, final(self).system, term@, env@, r),
        decreases term, 1nat,
    {
        proof {
            let s0 = sys_of(old(self).system);
            assert(infer_m(term@, env@, s0) == infer_array_len_m(term@, env@, s0));
        }
        match term {
            Term::ArrayLen(array) => {
                let mut out = match self.infer(array, env) {
                    Ok(p) => p,
                    Err(e) => return Err(e),
                };
                if let Err(e) = expect_type(&out.ty, &Type::Array, term, "Array-Len", "§4.5.1") {
                    return Err(e);
                }
                out.ty = Type::Nat;
                out.coverage.insert(CoverageTag::Array);
                Ok(out)
            },
            _ => {
                assert(false);
                Err(unknown_limit(term))
            },
        }
    }

    fn infer_perform(&mut self, term: &Term, env: &Env) -> (r: Result<PartialWitness, TypeError>)
        requires
            old(self).system.unknowns() < usize::MAX,
            term is Perform,
        ensures
            infer_post(old(self).system, final(self).system, term@, env@, r),
        decreases term, 1nat,
    {
        proof {
            let s0 = sys_of(old(self).system);
            assert(infer_m(term@, env@, s0) == infer_perform_m(term@, env@, s0));
        }
        match term {
            Term::Perform(label, arg) => {
                let mut out = match self.infer(arg, env) {
                    Ok(p) => p,
                    Err(e) => return Err(e),
                };
                if let Err(e) = expect_type(&out.ty, &Type::Nat, term, "Perform", "§4.6") {
                    return Err(e);
                }
                let ghost before = out.effects@;
                out.ty = Type::Nat;
                out.effects = out.effects.join(&Eff::singleton(*label));
                assert(out.effects@ =~= before.insert(label@));
                out.coverage.insert(CoverageTag::Perform);
                Ok(out)
            },
            _ => {
                assert(false);
                Err(unknown_limit(term))
            },
        }
    }

    fn infer_marked(&mut self, term: &Term, env: &Env) -> (r: Result<PartialWitness, TypeError>)
        requires
            old(self).system.unknowns() < usize::MAX,
            term is Move || term is Inplace || term is Freeze || term is Mark,
        ensures
            infer_post(old(self).system, final(self).system, term@, env@, r),
        decreases term, 1nat,
    {
        proof {
            let s0 = sys_of(old(self).system);
            assert(infer_m(term@, env@, s0) == infer_marked_m(term@, env@, s0));
        }
        match term {
            Term::Move(inner) | Term::Inplace(inner) | Term::Freeze(inner) => {
                let mut out = match self.infer(inner, env) {
                    Ok(p) => p,
                    Err(e) => return Err(e),
                };
                out.coverage.insert(CoverageTag::Array);
                Ok(out)
            },
            Term::Mark(tag, inner) => {
                let mut out = match self.infer(inner, env) {
                    Ok(p) => p,
                    Err(e) => return Err(e),
                };
                out.coverage.insert(*tag);
                Ok(out)
            },
            _ => {
                assert(false);
                Err(unknown_limit(term))
            },
        }
    }

    fn infer_pair(&mut self, term: &Term, env: &Env) -> (r: Result<PartialWitness, TypeError>)
        requires
            old(self).system.unknowns() < usize::MAX,
            term is MkArray || term is ArrayGet,
        ensures
            infer_post(old(self).system, final(self).system, term@, env@, r),
        decreases term, 1nat,
    {
        proof {
            let s0 = sys_of(old(self).system);
            assert(infer_m(term@, env@, s0) == infer_pair_m(term@, env@, s0));
        }
        match term {
            Term::MkArray(len, fill) => {
                let lw = match self.infer(len, env) {
                    Ok(p) => p,
                    Err(e) => return Err(e),
                };
                if let Err(e) = expect_type(&lw.ty, &Type::Nat, term, "MkArray", "§4.5.1") {
                    return Err(e);
                }
                let fw = match self.infer(fill, env) {
                    Ok(p) => p,
                    Err(e) => return Err(e),
                };
                if let Err(e) = expect_type(&fw.ty, &Type::Nat, term, "MkArray", "§4.5.1") {
                    return Err(e);
                }
                let mut out = lw.combine(&fw);
                out.ty = Type::Array;
                out.coverage.insert(CoverageTag::Array);
                Ok(out)
            },
            Term::ArrayGet(array, index) => {
                let aw = match self.infer(array, env) {
                    Ok(p) => p,
                    Err(e) => return Err(e),
                };
                if let Err(e) = expect_type(&aw.ty, &Type::Array, term, "Array-Get", "§4.5.1") {
                    return Err(e);
                }
                let iw = match self.infer(index, env) {
                    Ok(p) => p,
                    Err(e) => return Err(e),
                };
                if let Err(e) = expect_type(&iw.ty, &Type::Nat, term, "Array-Get", "§4.5.1") {
                    return Err(e);
                }
                let mut out = aw.combine(&iw);
                out.ty = Type::Nat;
                out.coverage.insert(CoverageTag::Array);
                Ok(out)
            },
            _ => {
                assert(false);
                Err(unknown_limit(term))
            },
        }
    }

    fn infer_array_set(&mut self, term: &Term, env: &Env) -> (r: Result<PartialWitness, TypeError>)
        requires
            old(self).system.unknowns() < usize::MAX,
            term is ArraySet,
        ensures
            infer_post(old(self).system, final(self).system, term@, env@, r),
        decreases term, 1nat,
    {
        proof {
            let s0 = sys_of(old(self).system);
            assert(infer_m(term@, env@, s0) == infer_array_set_m(term@, env@, s0));
        }
        match term {
            Term::ArraySet(array, index, value) => {
                let aw = match self.infer(array, env) {
                    Ok(p) => p,
                    Err(e) => return Err(e),
                };
                if let Err(e) = expect_type(&aw.ty, &Type::Array, term, "Array-Set", "§4.5.1") {
                    return Err(e);
                }
                let iw = match self.infer(index, env) {
                    Ok(p) => p,
                    Err(e) => return Err(e),
                };
                if let Err(e) = expect_type(&iw.ty, &Type::Nat, term, "Array-Set", "§4.5.1") {
                    return Err(e);
                }
                let vw = match self.infer(value, env) {
                    Ok(p) => p,
                    Err(e) => return Err(e),
                };
                if let Err(e) = expect_type(&vw.ty, &Type::Nat, term, "Array-Set", "§4.5.1") {
                    return Err(e);
                }
                let mut out = aw.combine(&iw).combine(&vw);
                out.ty = Type::Array;
                out.coverage.insert(CoverageTag::Array);
                Ok(out)
            },
            _ => {
                assert(false);
                Err(unknown_limit(term))
            },
        }
    }

    fn infer_lam(&mut self, term: &Term, env: &Env) -> (r: Result<PartialWitness, TypeError>)
        requires
            old(self).system.unknowns() < usize::MAX,
            term is Lam,
        ensures
            infer_post(old(self).system, final(self).system, term@, env@, r),
        decreases term, 1nat,
    {
        proof {
            let s0 = sys_of(old(self).system);
            assert(infer_m(term@, env@, s0) == infer_lam_m(term@, env@, s0));
        }
        match term {
            Term::Lam { param, param_ty, body } => {
                let body_env = env.with_var(param.clone(), param_ty.duplicate());
                let bw = match self.infer(body, &body_env) {
                    Ok(p) => p,
                    Err(e) => return Err(e),
                };
                Ok(PartialWitness::pure(Type::Arrow(Box::new(param_ty.duplicate()), Box::new(bw.ty))))
            },
            _ => {
                assert(false);
                Err(unknown_limit(term))
            },
        }
    }

    fn infer_let(&mut self, term: &Term, env: &Env) -> (r: Result<PartialWitness, TypeError>)
        requires
            old(self).system.unknowns() < usize::MAX,
            term is Let,
        ensures
            infer_post(old(self).system, final(self).system, term@, env@, r),
        decreases term, 1nat,
    {
        proof {
            let s0 = sys_of(old(self).system);
            assert(infer_m(term@, env@, s0) == infer_let_m(term@, env@, s0));
        }
        match term {
            Term::Let { var, expr, body } => {
                let ew = match self.infer(expr, env) {
                    Ok(p) => p,
                    Err(e) => return Err(e),
                };
                let body_env = env.with_var(var.clone(), ew.ty.duplicate());
                let bw = match self.infer(body, &body_env) {
                    Ok(p) => p,
                    Err(e) => return Err(e),
                };
                let result_ty = bw.ty.duplicate();
                let expr_bound = contextualize(&ew);
                let body_bound = bw.bound.duplicate();
                let mut out = ew.combine(&bw);
                out.ty = result_ty;
                out.bound = expr_bound.seq(body_bound);
                out.coverage.insert(CoverageTag::Let);
                Ok(out)
            },
            _ => {
                assert(false);
                Err(unknown_limit(term))
            },
        }
    }

    fn infer_resume(&mut self, term: &Term, env: &Env) -> (r: Result<PartialWitness, TypeError>)
        requires
            old(self).system.unknowns() < usize::MAX,
            term is Resume,
        ensures
            infer_post(old(self).system, final(self).system, term@, env@, r),
        decreases term, 1nat,
    {
        proof {
            let s0 = sys_of(old(self).system);
            assert(infer_m(term@, env@, s0) == infer_resume_m(term@, env@, s0));
        }
        match term {
            Term::Resume { kont, arg } => {
                proof {
                    lemma_head_view(kont);
                }
                let aw = match self.infer(arg, env) {
                    Ok(p) => p,
                    Err(e) => return Err(e),
                };
                let resumes = match &**kont {
                    Term::Var(name) => env.is_cont_var(name.as_str()),
                    _ => false,
                };
                let kont_ty = if resumes {
                    Type::nat_cont()
                } else {
                    match self.infer(kont, env) {
                        Ok(kw) => kw.ty,
                        Err(e) => return Err(e),
                    }
                };
                let is_cont = match &kont_ty {
                    Type::Cont(_, _) => true,
                    _ => false,
                };
                if !is_cont {
                    let mut msg = owned("expected continuation, found ");
                    push(&mut msg, kont_ty.to_text().as_str());
                    return Err(
                        TypeError::new(
                            "Resume",
                            "§4.7/§5",
                            term,
                            msg,
                            TypeErrorKind::ExpectedContinuation(kont_ty),
                        ),
                    );
                }
                let mut out = aw;
                if let Err(e) = expect_type(&out.ty, &Type::Nat, term, "Resume", "§4.7/§5") {
                    return Err(e);
                }
                out.ty = Type::Nat;
                if resumes {
                    out.continuation_uses.resumed = out.continuation_uses.resumed.saturating_add(1);
                }
                Ok(out)
            },
            _ => {
                assert(false);
                Err(unknown_limit(term))
            },
        }
    }

    fn infer_app(&mut self, term: &Term, env: &Env) -> (r: Result<PartialWitness, TypeError>)
        requires
            old(self).system.unknowns() < usize::MAX,
            term is App,
        ensures
            infer_post(old(self).system, final(self).system, term@, env@, r),
        decreases term, 1nat,
    {
        proof {
            let s0 = sys_of(old(self).system);
            assert(infer_m(term@, env@, s0) == infer_app_m(term@, env@, s0));
        }
        match term {
            Term::App(fun, arg) => {
                proof {
                    lemma_head_view(fun);
                }
                let rec_target = match &**fun {
                    Term::Var(func) => find_rec(env.group(), func.as_str()),
                    _ => None,
                };
                match rec_target {
                    Some(rec) => self.infer_rec_call(term, &rec, env),
                    None => match &**fun {
                        Term::Lam { param, param_ty, body } => {
                            let aw = match self.infer(arg, env) {
                                Ok(p) => p,
                                Err(e) => return Err(e),
                            };
                            if let Err(e) = expect_type(&aw.ty, param_ty, term, "App", "§4.3") {
                                return Err(e);
                            }
                            let body_env = env.with_var(param.clone(), param_ty.duplicate());
                            let bw = match self.infer(body, &body_env) {
                                Ok(p) => p,
                                Err(e) => return Err(e),
                            };
                            let result_ty = bw.ty.duplicate();
                            let arg_bound = contextualize(&aw);
                            let body_bound = bw.bound.duplicate();
                            let mut out = aw.combine(&bw);
                            out.ty = result_ty;
                            out.bound = arg_bound.seq(body_bound);
                            out.coverage.insert(CoverageTag::LambdaApp);
                            Ok(out)
                        },
                        _ => {
                            let fw = match self.infer(fun, env) {
                                Ok(p) => p,
                                Err(e) => return Err(e),
                            };
                            let aw = match self.infer(arg, env) {
                                Ok(p) => p,
                                Err(e) => return Err(e),
                            };
                            let result_ty = match &fw.ty {
                                Type::Arrow(arg_ty, ret_ty) => {
                                    if let Err(e) = expect_type(&aw.ty, arg_ty, term, "App", "§4.3") {
                                        return Err(e);
                                    }
                                    ret_ty.duplicate()
                                },
                                other => {
                                    let mut msg = owned("expected function, found ");
                                    push(&mut msg, other.to_text().as_str());
                                    return Err(
                                        TypeError::new(
                                            "App",
                                            "§4.3",
                                            term,
                                            msg,
                                            TypeErrorKind::ExpectedFunction(other.duplicate()),
                                        ),
                                    );
                                },
                            };
                            let fun_bound = contextualize(&fw);
                            let arg_bound = contextualize(&aw);
                            let mut out = fw.combine(&aw);
                            out.ty = result_ty;
                            out.bound = fun_bound.seq(arg_bound);
                            Ok(out)
                        },
                    },
                }
            },
            _ => {
                assert(false);
                Err(unknown_limit(term))
            },
        }
    }

    /// A call of a recursion member `rec` (found for the callee of `term`).
    fn infer_rec_call(&mut self, term: &Term, rec: &RecContext, env: &Env) -> (r: Result<
        PartialWitness,
        TypeError,
    >)
        requires
            old(self).system.unknowns() < usize::MAX,
            *term matches Term::App(fun, _) && (*fun matches Term::Var(f) && find_rec_m(
                env@.recs,
                f@,
            ) == Some(rec@)),
        ensures
            infer_post(old(self).system, final(self).system, term@, env@, r),
        decreases term, 0nat,
    {
        proof {
            let s0 = sys_of(old(self).system);
            assert(infer_m(term@, env@, s0) == infer_app_m(term@, env@, s0));
        }
        match term {
            Term::App(fun, arg) => {
                proof {
                    lemma_head_view(fun);
                }
                let aw = match self.infer(arg, env) {
                    Ok(p) => p,
                    Err(e) => return Err(e),
                };
                if let Err(e) = expect_type(&aw.ty, &Type::Nat, term, "App/Fix", "§4.8/§7.1") {
                    return Err(e);
                }
                let cur = env.current_rec();
                let same = match cur {
                    Some(c) => str_eq(c.func.as_str(), rec.func.as_str()),
                    None => false,
                };
                if let Some(c) = cur {
                    if c.tag == RecursionTag::StructuralDescent && !same {
                        let mut msg = owned("Structural `");
                        push(&mut msg, c.func.as_str());
                        push(&mut msg, "` calls group member `");
                        push(&mut msg, rec.func.as_str());
                        push(&mut msg, "` forming a cycle; cyclic groups require `measure` or `div`");
                        return Err(
                            TypeError::new(
                                "FixGroup-Structural",
                                "§4.8/§7.1",
                                term,
                                msg,
                                TypeErrorKind::NonStrictStructuralRecursion,
                            ),
                        );
                    }
                }
                let strict = match &**arg {
                    Term::Var(name) => (match &rec.strict_var {
                        Some(v) => str_eq(v.as_str(), name.as_str()),
                        None => false,
                    }) || (match cur {
                        Some(c) => same && !str_eq(name.as_str(), c.param.as_str()),
                        None => false,
                    }),
                    _ => false,
                };
                let bound = match rec.tag {
                    RecursionTag::StructuralDescent => {
                        if strict && same {
                            one_bound()
                        } else {
                            return Err(
                                TypeError::new(
                                    "Fix-Structural",
                                    "§4.8/§7.1",
                                    term,
                                    owned("recursive call argument is not the peeled predecessor"),
                                    TypeErrorKind::NonStrictStructuralRecursion,
                                ),
                            );
                        }
                    },
                    RecursionTag::Measure => {
                        if cur.is_some() && !same {
                            BoundExpr::unknown(rec.unknown).join(one_bound())
                        } else {
                            one_bound()
                        }
                    },
                    RecursionTag::Div => BoundExpr::unknown(rec.unknown).seq(one_bound()),
                };
                let mut out = aw;
                out.ty = Type::Nat;
                out.bound = bound;
                if rec.tag == RecursionTag::Div {
                    out.divergence = Divergence::Div;
                }
                Ok(out)
            },
            _ => {
                assert(false);
                Err(unknown_limit(term))
            },
        }
    }

    fn infer_case(&mut self, term: &Term, env: &Env) -> (r: Result<PartialWitness, TypeError>)
        requires
            old(self).system.unknowns() < usize::MAX,
            term is CaseNat,
        ensures
            infer_post(old(self).system, final(self).system, term@, env@, r),
        decreases term, 1nat,
    {
        proof {
            let s0 = sys_of(old(self).system);
            assert(infer_m(term@, env@, s0) == infer_case_m(term@, env@, s0));
        }
        match term {
            Term::CaseNat { scrutinee, zero_body, succ_var, succ_body } => {
                let sw = match self.infer(scrutinee, env) {
                    Ok(p) => p,
                    Err(e) => return Err(e),
                };
                if let Err(e) = expect_type(&sw.ty, &Type::Nat, term, "Case-Nat", "§4.2") {
                    return Err(e);
                }
                let zw = match self.infer(zero_body, env) {
                    Ok(p) => p,
                    Err(e) => return Err(e),
                };
                let plain = env.with_var(succ_var.clone(), Type::Nat);
                let strict_scrutinee = match &**scrutinee {
                    Term::Var(name) => match env.current_rec() {
                        Some(rc) => str_eq(rc.param.as_str(), name.as_str()),
                        None => false,
                    },
                    _ => false,
                };
                let succ_env = if strict_scrutinee {
                    plain.with_strict_var(succ_var.as_str())
                } else {
                    plain
                };
                let cw = match self.infer(succ_body, &succ_env) {
                    Ok(p) => p,
                    Err(e) => return Err(e),
                };
                if let Err(e) = expect_type(&cw.ty, &zw.ty, term, "Case-Nat", "§4.2") {
                    return Err(e);
                }
                let scrut_bound = contextualize(&sw);
                let result_ty = zw.ty.duplicate();
                let branch_bound = zw.bound.duplicate().join(cw.bound.duplicate());
                let divergence = case_divergence(scrutinee, &sw, &zw, &cw);
                let mut out = sw.combine(&zw).combine(&cw);
                out.ty = result_ty;
                out.bound = scrut_bound.seq(branch_bound);
                out.divergence = divergence;
                Ok(out)
            },
            _ => {
                assert(false);
                Err(unknown_limit(term))
            },
        }
    }

    fn infer_fix(&mut self, term: &Term, env: &Env) -> (r: Result<PartialWitness, TypeError>)
        requires
            old(self).system.unknowns() < usize::MAX,
            term is Fix,
        ensures
            infer_post(old(self).system, final(self).system, term@, env@, r),
        decreases term, 1nat,
    {
        proof {
            let s0 = sys_of(old(self).system);
            assert(infer_m(term@, env@, s0) == infer_fix_m(term@, env@, s0));
        }
        match term {
            Term::Fix { func, param, param_ty, body, tag } => {
                if let Err(e) = expect_type(param_ty, &Type::Nat, term, "Fix", "§4.8") {
                    return Err(e);
                }
                if self.system.len() >= usize::MAX - 1 {
                    return Err(unknown_limit(term));
                }
                let unknown = self.system.fresh_unknown();
                let rec = RecContext {
                    func: func.clone(),
                    param: param.clone(),
                    tag: *tag,
                    strict_var: None,
                    unknown,
                };
                let body_env = env.with_rec(rec);
                let bw = match self.infer(body, &body_env) {
                    Ok(p) => p,
                    Err(e) => return Err(e),
                };
                let constraint = binder_constraint_exec(*tag, unknown, &bw.bound);
                self.system.constrain(unknown, constraint);
                let mut out = PartialWitness::pure(Type::Arrow(Box::new(Type::Nat), Box::new(bw.ty)));
                out.coverage = bw.coverage;
                out.bound = binder_bound_exec(*tag, unknown);
                out.divergence = if *tag == RecursionTag::Div {
                    Divergence::Div
                } else {
                    bw.divergence
                };
                tag_coverage_exec(&mut out.coverage, *tag);
                Ok(out)
            },
            _ => {
                assert(false);
                Err(unknown_limit(term))
            },
        }
    }

    fn infer_fix_group(&mut self, term: &Term, env: &Env) -> (r: Result<PartialWitness, TypeError>)
        requires
            old(self).system.unknowns() < usize::MAX,
            term is FixGroup,
        ensures
            infer_post(old(self).system, final(self).system, term@, env@, r),
        decreases term, 1nat,
    {
        proof {
            let s0 = sys_of(old(self).system);
            assert(infer_m(term@, env@, s0) == infer_fix_group_m(term@, env@, s0));
        }
        match term {
            Term::FixGroup { bindings, entry } => {
                proof {
                    lemma_bindings_view(bindings@);
                }
                if bindings.len() == 0 || !group_binds_name(bindings, entry.as_str()) {
                    let mut msg = owned("fix* entry `");
                    push(&mut msg, entry.as_str());
                    push(&mut msg, "` is not a member of the binding group");
                    return Err(
                        TypeError::new(
                            "FixGroup",
                            "§4.8",
                            term,
                            msg,
                            TypeErrorKind::Solver(owned("malformed fix* entry")),
                        ),
                    );
                }
                let ghost bv = bindings_view(bindings@);
                proof {
                    lemma_bindings_view(bindings@);
                }
                let recs = match self.alloc_recs(bindings, term) {
                    Ok(v) => v,
                    Err(e) => return Err(e),
                };
                let acc = match self.check_members(bindings, &recs, entry, env, term) {
                    Ok(a) => a,
                    Err(e) => return Err(e),
                };
                let mut out = PartialWitness::pure(
                    Type::Arrow(Box::new(Type::Nat), Box::new(acc.entry_ty)),
                );
                out.bound = acc.entry_bound;
                out.divergence = acc.entry_divergence;
                out.coverage = acc.coverage;
                Ok(out)
            },
            _ => {
                assert(false);
                Err(unknown_limit(term))
            },
        }
    }

    /// Checks the members of a `fix*` group in order.
    fn check_members(
        &mut self,
        bindings: &Vec<FixBinding>,
        recs: &Vec<RecContext>,
        entry: &String,
        env: &Env,
        term: &Term,
    ) -> (r: Result<GroupAcc, TypeError>)
        requires
            old(self).system.unknowns() < usize::MAX,
            recs@.len() == bindings@.len(),
            forall|j: int| #![trigger recs@[j]]
                0 <= j < recs@.len() ==> recs@[j].func@ == bindings@[j].func@ && recs@[j].unknown.0
                    < old(self).system.unknowns(),
            *term matches Term::FixGroup { bindings: bs, .. } && bs == *bindings,
        ensures
            (
                match r {
                    Ok(a) => Ok::<GroupAccM, TypeErrorM>(a@),
                    Err(e) => Err(e@),
                },
                sys_of(final(self).system),
            ) == group_fold_m(
                bindings_view(bindings@),
                recs_view(recs@),
                entry@,
                env@,
                sys_of(old(self).system),
            ),
            old(self).system.unknowns() <= final(self).system.unknowns(),
            final(self).system.unknowns() < usize::MAX,
        decreases term, 0nat,
    {
        let ghost bv = bindings_view(bindings@);
        proof {
            lemma_bindings_view(bindings@);
        }
        let ghost s1 = sys_of(self.system);
        let ghost rv = recs_view(recs@);
        let mut acc = GroupAcc {
            entry_ty: Type::Nat,
            entry_bound: BoundExpr::constant(Bound::ZERO()),
            entry_divergence: Divergence::Terminates,
            coverage: CoverageSet::new(),
        };
        let mut k: usize = 0;
        assert(bv.subrange(0, 0) =~= Seq::<FixBindingM>::empty());
        while k < bindings.len()
            invariant
                k <= bindings@.len(),
                bv == bindings_view(bindings@),
                bv.len() == bindings@.len(),
                forall|j: int| 0 <= j < bindings@.len() ==> #[trigger] bv[j] == binding_view(
                    bindings@[j],
                ),
                rv == recs_view(recs@),
                recs@.len() == bindings@.len(),
                forall|j: int| #![trigger recs@[j]]
                    0 <= j < recs@.len() ==> recs@[j].func@ == bindings@[j].func@
                        && recs@[j].unknown.0 < self.system.unknowns(),
                group_fold_m(bv.subrange(0, k as int), rv, entry@, env@, s1) == (
                    Ok::<GroupAccM, TypeErrorM>(acc@),
                    sys_of(self.system),
                ),
                s1 == sys_of(old(self).system),
                s1.unknowns <= self.system.unknowns(),
                self.system.unknowns() < usize::MAX,
                *term matches Term::FixGroup { bindings: bs, .. } && bs == *bindings,
            decreases bindings@.len() - k,
        {
            proof {
                assert(decreases_to!(*term => *bindings));
                assert(decreases_to!(*bindings => bindings@));
                assert(decreases_to!(bindings@ => bindings@[k as int]));
            }
            let b = &bindings[k];
            proof {
                lemma_group_fold_step(bv, k as int, rv, entry@, env@, s1);
                assert(recs@[k as int].func@ == b.func@);
            }
            acc = match self.check_member(b, acc, recs, entry.as_str(), env) {
                Ok(a) => a,
                Err(e) => {
                    proof {
                        lemma_group_err(bv, k + 1, rv, entry@, env@, s1);
                    }
                    return Err(e);
                },
            };
            k += 1;
        }
        assert(bv.subrange(0, bv.len() as int) =~= bv);
        Ok(acc)
    }

    /// One recursion context per member, each with a fresh unknown.
    fn alloc_recs(&mut self, bindings: &Vec<FixBinding>, term: &Term) -> (r: Result<
        Vec<RecContext>,
        TypeError,
    >)
        requires
            old(self).system.unknowns() < usize::MAX,
        ensures
            old(self).system.unknowns() <= final(self).system.unknowns(),
            final(self).system.unknowns() < usize::MAX,
            match r {
                Ok(v) => {
                    &&& group_recs_m(bindings_view(bindings@), term@, sys_of(old(self).system)) == (
                    Ok::<Seq<RecM>, TypeErrorM>(recs_view(v@)), sys_of(final(self).system))
                    &&& v@.len() == bindings@.len()
                    &&& forall|j: int| #![trigger v@[j]]
                        0 <= j < v@.len() ==> v@[j].func@ == bindings@[j].func@ && v@[j].unknown.0
                            < final(self).system.unknowns()
                },
                Err(e) => group_recs_m(bindings_view(bindings@), term@, sys_of(old(self).system))
                    == (Err::<Seq<RecM>, TypeErrorM>(e@), sys_of(final(self).system)),
            },
    {
        let ghost bv = bindings_view(bindings@);
        proof {
            lemma_bindings_view(bindings@);
        }
        let ghost s0 = sys_of(self.system);
        let mut recs: Vec<RecContext> = Vec::new();
        let mut i: usize = 0;
        assert(bv.subrange(0, 0) =~= Seq::<FixBindingM>::empty());
        assert(recs_view(recs@) =~= Seq::<RecM>::empty());
        while i < bindings.len()
            invariant
                i <= bindings@.len(),
                bv == bindings_view(bindings@),
                bv.len() == bindings@.len(),
                forall|j: int| 0 <= j < bindings@.len() ==> #[trigger] bv[j] == binding_view(
                    bindings@[j],
                ),
                group_recs_m(bv.subrange(0, i as int), term@, s0) == (
                    Ok::<Seq<RecM>, TypeErrorM>(recs_view(recs@)),
                    sys_of(self.system),
                ),
                recs@.len() == i,
                forall|j: int| #![trigger recs@[j]]
                    0 <= j < i ==> recs@[j].func@ == bindings@[j].func@ && recs@[j].unknown.0
                        < self.system.unknowns(),
                s0 == sys_of(old(self).system),
                s0.unknowns <= self.system.unknowns(),
                self.system.unknowns() < usize::MAX,
            decreases bindings@.len() - i,
        {
            let b = &bindings[i];
            let ghost sub1 = bv.subrange(0, i + 1);
            proof {
                assert(sub1.drop_last() =~= bv.subrange(0, i as int));
                assert(sub1.last() == bv[i as int]);
            }
            if let Err(e) = expect_type(&b.param_ty, &Type::Nat, term, "FixGroup", "§4.8") {
                proof {
                    lemma_recs_err(bv, i + 1, term@, s0);
                }
                return Err(e);
            }
            if self.system.len() >= usize::MAX - 1 {
                proof {
                    lemma_recs_err(bv, i + 1, term@, s0);
                }
                return Err(unknown_limit(term));
            }
            let unknown = self.system.fresh_unknown();
            let ghost before = recs@;
            recs.push(
                RecContext {
                    func: b.func.clone(),
                    param: b.param.clone(),
                    tag: b.tag,
                    strict_var: None,
                    unknown,
                },
            );
            assert(recs_view(recs@) =~= recs_view(before).push(recs@[i as int]@));
            i += 1;
        }
        assert(bv.subrange(0, bv.len() as int) =~= bv);
        Ok(recs)
    }

    /// Checks one member of a `fix*` group and constrains its unknown.
    fn check_member(
        &mut self,
        b: &FixBinding,
        acc: GroupAcc,
        recs: &Vec<RecContext>,
        entry: &str,
        env: &Env,
    ) -> (r: Result<GroupAcc, TypeError>)
        requires
            old(self).system.unknowns() < usize::MAX,
            forall|j: int| #![trigger recs@[j]]
                0 <= j < recs@.len() ==> recs@[j].unknown.0 < old(self).system.unknowns(),
            exists|j: int| 0 <= j < recs@.len() && #[trigger] recs@[j].func@ == b.func@,
        ensures
            (
                match r {
                    Ok(a) => Ok::<GroupAccM, TypeErrorM>(a@),
                    Err(e) => Err(e@),
                },
                sys_of(final(self).system),
            ) == group_step_m(acc@, binding_view(*b), recs_view(recs@), entry@, env@, sys_of(old(self).system)),
            old(self).system.unknowns() <= final(self).system.unknowns(),
            final(self).system.unknowns() < usize::MAX,
        decreases b, 0nat,
    {
        let ghost rv = recs_view(recs@);
        let body_env = env.with_rec_group(recs, b.func.as_str(), b.param.as_str());
        let bw = match self.infer(&b.body, &body_env) {
            Ok(p) => p,
            Err(e) => return Err(e),
        };
        proof {
            let j = choose|j: int| 0 <= j < recs@.len() && #[trigger] recs@[j].func@ == b.func@;
            assert(rv[j].func == b.func@);
            lemma_find_rec(rv, b.func@, j);
        }
        let rec = match find_rec(recs, b.func.as_str()) {
            Some(rc) => rc,
            None => {
                assert(false);
                return Err(unknown_limit(&b.body));
            },
        };
        proof {
            let j = choose|j: int| 0 <= j < rv.len() && rv[j] == find_rec_m(rv, b.func@)->0;
            assert(recs@[j].unknown.0 < old(self).system.unknowns());
        }
        let constraint = binder_constraint_exec(b.tag, rec.unknown, &bw.bound);
        self.system.constrain(rec.unknown, constraint);
        let mut coverage = acc.coverage;
        coverage.extend(&bw.coverage);
        tag_coverage_exec(&mut coverage, b.tag);
        if str_eq(b.func.as_str(), entry) {
            Ok(
                GroupAcc {
                    entry_ty: bw.ty,
                    entry_bound: binder_bound_exec(b.tag, rec.unknown),
                    entry_divergence: if b.tag == RecursionTag::Div {
                        Divergence::Div
                    } else {
                        bw.divergence
                    },
                    coverage,
                },
            )
        } else {
            Ok(GroupAcc { coverage, ..acc })
        }
    }

    fn infer_handle(&mut self, term: &Term, env: &Env) -> (r: Result<PartialWitness, TypeError>)
        requires
            old(self).system.unknowns() < usize::MAX,
            term is Handle,
        ensures
            infer_post(old(self).system, final(self).system, term@, env@, r),
        decreases term, 1nat,
    {
        proof {
            let s0 = sys_of(old(self).system);
            assert(infer_m(term@, env@, s0) == infer_handle_m(term@, env@, s0));
        }
        match term {
            Term::Handle { body, handler } => {
                proof {
                    lemma_handler_parts(*handler);
                }
                let bw = match self.infer(body, env) {
                    Ok(p) => p,
                    Err(e) => return Err(e),
                };
                let ret_env = env.with_var(handler.return_var.clone(), bw.ty.duplicate());
                let rw = match self.infer(&handler.return_body, &ret_env) {
                    Ok(p) => p,
                    Err(e) => return Err(e),
                };
                let acc = match self.check_clauses(handler, &bw, &rw, env, term) {
                    Ok(a) => a,
                    Err(e) => return Err(e),
                };
                let dropped = acc.introduced.saturating_sub(acc.resumes);
                let mut out = PartialWitness::pure(rw.ty.duplicate());
                out.effects = acc.handled.join(&rw.effects).join(&acc.op_effects);
                out.bound = rw.bound.duplicate().join(acc.op_bound);
                out.continuation_uses = ContinuationUseFacts {
                    introduced: acc.introduced,
                    resumed: acc.resumes,
                    dropped,
                };
                out.divergence = if bw.divergence == Divergence::Div || rw.divergence
                    == Divergence::Div || acc.op_diverges {
                    Divergence::Div
                } else {
                    Divergence::Terminates
                };
                let mut coverage = bw.coverage;
                coverage.extend(&rw.coverage);
                coverage.extend(&acc.op_coverage);
                out.coverage = coverage;
                Ok(out)
            },
            _ => {
                assert(false);
                Err(unknown_limit(term))
            },
        }
    }

    /// Checks the clauses of a handler in order.
    fn check_clauses(
        &mut self,
        handler: &Handler,
        bw: &PartialWitness,
        rw: &PartialWitness,
        env: &Env,
        term: &Term,
    ) -> (r: Result<HandleAcc, TypeError>)
        requires
            old(self).system.unknowns() < usize::MAX,
            *term matches Term::Handle { handler: h, .. } && h == *handler,
        ensures
            (
                match r {
                    Ok(a) => Ok::<HandleAccM, TypeErrorM>(a@),
                    Err(e) => Err(e@),
                },
                sys_of(final(self).system),
            ) == handle_fold_m(
                clauses_view(handler.clauses@),
                bw@,
                rw@,
                env@,
                term@,
                sys_of(old(self).system),
            ),
            old(self).system.unknowns() <= final(self).system.unknowns(),
            final(self).system.unknowns() < usize::MAX,
        decreases term, 0nat,
    {
        let ghost cv = clauses_view(handler.clauses@);
        proof {
            lemma_clauses_view(handler.clauses@);
        }
        let ghost s2 = sys_of(self.system);
        let mut acc = HandleAcc {
            handled: bw.effects.duplicate(),
            op_effects: Eff::empty(),
            op_bound: BoundExpr::constant(Bound::ZERO()),
            introduced: 0,
            resumes: 0,
            op_diverges: false,
            op_coverage: CoverageSet::new(),
        };
        let mut i: usize = 0;
        assert(cv.subrange(0, 0) =~= Seq::<OpClauseM>::empty());
        while i < handler.clauses.len()
            invariant
                i <= handler.clauses@.len(),
                cv == clauses_view(handler.clauses@),
                cv.len() == handler.clauses@.len(),
                forall|j: int| 0 <= j < cv.len() ==> #[trigger] cv[j] == clause_view(
                    handler.clauses@[j],
                ),
                handle_fold_m(cv.subrange(0, i as int), bw@, rw@, env@, term@, s2) == (
                    Ok::<HandleAccM, TypeErrorM>(acc@),
                    sys_of(self.system),
                ),
                s2 == sys_of(old(self).system),
                s2.unknowns <= self.system.unknowns(),
                self.system.unknowns() < usize::MAX,
                *term matches Term::Handle { handler: h, .. } && h == *handler,
            decreases handler.clauses@.len() - i,
        {
            proof {
                assert(decreases_to!(*term => *handler));
                assert(decreases_to!(*handler => handler.clauses));
                assert(decreases_to!(handler.clauses => handler.clauses@));
                assert(decreases_to!(handler.clauses@ => handler.clauses@[i as int]));
            }
            let c = &handler.clauses[i];
            proof {
                lemma_handle_fold_step(cv, i as int, bw@, rw@, env@, term@, s2);
            }
            acc = match self.check_clause(c, acc, bw, rw, env, term) {
                Ok(a) => a,
                Err(e) => {
                    proof {
                        lemma_handle_err(cv, i + 1, bw@, rw@, env@, term@, s2);
                    }
                    return Err(e);
                },
            };
            i += 1;
        }
        assert(cv.subrange(0, cv.len() as int) =~= cv);
        Ok(acc)
    }

    /// Checks one handler clause against the body and return witnesses.
    fn check_clause(
        &mut self,
        c: &OpClause,
        acc: HandleAcc,
        bw: &PartialWitness,
        rw: &PartialWitness,
        env: &Env,
        term: &Term,
    ) -> (r: Result<HandleAcc, TypeError>)
        requires
            old(self).system.unknowns() < usize::MAX,
        ensures
            (
                match r {
                    Ok(a) => Ok::<HandleAccM, TypeErrorM>(a@),
                    Err(e) => Err(e@),
                },
                sys_of(final(self).system),
            ) == handle_step_m(acc@, clause_view(*c), bw@, rw@, env@, term@, sys_of(old(self).system)),
            old(self).system.unknowns() <= final(self).system.unknowns(),
            final(self).system.unknowns() < usize::MAX,
        decreases c, 0nat,
    {
        let op_env = env.with_var(c.op_param.clone(), Type::Nat).with_cont(c.op_k.as_str());
        let ow = match self.infer(&c.op_body, &op_env) {
            Ok(p) => p,
            Err(e) => return Err(e),
        };
        if let Err(e) = expect_type(&ow.ty, &rw.ty, term, "Handle", "§4.7") {
            return Err(e);
        }
        let resumed = match classify_handler_k_usage(&c.op_body, c.op_k.as_str()) {
            Ok(resumed) => resumed,
            Err(message) => {
                let mut full = owned("label ");
                push(&mut full, c.op_label.name());
                push(&mut full, ": ");
                push(&mut full, message.as_str());
                return Err(
                    TypeError::new(
                        "Handle",
                        "§4.7",
                        &c.op_body,
                        full,
                        TypeErrorKind::HandlerContinuationUsage(message),
                    ),
                );
            },
        };
        let introduced = if bw.effects.contains(c.op_label) {
            acc.introduced.saturating_add(1)
        } else {
            acc.introduced
        };
        let resumes = if resumed {
            acc.resumes.saturating_add(1)
        } else {
            acc.resumes
        };
        let effective = if resumed {
            ow.bound.duplicate().seq(bw.bound.duplicate())
        } else {
            ow.bound.duplicate()
        };
        let mut op_coverage = acc.op_coverage;
        op_coverage.extend(&ow.coverage);
        op_coverage.insert(
            if resumed {
                CoverageTag::HandleResuming
            } else {
                CoverageTag::HandleDropped
            },
        );
        Ok(
            HandleAcc {
                handled: acc.handled.without(c.op_label),
                op_effects: acc.op_effects.join(&ow.effects),
                op_bound: acc.op_bound.join(effective),
                introduced,
                resumes,
                op_diverges: acc.op_diverges || ow.divergence == Divergence::Div,
                op_coverage,
            },
        )
    }
}

} // verus!
