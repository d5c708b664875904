//! The compositional witness analyzer, specified over term models.
//!
//! It mirrors the checker's typing rules without a solver: recursion binders contribute
//! their bounds directly (`ω` for divergent recursion), so the witness of a generated term
//! can be computed in one pass and compared with the checker's.

use vstd::prelude::*;

use crate::check::solve::UnknownId;
use crate::check::typing::{
    find_rec_m, lookup_m, nat_arrow_m, nat_cont_m, sat_add, tag_coverage, with_cont_m,
    with_rec_group_m, with_rec_m, with_strict_var_m, with_var_m, EnvM, RecM,
};
use crate::core_ast::{
    ContinuationUseFacts, CoverageTag, Divergence, FixBindingM, OpClauseM, RecursionTag, TermM,
    Type, WitnessM,
};
use crate::grade::{bound_join, bound_seq, Bound, Region};

verus! {

broadcast use vstd::seq::group_seq_axioms;

pub open spec fn d_pure(ty: Type) -> WitnessM {
    WitnessM {
        ty,
        effects: Set::empty(),
        bound: Bound::Finite(0),
        region: Region::Arena,
        uses: ContinuationUseFacts { introduced: 0, resumed: 0, dropped: 0 },
        divergence: Divergence::Terminates,
        coverage: Set::empty(),
    }
}

pub open spec fn d_combine(a: WitnessM, b: WitnessM) -> WitnessM {
    WitnessM {
        ty: a.ty,
        effects: a.effects.union(b.effects),
        bound: bound_seq(a.bound, b.bound),
        region: Region::Arena,
        uses: ContinuationUseFacts {
            introduced: sat_add(a.uses.introduced, b.uses.introduced),
            resumed: sat_add(a.uses.resumed, b.uses.resumed),
            dropped: sat_add(a.uses.dropped, b.uses.dropped),
        },
        divergence: if b.divergence == Divergence::Div {
            Divergence::Div
        } else {
            a.divergence
        },
        coverage: a.coverage.union(b.coverage),
    }
}

/// An effectful child costs one more frame.
pub open spec fn d_ctx(p: WitnessM) -> Bound {
    if p.effects != Set::<Seq<char>>::empty() {
        bound_seq(p.bound, Bound::Finite(1))
    } else {
        p.bound
    }
}

pub open spec fn d_ty(p: WitnessM, ty: Type) -> WitnessM {
    WitnessM { ty, ..p }
}

pub open spec fn d_cov(p: WitnessM, tag: CoverageTag) -> WitnessM {
    WitnessM { coverage: p.coverage.insert(tag), ..p }
}

/// The boundedness of a recursion binder from its body's.
pub open spec fn fix_bound(tag: RecursionTag, body: Bound) -> Bound {
    match tag {
        RecursionTag::StructuralDescent => body,
        RecursionTag::Measure => bound_join(body, Bound::Finite(1)),
        RecursionTag::Div => Bound::Omega,
    }
}

/// `ω` means divergence; otherwise the body's divergence stands.
pub open spec fn div_of_bound(b: Bound, body: Divergence) -> Divergence {
    if b == Bound::Omega {
        Divergence::Div
    } else {
        body
    }
}

pub open spec fn fresh_rec(func: Seq<char>, param: Seq<char>, tag: RecursionTag) -> RecM {
    RecM { func, param, tag, strict_var: None, unknown: UnknownId(0) }
}

pub open spec fn derive_m(t: TermM, env: EnvM) -> WitnessM
    decreases t, 2nat,
{
    match t {
        TermM::Unit => d_pure(Type::Unit),
        TermM::Zero => d_pure(Type::Nat),
        TermM::Array(_) => d_pure(Type::Array),
        TermM::Cont(_) => d_pure(nat_cont_m()),
        TermM::Var(name) => d_pure(
            match lookup_m(env.vars, name) {
                Some(ty) => ty,
                None => Type::Nat,
            },
        ),
        TermM::Succ(_) | TermM::ArrayLen(_) | TermM::Perform(_, _) | TermM::Move(_)
        | TermM::Inplace(_) | TermM::Freeze(_) | TermM::Mark(_, _) | TermM::Resume { .. } => {
            derive_unary_m(t, env)
        },
        TermM::MkArray(_, _) | TermM::ArrayGet(_, _) | TermM::ArraySet(_, _, _) => derive_array_m(
            t,
            env,
        ),
        TermM::Lam { .. } | TermM::Let { .. } | TermM::Fix { .. } => derive_binder_m(t, env),
        TermM::App(_, _) => derive_app_m(t, env),
        TermM::CaseNat { .. } => derive_case_m(t, env),
        TermM::FixGroup { .. } => derive_fix_group_m(t, env),
        TermM::Handle { .. } => derive_handle_m(t, env),
    }
}

/// Forms with one sub-derivation.
pub open spec fn derive_unary_m(t: TermM, env: EnvM) -> WitnessM
    decreases t, 1nat,
{
    match t {
        TermM::Succ(inner) => {
            let out = derive_m(*inner, env);
            WitnessM { ty: Type::Nat, bound: d_ctx(out), ..out }
        },
        TermM::ArrayLen(array) => d_cov(d_ty(derive_m(*array, env), Type::Nat), CoverageTag::Array),
        TermM::Perform(label, arg) => {
            let out = derive_m(*arg, env);
            d_cov(
                WitnessM { ty: Type::Nat, effects: out.effects.insert(label), ..out },
                CoverageTag::Perform,
            )
        },
        TermM::Move(inner) | TermM::Inplace(inner) | TermM::Freeze(inner) => d_cov(
            derive_m(*inner, env),
            CoverageTag::Array,
        ),
        TermM::Mark(tag, inner) => d_cov(derive_m(*inner, env), tag),
        TermM::Resume { kont, arg } => {
            let out = derive_m(*arg, env);
            let resumes = match *kont {
                TermM::Var(name) => env.cont_vars.contains(name),
                _ => false,
            };
            WitnessM {
                ty: Type::Nat,
                uses: ContinuationUseFacts {
                    resumed: if resumes {
                        sat_add(out.uses.resumed, 1)
                    } else {
                        out.uses.resumed
                    },
                    ..out.uses
                },
                ..out
            }
        },
        _ => d_pure(Type::Unit),
    }
}

pub open spec fn derive_array_m(t: TermM, env: EnvM) -> WitnessM
    decreases t, 1nat,
{
    match t {
        TermM::MkArray(len, fill) => d_cov(
            d_ty(d_combine(derive_m(*len, env), derive_m(*fill, env)), Type::Array),
            CoverageTag::Array,
        ),
        TermM::ArrayGet(array, index) => d_cov(
            d_ty(d_combine(derive_m(*array, env), derive_m(*index, env)), Type::Nat),
            CoverageTag::Array,
        ),
        TermM::ArraySet(array, index, value) => d_cov(
            d_ty(
                d_combine(
                    d_combine(derive_m(*array, env), derive_m(*index, env)),
                    derive_m(*value, env),
                ),
                Type::Array,
            ),
            CoverageTag::Array,
        ),
        _ => d_pure(Type::Unit),
    }
}

pub open spec fn derive_binder_m(t: TermM, env: EnvM) -> WitnessM
    decreases t, 1nat,
{
    match t {
        TermM::Lam { param, param_ty, body } => {
            let bd = derive_m(*body, with_var_m(env, param, param_ty));
            d_pure(Type::Arrow(Box::new(param_ty), Box::new(bd.ty)))
        },
        TermM::Let { var, expr, body } => {
            let ed = derive_m(*expr, env);
            let bd = derive_m(*body, with_var_m(env, var, ed.ty));
            d_cov(
                WitnessM { ty: bd.ty, bound: bound_seq(d_ctx(ed), bd.bound), ..d_combine(ed, bd) },
                CoverageTag::Let,
            )
        },
        TermM::Fix { func, param, body, tag, .. } => {
            let bd = derive_m(*body, with_rec_m(env, fresh_rec(func, param, tag)));
            let b = fix_bound(tag, bd.bound);
            WitnessM {
                bound: b,
                divergence: div_of_bound(b, bd.divergence),
                coverage: tag_coverage(bd.coverage, tag),
                ..d_pure(nat_arrow_m(bd.ty))
            }
        },
        _ => d_pure(Type::Unit),
    }
}

/// Divergence of a `case`: a literal scrutinee selects its branch.
pub open spec fn d_case_divergence(
    scrutinee: TermM,
    sd: WitnessM,
    zd: WitnessM,
    cd: WitnessM,
) -> Divergence {
    if sd.divergence == Divergence::Div {
        Divergence::Div
    } else {
        match scrutinee {
            TermM::Zero => zd.divergence,
            TermM::Succ(_) => cd.divergence,
            _ => if zd.divergence == Divergence::Div && cd.divergence == Divergence::Div {
                Divergence::Div
            } else {
                Divergence::Terminates
            },
        }
    }
}

pub open spec fn derive_case_m(t: TermM, env: EnvM) -> WitnessM
    decreases t, 1nat,
{
    match t {
        TermM::CaseNat { scrutinee, zero_body, succ_var, succ_body } => {
            let sd = derive_m(*scrutinee, env);
            let zd = derive_m(*zero_body, env);
            let plain = with_var_m(env, succ_var, Type::Nat);
            let succ_env = match *scrutinee {
                TermM::Var(name) => if env.rec is Some && env.rec->0.param == name {
                    with_strict_var_m(plain, succ_var)
                } else {
                    plain
                },
                _ => plain,
            };
            let cd = derive_m(*succ_body, succ_env);
            WitnessM {
                ty: zd.ty,
                bound: bound_seq(d_ctx(sd), bound_join(zd.bound, cd.bound)),
                divergence: d_case_divergence(*scrutinee, sd, zd, cd),
                ..d_combine(d_combine(sd, zd), cd)
            }
        },
        _ => d_pure(Type::Unit),
    }
}

/// Bound of a call to a recursion member.
pub open spec fn d_rec_call_bound(rec: RecM, env: EnvM, strict: bool) -> Bound {
    match rec.tag {
        RecursionTag::StructuralDescent => if strict && env.rec is Some && env.rec->0.func
            == rec.func {
            Bound::Finite(1)
        } else {
            Bound::Omega
        },
        RecursionTag::Measure => Bound::Finite(1),
        RecursionTag::Div => Bound::Omega,
    }
}

pub open spec fn derive_app_m(t: TermM, env: EnvM) -> WitnessM
    decreases t, 1nat,
{
    match t {
        TermM::App(fun, arg) => {
            let rec_target = match *fun {
                TermM::Var(func) => find_rec_m(env.recs, func),
                _ => None,
            };
            match rec_target {
                Some(rec) => {
                    let ad = derive_m(*arg, env);
                    let strict = match *arg {
                        TermM::Var(name) => rec.strict_var == Some(name) || (env.rec is Some
                            && env.rec->0.func == rec.func && name != env.rec->0.param),
                        _ => false,
                    };
                    let b = d_rec_call_bound(rec, env, strict);
                    WitnessM {
                        ty: Type::Nat,
                        bound: b,
                        divergence: div_of_bound(b, ad.divergence),
                        ..ad
                    }
                },
                None => match *fun {
                    TermM::Lam { param, param_ty, body } => {
                        let ad = derive_m(*arg, env);
                        let bd = derive_m(*body, with_var_m(env, param, param_ty));
                        d_cov(
                            WitnessM {
                                ty: bd.ty,
                                bound: bound_seq(d_ctx(ad), bd.bound),
                                ..d_combine(ad, bd)
                            },
                            CoverageTag::LambdaApp,
                        )
                    },
                    _ => {
                        let fd = derive_m(*fun, env);
                        let ad = derive_m(*arg, env);
                        WitnessM {
                            ty: match fd.ty {
                                Type::Arrow(_, ret) => *ret,
                                _ => Type::Nat,
                            },
                            bound: bound_seq(d_ctx(fd), d_ctx(ad)),
                            ..d_combine(fd, ad)
                        }
                    },
                },
            }
        },
        _ => d_pure(Type::Unit),
    }
}

/// The recursion contexts of a group's members.
pub open spec fn group_recs(bs: Seq<FixBindingM>) -> Seq<RecM> {
    bs.map_values(|b: FixBindingM| fresh_rec(b.func, b.param, b.tag))
}

/// The derivation of one member's body.
pub open spec fn member_derive_m(b: FixBindingM, recs: Seq<RecM>, env: EnvM) -> WitnessM
    decreases b, 0nat,
{
    derive_m(*b.body, with_rec_group_m(env, recs, b.func, b.param))
}

/// Coverage of the members `bs`, with each member's recursion tag.
pub open spec fn group_cov_m(bs: Seq<FixBindingM>, recs: Seq<RecM>, env: EnvM) -> Set<CoverageTag>
    decreases bs, 0nat,
{
    if bs.len() == 0 {
        Set::empty()
    } else {
        tag_coverage(
            group_cov_m(bs.drop_last(), recs, env).union(
                member_derive_m(bs.last(), recs, env).coverage,
            ),
            bs.last().tag,
        )
    }
}

/// The first member named `f`.
pub open spec fn first_named(bs: Seq<FixBindingM>, f: Seq<char>) -> Option<int>
    decreases bs.len(),
{
    if bs.len() == 0 {
        None
    } else if bs[0].func == f {
        Some(0)
    } else {
        match first_named(bs.drop_first(), f) {
            Some(i) => Some(i + 1),
            None => None,
        }
    }
}

/// The last member named `f` (whose derivation is the one kept for that name).
pub open spec fn last_named(bs: Seq<FixBindingM>, f: Seq<char>) -> int
    decreases bs.len(),
{
    if bs.len() == 0 {
        0
    } else if bs.last().func == f {
        bs.len() - 1
    } else {
        last_named(bs.drop_last(), f)
    }
}

pub proof fn lemma_last_named(bs: Seq<FixBindingM>, f: Seq<char>)
    requires
        bs.len() > 0,
    ensures
        0 <= last_named(bs, f) < bs.len(),
    decreases bs.len(),
{
    if bs.last().func != f {
        if bs.len() > 1 {
            lemma_last_named(bs.drop_last(), f);
        } else {
            assert(last_named(bs.drop_last(), f) == 0);
        }
    }
}

pub open spec fn derive_fix_group_m(t: TermM, env: EnvM) -> WitnessM
    decreases t, 1nat,
{
    match t {
        TermM::FixGroup { bindings, entry } => if bindings.len() == 0 {
            d_pure(nat_arrow_m(Type::Nat))
        } else {
            let recs = group_recs(bindings);
            let ei = match first_named(bindings, entry) {
                Some(i) => i,
                None => 0,
            };
            let eb = bindings[ei];
            proof {
                lemma_last_named(bindings, eb.func);
            }
            let ed = member_derive_m(bindings[last_named(bindings, eb.func)], recs, env);
            let b = fix_bound(eb.tag, ed.bound);
            WitnessM {
                coverage: group_cov_m(bindings, recs, env),
                bound: b,
                divergence: div_of_bound(b, ed.divergence),
                ..d_pure(nat_arrow_m(ed.ty))
            }
        },
        _ => d_pure(Type::Unit),
    }
}

/// What analysing the clauses of a handler accumulates.
pub struct HandleAccD {
    pub handled: Set<Seq<char>>,
    pub op_effects: Set<Seq<char>>,
    pub op_bound: Bound,
    pub introduced: u32,
    pub resumes: u32,
    pub op_diverges: bool,
    pub op_coverage: Set<CoverageTag>,
}

pub open spec fn d_handle_init(bd: WitnessM) -> HandleAccD {
    HandleAccD {
        handled: bd.effects,
        op_effects: Set::empty(),
        op_bound: Bound::Finite(0),
        introduced: 0,
        resumes: 0,
        op_diverges: false,
        op_coverage: Set::empty(),
    }
}

pub open spec fn d_handle_step(acc: HandleAccD, c: OpClauseM, bd: WitnessM, env: EnvM) -> HandleAccD
    decreases c, 0nat,
{
    let od = derive_m(*c.op_body, with_cont_m(with_var_m(env, c.op_param, Type::Nat), c.op_k));
    let resumed = od.uses.resumed;
    HandleAccD {
        handled: acc.handled.remove(c.op_label),
        op_effects: acc.op_effects.union(od.effects),
        op_bound: bound_join(
            acc.op_bound,
            if resumed > 0 {
                bound_seq(od.bound, bd.bound)
            } else {
                od.bound
            },
        ),
        introduced: if bd.effects.contains(c.op_label) {
            sat_add(acc.introduced, 1)
        } else {
            acc.introduced
        },
        resumes: sat_add(acc.resumes, resumed),
        op_diverges: acc.op_diverges || od.divergence == Divergence::Div,
        op_coverage: acc.op_coverage.union(od.coverage).insert(
            if resumed > 0 {
                CoverageTag::HandleResuming
            } else {
                CoverageTag::HandleDropped
            },
        ),
    }
}

pub open spec fn d_handle_fold(cs: Seq<OpClauseM>, bd: WitnessM, env: EnvM) -> HandleAccD
    decreases cs, 0nat,
{
    if cs.len() == 0 {
        d_handle_init(bd)
    } else {
        d_handle_step(d_handle_fold(cs.drop_last(), bd, env), cs.last(), bd, env)
    }
}

pub open spec fn derive_handle_m(t: TermM, env: EnvM) -> WitnessM
    decreases t, 1nat,
{
    match t {
        TermM::Handle { body, handler } => {
            let bd = derive_m(*body, env);
            let rd = derive_m(*handler.return_body, with_var_m(env, handler.return_var, bd.ty));
            let acc = d_handle_fold(handler.clauses, bd, env);
            WitnessM {
                ty: rd.ty,
                effects: acc.handled.union(rd.effects).union(acc.op_effects),
                bound: bound_join(rd.bound, acc.op_bound),
                region: Region::Arena,
                uses: ContinuationUseFacts {
                    introduced: acc.introduced,
                    resumed: acc.resumes,
                    dropped: if acc.introduced >= acc.resumes {
                        (acc.introduced - acc.resumes) as u32
                    } else {
                        0
                    },
                },
                divergence: if bd.divergence == Divergence::Div || rd.divergence == Divergence::Div
                    || acc.op_diverges {
                    Divergence::Div
                } else {
                    Divergence::Terminates
                },
                coverage: bd.coverage.union(rd.coverage).union(acc.op_coverage),
            }
        },
        _ => d_pure(Type::Unit),
    }
}

} // verus!
