//! The executable witness analyzer: `derive` computes exactly `derive_m`.

use vstd::prelude::*;

use crate::check::env::{find_rec, recs_view, Env, RecContext};
use crate::check::infer::{lemma_handler_parts, lemma_head_view};
use crate::check::solve::UnknownId;
use crate::check::typing::{empty_env, tag_coverage, RecM};
use crate::core_ast::{
    binding_view, bindings_view, clause_view, clauses_view, lemma_bindings_view,
    lemma_clauses_view, ContinuationUseFacts, CoverageSet, CoverageTag, Divergence, FixBinding,
    FixBindingM, Handler, OpClause, OpClauseM, RecursionTag, Term, TermM, Type, Witness,
};
use crate::gen::derive_spec::{
    d_case_divergence, d_combine, d_ctx, d_handle_fold, d_handle_init, d_handle_step, d_pure,
    d_rec_call_bound, derive_app_m, derive_array_m, derive_binder_m, derive_case_m,
    derive_fix_group_m, derive_handle_m, derive_m, derive_unary_m, div_of_bound, first_named,
    fix_bound, fresh_rec, group_cov_m, group_recs, last_named, lemma_last_named, member_derive_m,
    HandleAccD,
};
use crate::grade::{Bound, Eff, Region};
use crate::text::str_eq;

verus! {

broadcast use vstd::std_specs::vec::group_vec_axioms, vstd::seq::group_seq_axioms;

fn pure_witness(ty: Type) -> (r: Witness)
    ensures
        r@ == d_pure(ty),
{
    Witness {
        ty,
        effects: Eff::empty(),
        bound: Bound::ZERO(),
        region: Region::Arena,
        continuation_uses: ContinuationUseFacts { introduced: 0, resumed: 0, dropped: 0 },
        divergence: Divergence::Terminates,
        coverage: CoverageSet::new(),
    }
}

fn combine(a: Witness, b: &Witness) -> (r: Witness)
    ensures
        r@ == d_combine(a@, b@),
{
    let mut coverage = a.coverage;
    coverage.extend(&b.coverage);
    Witness {
        ty: a.ty,
        effects: a.effects.join(&b.effects),
        bound: a.bound.sequential(b.bound),
        region: a.region.meet(b.region),
        continuation_uses: ContinuationUseFacts {
            introduced: a.continuation_uses.introduced.saturating_add(
                b.continuation_uses.introduced,
            ),
            resumed: a.continuation_uses.resumed.saturating_add(b.continuation_uses.resumed),
            dropped: a.continuation_uses.dropped.saturating_add(b.continuation_uses.dropped),
        },
        divergence: if b.divergence == Divergence::Div {
            Divergence::Div
        } else {
            a.divergence
        },
        coverage,
    }
}

fn ctx(w: &Witness) -> (r: Bound)
    ensures
        r == d_ctx(w@),
{
    if !w.effects.is_empty() {
        w.bound.sequential(Bound::finite(1))
    } else {
        w.bound
    }
}

fn fix_bound_exec(tag: RecursionTag, body: Bound) -> (r: Bound)
    ensures
        r == fix_bound(tag, body),
{
    match tag {
        RecursionTag::StructuralDescent => body,
        RecursionTag::Measure => body.join(Bound::finite(1)),
        RecursionTag::Div => Bound::Omega,
    }
}

fn div_of_bound_exec(b: Bound, body: Divergence) -> (r: Divergence)
    ensures
        r == div_of_bound(b, body),
{
    if b == Bound::Omega {
        Divergence::Div
    } else {
        body
    }
}

fn tag_coverage_exec(cov: &mut CoverageSet, tag: RecursionTag)
    ensures
        final(cov)@ == tag_coverage(old(cov)@, tag),
{
    match tag {
        RecursionTag::StructuralDescent => cov.insert(CoverageTag::FixStructural),
        RecursionTag::Measure => cov.insert(CoverageTag::FixMeasure),
        RecursionTag::Div => {},
    }
}

/// The witness of a closed term, computed compositionally without the solver.
pub fn derive_witness(term: &Term) -> (r: Witness)
    ensures
        r@ == derive_m(term@, empty_env()),
{
    derive(term, &Env::new())
}

/// The witness of `term` under `env`.
pub fn derive(term: &Term, env: &Env) -> (r: Witness)
    ensures
        r@ == derive_m(term@, env@),
    decreases term, 2nat,
{
    match term {
        Term::Unit => pure_witness(Type::Unit),
        Term::Zero => pure_witness(Type::Nat),
        Term::Array(_) => pure_witness(Type::Array),
        Term::Cont(_) => pure_witness(Type::nat_cont()),
        Term::Var(name) => pure_witness(
            match env.lookup(name.as_str()) {
                Some(ty) => ty,
                None => Type::Nat,
            },
        ),
        Term::Succ(_) | Term::ArrayLen(_) | Term::Perform(_, _) | Term::Move(_) | Term::Inplace(_)
        | Term::Freeze(_) | Term::Mark(_, _) | Term::Resume { .. } => derive_unary(term, env),
        Term::MkArray(_, _) | Term::ArrayGet(_, _) | Term::ArraySet(_, _, _) => derive_array(
            term,
            env,
        ),
        Term::Lam { .. } | Term::Let { .. } | Term::Fix { .. } => derive_binder(term, env),
        Term::App(_, _) => derive_app(term, env),
        Term::CaseNat { .. } => derive_case(term, env),
        Term::FixGroup { .. } => derive_fix_group(term, env),
        Term::Handle { .. } => derive_handle(term, env),
    }
}

fn derive_unary(term: &Term, env: &Env) -> (r: Witness)
    requires
        term is Succ || term is ArrayLen || term is Perform || term is Move || term is Inplace
            || term is Freeze || term is Mark || term is Resume,
    ensures
        r@ == derive_m(term@, env@),
    decreases term, 1nat,
{
    assert(derive_m(term@, env@) == derive_unary_m(term@, env@));
    match term {
        Term::Succ(inner) => {
            let mut out = derive(inner, env);
            let bound = ctx(&out);
            out.ty = Type::Nat;
            out.bound = bound;
            out
        },
        Term::ArrayLen(array) => {
            let mut out = derive(array, env);
            out.ty = Type::Nat;
            out.coverage.insert(CoverageTag::Array);
            out
        },
        Term::Perform(label, arg) => {
            let mut out = derive(arg, env);
            let ghost before = out.effects@;
            out.ty = Type::Nat;
            out.effects = out.effects.join(&Eff::singleton(*label));
            assert(out.effects@ =~= before.insert(label@));
            out.coverage.insert(CoverageTag::Perform);
            out
        },
        Term::Move(inner) | Term::Inplace(inner) | Term::Freeze(inner) => {
            let mut out = derive(inner, env);
            out.coverage.insert(CoverageTag::Array);
            out
        },
        Term::Mark(tag, inner) => {
            let mut out = derive(inner, env);
            out.coverage.insert(*tag);
            out
        },
        Term::Resume { kont, arg } => {
            proof {
                lemma_head_view(kont);
            }
            let mut out = derive(arg, env);
            let resumes = match &**kont {
                Term::Var(name) => env.is_cont_var(name.as_str()),
                _ => false,
            };
            out.ty = Type::Nat;
            if resumes {
                out.continuation_uses.resumed = out.continuation_uses.resumed.saturating_add(1);
            }
            out
        },
        _ => {
            assert(false);
            pure_witness(Type::Unit)
        },
    }
}

fn derive_array(term: &Term, env: &Env) -> (r: Witness)
    requires
        term is MkArray || term is ArrayGet || term is ArraySet,
    ensures
        r@ == derive_m(term@, env@),
    decreases term, 1nat,
{
    assert(derive_m(term@, env@) == derive_array_m(term@, env@));
    match term {
        Term::MkArray(len, fill) => {
            let ld = derive(len, env);
            let fd = derive(fill, env);
            let mut out = combine(ld, &fd);
            out.ty = Type::Array;
            out.coverage.insert(CoverageTag::Array);
            out
        },
        Term::ArrayGet(array, index) => {
            let ad = derive(array, env);
            let id = derive(index, env);
            let mut out = combine(ad, &id);
            out.ty = Type::Nat;
            out.coverage.insert(CoverageTag::Array);
            out
        },
        Term::ArraySet(array, index, value) => {
            let ad = derive(array, env);
            let id = derive(index, env);
            let vd = derive(value, env);
            let mut out = combine(combine(ad, &id), &vd);
            out.ty = Type::Array;
            out.coverage.insert(CoverageTag::Array);
            out
        },
        _ => {
            assert(false);
            pure_witness(Type::Unit)
        },
    }
}

fn derive_binder(term: &Term, env: &Env) -> (r: Witness)
    requires
        term is Lam || term is Let || term is Fix,
    ensures
        r@ == derive_m(term@, env@),
    decreases term, 1nat,
{
    assert(derive_m(term@, env@) == derive_binder_m(term@, env@));
    match term {
        Term::Lam { param, param_ty, body } => {
            let bd = derive(body, &env.with_var(param.clone(), param_ty.duplicate()));
            pure_witness(Type::Arrow(Box::new(param_ty.duplicate()), Box::new(bd.ty)))
        },
        Term::Let { var, expr, body } => {
            let ed = derive(expr, env);
            let bd = derive(body, &env.with_var(var.clone(), ed.ty.duplicate()));
            let result_ty = bd.ty.duplicate();
            let expr_bound = ctx(&ed);
            let body_bound = bd.bound;
            let mut out = combine(ed, &bd);
            out.ty = result_ty;
            out.bound = expr_bound.sequential(body_bound);
            out.coverage.insert(CoverageTag::Let);
            out
        },
        Term::Fix { func, param, body, tag, .. } => {
            let rec = RecContext {
                func: func.clone(),
                param: param.clone(),
                tag: *tag,
                strict_var: None,
                unknown: UnknownId(0),
            };
            assert(rec@ == fresh_rec(func@, param@, *tag));
            let bd = derive(body, &env.with_rec(rec));
            let b = fix_bound_exec(*tag, bd.bound);
            let mut out = pure_witness(Type::Arrow(Box::new(Type::Nat), Box::new(bd.ty)));
            out.coverage = bd.coverage;
            out.bound = b;
            out.divergence = div_of_bound_exec(b, bd.divergence);
            tag_coverage_exec(&mut out.coverage, *tag);
            out
        },
        _ => {
            assert(false);
            pure_witness(Type::Unit)
        },
    }
}

fn d_case_divergence_exec(scrutinee: &Term, sd: &Witness, zd: &Witness, cd: &Witness) -> (r:
    Divergence)
    ensures
        r == d_case_divergence(scrutinee@, sd@, zd@, cd@),
{
    if sd.divergence == Divergence::Div {
        return Divergence::Div;
    }
    match scrutinee {
        Term::Zero => zd.divergence,
        Term::Succ(_) => cd.divergence,
        _ => if zd.divergence == Divergence::Div && cd.divergence == Divergence::Div {
            Divergence::Div
        } else {
            Divergence::Terminates
        },
    }
}

fn derive_case(term: &Term, env: &Env) -> (r: Witness)
    requires
        term is CaseNat,
    ensures
        r@ == derive_m(term@, env@),
    decreases term, 1nat,
{
    assert(derive_m(term@, env@) == derive_case_m(term@, env@));
    match term {
        Term::CaseNat { scrutinee, zero_body, succ_var, succ_body } => {
            proof {
                lemma_head_view(scrutinee);
            }
            let sd = derive(scrutinee, env);
            let zd = derive(zero_body, env);
            let plain = env.with_var(succ_var.clone(), Type::Nat);
            let strict_scrutinee = match &**scrutinee {
                Term::Var(name) => match env.current_rec() {
                    Some(rc) => str_eq(rc.param.as_str(), name.as_str()),
                    None => false,
                },
                _ => false,
            };
            let succ_env = if strict_scrutinee {
                plain.with_strict_var(succ_var.as_str())
            } else {
                plain
            };
            let cd = derive(succ_body, &succ_env);
            let scrut_bound = ctx(&sd);
            let result_ty = zd.ty.duplicate();
            let branch_bound = zd.bound.join(cd.bound);
            let divergence = d_case_divergence_exec(scrutinee, &sd, &zd, &cd);
            let mut out = combine(combine(sd, &zd), &cd);
            out.ty = result_ty;
            out.bound = scrut_bound.sequential(branch_bound);
            out.divergence = divergence;
            out
        },
        _ => {
            assert(false);
            pure_witness(Type::Unit)
        },
    }
}

fn derive_app(term: &Term, env: &Env) -> (r: Witness)
    requires
        term is App,
    ensures
        r@ == derive_m(term@, env@),
    decreases term, 1nat,
{
    assert(derive_m(term@, env@) == derive_app_m(term@, env@));
    match term {
        Term::App(fun, arg) => {
            proof {
                lemma_head_view(fun);
                lemma_head_view(arg);
            }
            let rec_target = match &**fun {
                Term::Var(func) => find_rec(env.group(), func.as_str()),
                _ => None,
            };
            match rec_target {
                Some(rec) => {
                    let ad = derive(arg, env);
                    let cur = env.current_rec();
                    let same = match cur {
                        Some(c) => str_eq(c.func.as_str(), rec.func.as_str()),
                        None => false,
                    };
                    let strict = match &**arg {
                        Term::Var(name) => (match &rec.strict_var {
                            Some(v) => str_eq(v.as_str(), name.as_str()),
                            None => false,
                        }) || (match cur {
                            Some(c) => same && !str_eq(name.as_str(), c.param.as_str()),
                            None => false,
                        }),
                        _ => false,
                    };
                    let b = match rec.tag {
                        RecursionTag::StructuralDescent => if strict && same {
                            Bound::finite(1)
                        } else {
                            Bound::Omega
                        },
                        RecursionTag::Measure => Bound::finite(1),
                        RecursionTag::Div => Bound::Omega,
                    };
                    assert(b == d_rec_call_bound(rec@, env@, strict));
                    let mut out = ad;
                    out.ty = Type::Nat;
                    out.bound = b;
                    out.divergence = div_of_bound_exec(b, out.divergence);
                    out
                },
                None => match &**fun {
                    Term::Lam { param, param_ty, body } => {
                        let ad = derive(arg, env);
                        let bd = derive(body, &env.with_var(param.clone(), param_ty.duplicate()));
                        let result_ty = bd.ty.duplicate();
                        let arg_bound = ctx(&ad);
                        let body_bound = bd.bound;
                        let mut out = combine(ad, &bd);
                        out.ty = result_ty;
                        out.bound = arg_bound.sequential(body_bound);
                        out.coverage.insert(CoverageTag::LambdaApp);
                        out
                    },
                    _ => {
                        let fd = derive(fun, env);
                        let ad = derive(arg, env);
                        let result_ty = match &fd.ty {
                            Type::Arrow(_, ret) => ret.duplicate(),
                            _ => Type::Nat,
                        };
                        let fun_bound = ctx(&fd);
                        let arg_bound = ctx(&ad);
                        let mut out = combine(fd, &ad);
                        out.ty = result_ty;
                        out.bound = fun_bound.sequential(arg_bound);
                        out
                    },
                },
            }
        },
        _ => {
            assert(false);
            pure_witness(Type::Unit)
        },
    }
}

fn fresh_recs(bindings: &Vec<FixBinding>) -> (r: Vec<RecContext>)
    ensures
        recs_view(r@) == group_recs(bindings_view(bindings@)),
{
    proof {
        lemma_bindings_view(bindings@);
    }
    let mut out: Vec<RecContext> = Vec::new();
    let mut i: usize = 0;
    while i < bindings.len()
        invariant
            i <= bindings@.len(),
            bindings_view(bindings@).len() == bindings@.len(),
            forall|j: int| 0 <= j < bindings@.len() ==> #[trigger] bindings_view(bindings@)[j]
                == binding_view(bindings@[j]),
            out@.len() == i,
            forall|j: int| 0 <= j < i ==> #[trigger] out@[j]@ == fresh_rec(
                bindings@[j].func@,
                bindings@[j].param@,
                bindings@[j].tag,
            ),
        decreases bindings@.len() - i,
    {
        let b = &bindings[i];
        out.push(
            RecContext {
                func: b.func.clone(),
                param: b.param.clone(),
                tag: b.tag,
                strict_var: None,
                unknown: UnknownId(0),
            },
        );
        i += 1;
    }
    proof {
        let bv = bindings_view(bindings@);
        assert forall|j: int| 0 <= j < out@.len() implies recs_view(out@)[j] == group_recs(bv)[j] by {
            assert(bv[j] == binding_view(bindings@[j]));
        }
        assert(recs_view(out@) =~= group_recs(bv));
    }
    out
}

/// Index of the entry member: the first named `entry`, else the first member.
fn entry_index(bindings: &Vec<FixBinding>, entry: &str) -> (r: usize)
    requires
        bindings@.len() > 0,
    ensures
        r == (match first_named(bindings_view(bindings@), entry@) {
            Some(i) => i,
            None => 0,
        }),
        r < bindings@.len(),
{
    let ghost bv = bindings_view(bindings@);
    proof {
        lemma_bindings_view(bindings@);
    }
    let mut i: usize = 0;
    assert(bv.subrange(0, bv.len() as int) =~= bv);
    while i < bindings.len()
        invariant
            i <= bindings@.len(),
            bv == bindings_view(bindings@),
            bv.len() == bindings@.len(),
            forall|j: int| 0 <= j < bindings@.len() ==> #[trigger] bv[j] == binding_view(
                bindings@[j],
            ),
            first_named(bv, entry@) == (match first_named(bv.subrange(i as int, bv.len() as int), entry@) {
                Some(k) => Some(k + i),
                None => None::<int>,
            }),
        decreases bindings@.len() - i,
    {
        let ghost rest = bv.subrange(i as int, bv.len() as int);
        assert(rest[0] == bv[i as int]);
        assert(rest.drop_first() =~= bv.subrange(i + 1, bv.len() as int));
        if str_eq(bindings[i].func.as_str(), entry) {
            return i;
        }
        i += 1;
    }
    assert(bv.subrange(i as int, bv.len() as int) =~= Seq::<FixBindingM>::empty());
    0
}

/// The derivation of one member's body in the group's environment.
fn derive_member(b: &FixBinding, recs: &Vec<RecContext>, env: &Env) -> (r: Witness)
    ensures
        r@ == member_derive_m(binding_view(*b), recs_view(recs@), env@),
    decreases b, 0nat,
{
    derive(&b.body, &env.with_rec_group(recs, b.func.as_str(), b.param.as_str()))
}

/// Coverage of all members, and the derivation of the last member named `f` (if any).
fn derive_members(
    bindings: &Vec<FixBinding>,
    recs: &Vec<RecContext>,
    f: &str,
    env: &Env,
    term: &Term,
) -> (r: (CoverageSet, Option<Witness>))
    requires
        *term matches Term::FixGroup { bindings: bs, .. } && bs == *bindings,
    ensures
        r.0@ == group_cov_m(bindings_view(bindings@), recs_view(recs@), env@),
        (exists|j: int| 0 <= j < bindings@.len() && #[trigger] bindings@[j].func@ == f@) ==> (r.1 matches Some(w)
            && w@ == member_derive_m(
            bindings_view(bindings@)[last_named(bindings_view(bindings@), f@)],
            recs_view(recs@),
            env@,
        )),
    decreases term, 0nat,
{
    let ghost bv = bindings_view(bindings@);
    let ghost rv = recs_view(recs@);
    proof {
        lemma_bindings_view(bindings@);
    }
    let mut cov = CoverageSet::new();
    let mut found: Option<Witness> = None;
    let mut k: usize = 0;
    assert(bv.subrange(0, 0) =~= Seq::<FixBindingM>::empty());
    while k < bindings.len()
        invariant
            k <= bindings@.len(),
            bv == bindings_view(bindings@),
            rv == recs_view(recs@),
            bv.len() == bindings@.len(),
            forall|j: int| 0 <= j < bindings@.len() ==> #[trigger] bv[j] == binding_view(
                bindings@[j],
            ),
            cov@ == group_cov_m(bv.subrange(0, k as int), rv, env@),
            (exists|j: int| 0 <= j < k && #[trigger] bindings@[j].func@ == f@) ==> (found matches Some(w)
                && w@ == member_derive_m(
                bv[last_named(bv.subrange(0, k as int), f@)],
                rv,
                env@,
            ) && 0 <= last_named(bv.subrange(0, k as int), f@) < k),
            *term matches Term::FixGroup { bindings: bs, .. } && bs == *bindings,
        decreases bindings@.len() - k,
    {
        proof {
            assert(decreases_to!(*term => *bindings));
            assert(decreases_to!(*bindings => bindings@));
            assert(decreases_to!(bindings@ => bindings@[k as int]));
        }
        let b = &bindings[k];
        let ghost sub1 = bv.subrange(0, k + 1);
        proof {
            assert(sub1.drop_last() =~= bv.subrange(0, k as int));
            assert(sub1.last() == bv[k as int]);
            if k > 0 {
                lemma_last_named(bv.subrange(0, k as int), f@);
            }
        }
        let w = derive_member(b, recs, env);
        cov.extend(&w.coverage);
        tag_coverage_exec(&mut cov, b.tag);
        if str_eq(b.func.as_str(), f) {
            found = Some(w);
        }
        proof {
            if exists|j: int| 0 <= j < k + 1 && #[trigger] bindings@[j].func@ == f@ {
                if b.func@ != f@ {
                    let j = choose|j: int| 0 <= j < k + 1 && #[trigger] bindings@[j].func@ == f@;
                    assert(j < k);
                }
            }
        }
        k += 1;
    }
    assert(bv.subrange(0, bv.len() as int) =~= bv);
    (cov, found)
}

fn derive_fix_group(term: &Term, env: &Env) -> (r: Witness)
    requires
        term is FixGroup,
    ensures
        r@ == derive_m(term@, env@),
    decreases term, 1nat,
{
    assert(derive_m(term@, env@) == derive_fix_group_m(term@, env@));
    match term {
        Term::FixGroup { bindings, entry } => {
            let ghost bv = bindings_view(bindings@);
            proof {
                lemma_bindings_view(bindings@);
            }
            if bindings.len() == 0 {
                return pure_witness(Type::nat_arrow());
            }
            let recs = fresh_recs(bindings);
            let ei = entry_index(bindings, entry.as_str());
            let entry_tag = bindings[ei].tag;
            proof {
                assert(bv[ei as int] == binding_view(bindings@[ei as int]));
                lemma_last_named(bv, bindings@[ei as int].func@);
            }
            let (coverage, found) = derive_members(
                bindings,
                &recs,
                bindings[ei].func.as_str(),
                env,
                term,
            );
            let ed = match found {
                Some(w) => w,
                None => {
                    assert(false);
                    pure_witness(Type::Unit)
                },
            };
            let b = fix_bound_exec(entry_tag, ed.bound);
            let mut out = pure_witness(Type::Arrow(Box::new(Type::Nat), Box::new(ed.ty)));
            out.coverage = coverage;
            out.bound = b;
            out.divergence = div_of_bound_exec(b, ed.divergence);
            out
        },
        _ => {
            assert(false);
            pure_witness(Type::Unit)
        },
    }
}

/// What analysing the clauses of a handler accumulates.
struct HandleAcc {
    handled: Eff,
    op_effects: Eff,
    op_bound: Bound,
    introduced: u32,
    resumes: u32,
    op_diverges: bool,
    op_coverage: CoverageSet,
}

impl View for HandleAcc {
    type V = HandleAccD;

    closed spec fn view(&self) -> HandleAccD {
        HandleAccD {
            handled: self.handled@,
            op_effects: self.op_effects@,
            op_bound: self.op_bound,
            introduced: self.introduced,
            resumes: self.resumes,
            op_diverges: self.op_diverges,
            op_coverage: self.op_coverage@,
        }
    }
}

fn derive_clause(c: &OpClause, acc: HandleAcc, bd: &Witness, env: &Env) -> (r: HandleAcc)
    ensures
        r@ == d_handle_step(acc@, clause_view(*c), bd@, env@),
    decreases c, 0nat,
{
    let op_env = env.with_var(c.op_param.clone(), Type::Nat).with_cont(c.op_k.as_str());
    let od = derive(&c.op_body, &op_env);
    let resumed = od.continuation_uses.resumed;
    let effective = if resumed > 0 {
        od.bound.sequential(bd.bound)
    } else {
        od.bound
    };
    let mut op_coverage = acc.op_coverage;
    op_coverage.extend(&od.coverage);
    op_coverage.insert(
        if resumed > 0 {
            CoverageTag::HandleResuming
        } else {
            CoverageTag::HandleDropped
        },
    );
    HandleAcc {
        handled: acc.handled.without(c.op_label),
        op_effects: acc.op_effects.join(&od.effects),
        op_bound: acc.op_bound.join(effective),
        introduced: if bd.effects.contains(c.op_label) {
            acc.introduced.saturating_add(1)
        } else {
            acc.introduced
        },
        resumes: acc.resumes.saturating_add(resumed),
        op_diverges: acc.op_diverges || od.divergence == Divergence::Div,
        op_coverage,
    }
}

fn derive_clauses(handler: &Handler, bd: &Witness, env: &Env, term: &Term) -> (r: HandleAcc)
    requires
        *term matches Term::Handle { handler: h, .. } && h == *handler,
    ensures
        r@ == d_handle_fold(clauses_view(handler.clauses@), bd@, env@),
    decreases term, 0nat,
{
    let ghost cv = clauses_view(handler.clauses@);
    proof {
        lemma_clauses_view(handler.clauses@);
    }
    let mut acc = HandleAcc {
        handled: bd.effects.duplicate(),
        op_effects: Eff::empty(),
        op_bound: Bound::ZERO(),
        introduced: 0,
        resumes: 0,
        op_diverges: false,
        op_coverage: CoverageSet::new(),
    };
    let mut i: usize = 0;
    assert(cv.subrange(0, 0) =~= Seq::<OpClauseM>::empty());
    while i < handler.clauses.len()
        invariant
            i <= handler.clauses@.len(),
            cv == clauses_view(handler.clauses@),
            cv.len() == handler.clauses@.len(),
            forall|j: int| 0 <= j < cv.len() ==> #[trigger] cv[j] == clause_view(
                handler.clauses@[j],
            ),
            d_handle_fold(cv.subrange(0, i as int), bd@, env@) == acc@,
            *term matches Term::Handle { handler: h, .. } && h == *handler,
        decreases handler.clauses@.len() - i,
    {
        proof {
            assert(decreases_to!(*term => *handler));
            assert(decreases_to!(*handler => handler.clauses));
            assert(decreases_to!(handler.clauses => handler.clauses@));
            assert(decreases_to!(handler.clauses@ => handler.clauses@[i as int]));
        }
        let c = &handler.clauses[i];
        let ghost sub1 = cv.subrange(0, i + 1);
        proof {
            assert(sub1.drop_last() =~= cv.subrange(0, i as int));
            assert(sub1.last() == cv[i as int]);
        }
        acc = derive_clause(c, acc, bd, env);
        i += 1;
    }
    assert(cv.subrange(0, cv.len() as int) =~= cv);
    acc
}

fn derive_handle(term: &Term, env: &Env) -> (r: Witness)
    requires
        term is Handle,
    ensures
        r@ == derive_m(term@, env@),
    decreases term, 1nat,
{
    assert(derive_m(term@, env@) == derive_handle_m(term@, env@));
    match term {
        Term::Handle { body, handler } => {
            proof {
                lemma_handler_parts(*handler);
            }
            let bd = derive(body, env);
            let rd = derive(
                &handler.return_body,
                &env.with_var(handler.return_var.clone(), bd.ty.duplicate()),
            );
            let acc = derive_clauses(handler, &bd, env, term);
            let mut out = pure_witness(rd.ty.duplicate());
            out.effects = acc.handled.join(&rd.effects).join(&acc.op_effects);
            out.bound = rd.bound.join(acc.op_bound);
            out.continuation_uses = ContinuationUseFacts {
                introduced: acc.introduced,
                resumed: acc.resumes,
                dropped: acc.introduced.saturating_sub(acc.resumes),
            };
            out.divergence = if bd.divergence == Divergence::Div || rd.divergence == Divergence::Div
                || acc.op_diverges {
                Divergence::Div
            } else {
                Divergence::Terminates
            };
            let mut coverage = bd.coverage;
            coverage.extend(&rd.coverage);
            coverage.extend(&acc.op_coverage);
            out.coverage = coverage;
            out
        },
        _ => {
            assert(false);
            pure_witness(Type::Unit)
        },
    }
}

} // verus!
