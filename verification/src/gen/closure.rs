//! Structural side conditions of generated terms: closedness and the handler
//! continuation-usage discipline.

use vstd::prelude::*;

use crate::check::infer::lemma_handler_parts;
use crate::check::typing::{capped, free_count_m, resume_count_m};
use crate::check::usage::{direct_resume_count, free_var_count};
use crate::core_ast::{
    binding_view, bindings_view, clause_view, clauses_view, lemma_bindings_view,
    lemma_clauses_view, FixBinding, FixBindingM, Handler, OpClause, OpClauseM, Term, TermM,
};
use crate::text::str_eq;

verus! {

broadcast use vstd::std_specs::vec::group_vec_axioms, vstd::seq::group_seq_axioms;

/// A clause body either never mentions its continuation `k`, or mentions it exactly once,
/// in a direct `resume k v`.
pub open spec fn k_usage_ok(body: TermM, k: Seq<char>) -> bool {
    let m = capped(free_count_m(body, k));
    m == 0 || (m == 1 && capped(resume_count_m(body, k)) == 1)
}

/// Every handler clause in `t` obeys the continuation-usage discipline.
pub open spec fn obeys_m(t: TermM) -> bool
    decreases t, 0nat,
{
    match t {
        TermM::Handle { body, handler } => obeys_m(*body) && obeys_m(*handler.return_body)
            && clauses_obey_m(handler.clauses),
        TermM::Succ(i) | TermM::Perform(_, i) | TermM::ArrayLen(i) | TermM::Move(i)
        | TermM::Inplace(i) | TermM::Freeze(i) | TermM::Mark(_, i) => obeys_m(*i),
        TermM::MkArray(a, b) | TermM::ArrayGet(a, b) => obeys_m(*a) && obeys_m(*b),
        TermM::ArraySet(a, b, c) => obeys_m(*a) && obeys_m(*b) && obeys_m(*c),
        TermM::Lam { body, .. } => obeys_m(*body),
        TermM::Fix { body, .. } => obeys_m(*body),
        TermM::FixGroup { bindings, .. } => bindings_obey_m(bindings),
        TermM::App(f, a) => obeys_m(*f) && obeys_m(*a),
        TermM::Resume { kont, arg } => obeys_m(*kont) && obeys_m(*arg),
        TermM::Let { expr, body, .. } => obeys_m(*expr) && obeys_m(*body),
        TermM::CaseNat { scrutinee, zero_body, succ_body, .. } => obeys_m(*scrutinee) && obeys_m(
            *zero_body,
        ) && obeys_m(*succ_body),
        TermM::Var(_) | TermM::Unit | TermM::Zero | TermM::Cont(_) | TermM::Array(_) => true,
    }
}

pub open spec fn clauses_obey_m(s: Seq<OpClauseM>) -> bool
    decreases s, 0nat,
{
    if s.len() == 0 {
        true
    } else {
        clauses_obey_m(s.drop_last()) && obeys_m(*s.last().op_body) && k_usage_ok(
            *s.last().op_body,
            s.last().op_k,
        )
    }
}

pub open spec fn bindings_obey_m(s: Seq<FixBindingM>) -> bool
    decreases s, 0nat,
{
    if s.len() == 0 {
        true
    } else {
        bindings_obey_m(s.drop_last()) && obeys_m(*s.last().body)
    }
}

/// Whether `term` obeys the handler continuation-usage discipline: a clause may drop `k`
/// by not mentioning it; if `k` is free in the clause, its only mention is exactly one
/// direct `resume k v`.
pub fn term_obeys_continuation_usage(term: &Term) -> (r: bool)
    ensures
        r == obeys_m(term@),
    decreases term, 0nat,
{
    match term {
        Term::Handle { body, handler } => {
            proof {
                lemma_handler_parts(*handler);
            }
            term_obeys_continuation_usage(body) && term_obeys_continuation_usage(
                &handler.return_body,
            ) && clauses_obey(&handler.clauses)
        },
        Term::Succ(inner) => term_obeys_continuation_usage(inner),
        Term::Perform(_, inner) => term_obeys_continuation_usage(inner),
        Term::ArrayLen(inner) => term_obeys_continuation_usage(inner),
        Term::Move(inner) => term_obeys_continuation_usage(inner),
        Term::Inplace(inner) => term_obeys_continuation_usage(inner),
        Term::Freeze(inner) => term_obeys_continuation_usage(inner),
        Term::Mark(_, inner) => term_obeys_continuation_usage(inner),
        Term::MkArray(a, b) => term_obeys_continuation_usage(a) && term_obeys_continuation_usage(b),
        Term::ArrayGet(a, b) => term_obeys_continuation_usage(a) && term_obeys_continuation_usage(b),
        Term::ArraySet(a, b, c) => term_obeys_continuation_usage(a)
            && term_obeys_continuation_usage(b) && term_obeys_continuation_usage(c),
        Term::Lam { body, .. } => term_obeys_continuation_usage(body),
        Term::Fix { body, .. } => term_obeys_continuation_usage(body),
        Term::FixGroup { bindings, .. } => bindings_obey(bindings),
        Term::App(f, a) => term_obeys_continuation_usage(f) && term_obeys_continuation_usage(a),
        Term::Resume { kont, arg } => term_obeys_continuation_usage(kont)
            && term_obeys_continuation_usage(arg),
        Term::Let { expr, body, .. } => term_obeys_continuation_usage(expr)
            && term_obeys_continuation_usage(body),
        Term::CaseNat { scrutinee, zero_body, succ_body, .. } => term_obeys_continuation_usage(
            scrutinee,
        ) && term_obeys_continuation_usage(zero_body) && term_obeys_continuation_usage(succ_body),
        Term::Var(_) | Term::Unit | Term::Zero | Term::Cont(_) | Term::Array(_) => true,
    }
}

/// The discipline for one clause body and its continuation variable.
pub fn handler_clause_obeys_k_usage(body: &Term, k: &str) -> (r: bool)
    ensures
        r == k_usage_ok(body@, k@),
{
    let mentions = free_var_count(body, k);
    if mentions == 0 {
        return true;
    }
    mentions == 1 && direct_resume_count(body, k) == 1
}

fn clauses_obey(v: &Vec<OpClause>) -> (r: bool)
    ensures
        r == clauses_obey_m(clauses_view(v@)),
    decreases v, 1nat,
{
    let mut acc = true;
    let mut i: usize = 0;
    while i < v.len()
        invariant
            i <= v@.len(),
            acc == clauses_obey_m(clauses_view(v@.subrange(0, i as int))),
        decreases v@.len() - i,
    {
        proof {
            assert(decreases_to!(v => v@));
            assert(decreases_to!(v@ => v@[i as int]));
        }
        let c = &v[i];
        let here = term_obeys_continuation_usage(&c.op_body) && handler_clause_obeys_k_usage(
            &c.op_body,
            c.op_k.as_str(),
        );
        proof {
            let sub1 = v@.subrange(0, i + 1);
            assert(sub1.drop_last() =~= v@.subrange(0, i as int));
            assert(sub1.last() == v@[i as int]);
            let cv = clauses_view(sub1);
            assert(cv == clauses_view(sub1.drop_last()).push(clause_view(sub1.last())));
            assert(cv.drop_last() =~= clauses_view(v@.subrange(0, i as int)));
        }
        acc = acc && here;
        i += 1;
    }
    assert(v@.subrange(0, v@.len() as int) =~= v@);
    acc
}

fn bindings_obey(v: &Vec<FixBinding>) -> (r: bool)
    ensures
        r == bindings_obey_m(bindings_view(v@)),
    decreases v, 1nat,
{
    let mut acc = true;
    let mut i: usize = 0;
    while i < v.len()
        invariant
            i <= v@.len(),
            acc == bindings_obey_m(bindings_view(v@.subrange(0, i as int))),
        decreases v@.len() - i,
    {
        proof {
            assert(decreases_to!(v => v@));
            assert(decreases_to!(v@ => v@[i as int]));
        }
        let here = term_obeys_continuation_usage(&v[i].body);
        proof {
            let sub1 = v@.subrange(0, i + 1);
            assert(sub1.drop_last() =~= v@.subrange(0, i as int));
            assert(sub1.last() == v@[i as int]);
            let bv = bindings_view(sub1);
            assert(bv == bindings_view(sub1.drop_last()).push(binding_view(sub1.last())));
            assert(bv.drop_last() =~= bindings_view(v@.subrange(0, i as int)));
        }
        acc = acc && here;
        i += 1;
    }
    assert(v@.subrange(0, v@.len() as int) =~= v@);
    acc
}

// ---------------------------------------------------------------------------------------
// Closedness.
/// Every variable of `t` is bound by `t` itself or named in `scope`.
pub open spec fn closed_m(t: TermM, scope: Seq<Seq<char>>) -> bool
    decreases t, 0nat,
{
    match t {
        TermM::Var(name) => scope.contains(name),
        TermM::Unit | TermM::Zero | TermM::Cont(_) | TermM::Array(_) => true,
        TermM::Succ(i) | TermM::Perform(_, i) | TermM::ArrayLen(i) | TermM::Move(i)
        | TermM::Inplace(i) | TermM::Freeze(i) | TermM::Mark(_, i) => closed_m(*i, scope),
        TermM::MkArray(a, b) | TermM::ArrayGet(a, b) => closed_m(*a, scope) && closed_m(*b, scope),
        TermM::ArraySet(a, b, c) => closed_m(*a, scope) && closed_m(*b, scope) && closed_m(
            *c,
            scope,
        ),
        TermM::Lam { param, body, .. } => closed_m(*body, scope.push(param)),
        TermM::App(f, a) => closed_m(*f, scope) && closed_m(*a, scope),
        TermM::Let { var, expr, body } => closed_m(*expr, scope) && closed_m(*body, scope.push(var)),
        TermM::Fix { func, param, body, .. } => closed_m(*body, scope.push(func).push(param)),
        TermM::FixGroup { bindings, .. } => bindings_closed_m(
            bindings,
            scope + bindings.map_values(|b: FixBindingM| b.func),
        ),
        TermM::CaseNat { scrutinee, zero_body, succ_var, succ_body } => closed_m(*scrutinee, scope)
            && closed_m(*zero_body, scope) && closed_m(*succ_body, scope.push(succ_var)),
        TermM::Handle { body, handler } => closed_m(*body, scope) && closed_m(
            *handler.return_body,
            scope.push(handler.return_var),
        ) && clauses_closed_m(handler.clauses, scope),
        TermM::Resume { kont, arg } => closed_m(*kont, scope) && closed_m(*arg, scope),
    }
}

pub open spec fn bindings_closed_m(s: Seq<FixBindingM>, scope: Seq<Seq<char>>) -> bool
    decreases s, 0nat,
{
    if s.len() == 0 {
        true
    } else {
        bindings_closed_m(s.drop_last(), scope) && closed_m(
            *s.last().body,
            scope.push(s.last().param),
        )
    }
}

pub open spec fn clauses_closed_m(s: Seq<OpClauseM>, scope: Seq<Seq<char>>) -> bool
    decreases s, 0nat,
{
    if s.len() == 0 {
        true
    } else {
        clauses_closed_m(s.drop_last(), scope) && closed_m(
            *s.last().op_body,
            scope.push(s.last().op_param).push(s.last().op_k),
        )
    }
}

pub open spec fn names(s: Seq<String>) -> Seq<Seq<char>> {
    s.map_values(|n: String| n@)
}

/// Whether `term` has no free variable.
pub fn is_closed(term: &Term) -> (r: bool)
    ensures
        r == closed_m(term@, Seq::empty()),
{
    let mut scope: Vec<String> = Vec::new();
    assert(names(scope@) =~= Seq::<Seq<char>>::empty());
    closed_under(term, &mut scope)
}

fn scope_contains(scope: &Vec<String>, name: &str) -> (r: bool)
    ensures
        r == names(scope@).contains(name@),
{
    let mut i: usize = 0;
    while i < scope.len()
        invariant
            i <= scope@.len(),
            forall|j: int| 0 <= j < i ==> scope@[j]@ != name@,
        decreases scope@.len() - i,
    {
        if str_eq(scope[i].as_str(), name) {
            assert(names(scope@)[i as int] == name@);
            return true;
        }
        i += 1;
    }
    proof {
        if names(scope@).contains(name@) {
            let j = choose|j: int| 0 <= j < names(scope@).len() && names(scope@)[j] == name@;
            assert(scope@[j]@ == name@);
        }
    }
    false
}

fn push_name(scope: &mut Vec<String>, name: &String)
    ensures
        names(final(scope)@) == names(old(scope)@).push(name@),
        final(scope)@.len() == old(scope)@.len() + 1,
        final(scope)@.subrange(0, old(scope)@.len() as int) == old(scope)@,
{
    scope.push(name.clone());
    assert(names(scope@) =~= names(old(scope)@).push(name@));
    assert(scope@.subrange(0, old(scope)@.len() as int) =~= old(scope)@);
}

fn pop_name(scope: &mut Vec<String>)
    requires
        old(scope)@.len() > 0,
    ensures
        final(scope)@ == old(scope)@.drop_last(),
{
    let _ = scope.pop();
}

/// Closedness of `term` with the names of `scope` bound; `scope` is left as it was.
fn closed_under(term: &Term, scope: &mut Vec<String>) -> (r: bool)
    ensures
        r == closed_m(term@, names(old(scope)@)),
        final(scope)@ == old(scope)@,
    decreases term, 0nat,
{
    let ghost s0 = scope@;
    let start = scope.len();
    match term {
        Term::Var(name) => scope_contains(scope, name.as_str()),
        Term::Unit | Term::Zero | Term::Cont(_) | Term::Array(_) => true,
        Term::Succ(inner) => closed_under(inner, scope),
        Term::Perform(_, inner) => closed_under(inner, scope),
        Term::ArrayLen(inner) => closed_under(inner, scope),
        Term::Move(inner) => closed_under(inner, scope),
        Term::Inplace(inner) => closed_under(inner, scope),
        Term::Freeze(inner) => closed_under(inner, scope),
        Term::Mark(_, inner) => closed_under(inner, scope),
        Term::MkArray(a, b) => {
            let x = closed_under(a, scope);
            let y = closed_under(b, scope);
            x && y
        },
        Term::ArrayGet(a, b) => {
            let x = closed_under(a, scope);
            let y = closed_under(b, scope);
            x && y
        },
        Term::ArraySet(a, b, c) => {
            let x = closed_under(a, scope);
            let y = closed_under(b, scope);
            let z = closed_under(c, scope);
            x && y && z
        },
        Term::Lam { param, body, .. } => {
            push_name(scope, param);
            let ok = closed_under(body, scope);
            pop_name(scope);
            assert(scope@ =~= s0);
            ok
        },
        Term::App(f, a) => {
            let x = closed_under(f, scope);
            let y = closed_under(a, scope);
            x && y
        },
        Term::Let { var, expr, body } => {
            let x = closed_under(expr, scope);
            push_name(scope, var);
            let y = closed_under(body, scope);
            pop_name(scope);
            assert(scope@ =~= s0);
            x && y
        },
        Term::Fix { func, param, body, .. } => {
            push_name(scope, func);
            push_name(scope, param);
            let ok = closed_under(body, scope);
            pop_name(scope);
            pop_name(scope);
            assert(scope@ =~= s0);
            ok
        },
        Term::FixGroup { bindings, .. } => {
            proof {
                lemma_bindings_view(bindings@);
            }
            let mut i: usize = 0;
            while i < bindings.len()
                invariant
                    i <= bindings@.len(),
                    scope@.len() == s0.len() + i,
                    scope@.subrange(0, s0.len() as int) == s0,
                    names(scope@) == names(s0) + bindings_view(bindings@).subrange(0, i as int).map_values(
                        |b: FixBindingM| b.func,
                    ),
                    bindings_view(bindings@).len() == bindings@.len(),
                    forall|j: int| 0 <= j < bindings@.len() ==> #[trigger] bindings_view(bindings@)[j]
                        == binding_view(bindings@[j]),
                decreases bindings@.len() - i,
            {
                let ghost before = scope@;
                push_name(scope, &bindings[i].func);
                proof {
                    let bv = bindings_view(bindings@);
                    assert(bv.subrange(0, i + 1).map_values(|b: FixBindingM| b.func) =~= bv.subrange(
                        0,
                        i as int,
                    ).map_values(|b: FixBindingM| b.func).push(bv[i as int].func));
                    assert(scope@.subrange(0, s0.len() as int) =~= before.subrange(0, s0.len() as int));
                }
                i += 1;
            }
            proof {
                let bv = bindings_view(bindings@);
                assert(bv.subrange(0, bv.len() as int) =~= bv);
            }
            let ok = bindings_closed(bindings, scope);
            scope.truncate(start);
            assert(scope@ =~= s0);
            ok
        },
        Term::CaseNat { scrutinee, zero_body, succ_var, succ_body } => {
            let x = closed_under(scrutinee, scope);
            let y = closed_under(zero_body, scope);
            push_name(scope, succ_var);
            let z = closed_under(succ_body, scope);
            pop_name(scope);
            assert(scope@ =~= s0);
            x && y && z
        },
        Term::Handle { body, handler } => {
            proof {
                lemma_handler_parts(*handler);
            }
            let x = closed_under(body, scope);
            push_name(scope, &handler.return_var);
            let y = closed_under(&handler.return_body, scope);
            pop_name(scope);
            assert(scope@ =~= s0);
            let z = clauses_closed(&handler.clauses, scope);
            x && y && z
        },
        Term::Resume { kont, arg } => {
            let x = closed_under(kont, scope);
            let y = closed_under(arg, scope);
            x && y
        },
    }
}

fn bindings_closed(v: &Vec<FixBinding>, scope: &mut Vec<String>) -> (r: bool)
    ensures
        r == bindings_closed_m(bindings_view(v@), names(old(scope)@)),
        final(scope)@ == old(scope)@,
    decreases v, 1nat,
{
    let ghost s0 = scope@;
    let mut acc = true;
    let mut i: usize = 0;
    while i < v.len()
        invariant
            i <= v@.len(),
            scope@ == s0,
            acc == bindings_closed_m(bindings_view(v@.subrange(0, i as int)), names(s0)),
        decreases v@.len() - i,
    {
        proof {
            assert(decreases_to!(v => v@));
            assert(decreases_to!(v@ => v@[i as int]));
        }
        let b = &v[i];
        push_name(scope, &b.param);
        let here = closed_under(&b.body, scope);
        pop_name(scope);
        assert(scope@ =~= s0);
        proof {
            let sub1 = v@.subrange(0, i + 1);
            assert(sub1.drop_last() =~= v@.subrange(0, i as int));
            assert(sub1.last() == v@[i as int]);
            let bv = bindings_view(sub1);
            assert(bv == bindings_view(sub1.drop_last()).push(binding_view(sub1.last())));
            assert(bv.drop_last() =~= bindings_view(v@.subrange(0, i as int)));
        }
        acc = acc && here;
        i += 1;
    }
    assert(v@.subrange(0, v@.len() as int) =~= v@);
    acc
}

fn clauses_closed(v: &Vec<OpClause>, scope: &mut Vec<String>) -> (r: bool)
    ensures
        r == clauses_closed_m(clauses_view(v@), names(old(scope)@)),
        final(scope)@ == old(scope)@,
    decreases v, 1nat,
{
    let ghost s0 = scope@;
    let mut acc = true;
    let mut i: usize = 0;
    while i < v.len()
        invariant
            i <= v@.len(),
            scope@ == s0,
            acc == clauses_closed_m(clauses_view(v@.subrange(0, i as int)), names(s0)),
        decreases v@.len() - i,
    {
        proof {
            assert(decreases_to!(v => v@));
            assert(decreases_to!(v@ => v@[i as int]));
        }
        let c = &v[i];
        push_name(scope, &c.op_param);
        push_name(scope, &c.op_k);
        let here = closed_under(&c.op_body, scope);
        pop_name(scope);
        pop_name(scope);
        assert(scope@ =~= s0);
        proof {
            let sub1 = v@.subrange(0, i + 1);
            assert(sub1.drop_last() =~= v@.subrange(0, i as int));
            assert(sub1.last() == v@[i as int]);
            let cv = clauses_view(sub1);
            assert(cv == clauses_view(sub1.drop_last()).push(clause_view(sub1.last())));
            assert(cv.drop_last() =~= clauses_view(v@.subrange(0, i as int)));
        }
        acc = acc && here;
        i += 1;
    }
    assert(v@.subrange(0, v@.len() as int) =~= v@);
    acc
}

} // verus!
