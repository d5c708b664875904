//! Generation facts of a term: depth, nested handlers, and strict / non-strict recursive
//! calls.

use vstd::prelude::*;

use crate::check::infer::{lemma_handler_parts, lemma_head_view};
use crate::check::typing::capped;
use crate::core_ast::{
    binding_view, bindings_view, clause_view, clauses_view, lemma_bindings_view,
    lemma_clauses_view, FixBinding, FixBindingM, GenerationFacts, Handler, OpClause, OpClauseM,
    Term, TermM,
};
use crate::text::{owned, str_eq};

verus! {

broadcast use vstd::std_specs::vec::group_vec_axioms, vstd::seq::group_seq_axioms;

pub open spec fn max_nat(a: nat, b: nat) -> nat {
    if a >= b {
        a
    } else {
        b
    }
}

/// Height of a term (leaves have depth 1).
pub open spec fn depth_m(t: TermM) -> nat
    decreases t, 0nat,
{
    match t {
        TermM::Var(_) | TermM::Unit | TermM::Zero | TermM::Cont(_) | TermM::Array(_) => 1,
        TermM::Succ(i) | TermM::Perform(_, i) | TermM::ArrayLen(i) | TermM::Move(i)
        | TermM::Inplace(i) | TermM::Freeze(i) | TermM::Mark(_, i) => 1 + depth_m(*i),
        TermM::MkArray(a, b) | TermM::ArrayGet(a, b) => 1 + max_nat(depth_m(*a), depth_m(*b)),
        TermM::ArraySet(a, b, c) => 1 + max_nat(depth_m(*a), max_nat(depth_m(*b), depth_m(*c))),
        TermM::Lam { body, .. } => 1 + depth_m(*body),
        TermM::Fix { body, .. } => 1 + depth_m(*body),
        TermM::FixGroup { bindings, .. } => 1 + bindings_depth_m(bindings),
        TermM::App(f, a) => 1 + max_nat(depth_m(*f), depth_m(*a)),
        TermM::Resume { kont, arg } => 1 + max_nat(depth_m(*kont), depth_m(*arg)),
        TermM::Let { expr, body, .. } => 1 + max_nat(depth_m(*expr), depth_m(*body)),
        TermM::CaseNat { scrutinee, zero_body, succ_body, .. } => 1 + max_nat(
            depth_m(*scrutinee),
            max_nat(depth_m(*zero_body), depth_m(*succ_body)),
        ),
        TermM::Handle { body, handler } => 1 + clauses_depth_m(
            handler.clauses,
            max_nat(depth_m(*body), depth_m(*handler.return_body)),
        ),
    }
}

pub open spec fn bindings_depth_m(s: Seq<FixBindingM>) -> nat
    decreases s, 0nat,
{
    if s.len() == 0 {
        0
    } else {
        max_nat(bindings_depth_m(s.drop_last()), depth_m(*s.last().body))
    }
}

pub open spec fn clauses_depth_m(s: Seq<OpClauseM>, init: nat) -> nat
    decreases s, 0nat,
{
    if s.len() == 0 {
        init
    } else {
        max_nat(clauses_depth_m(s.drop_last(), init), depth_m(*s.last().op_body))
    }
}

fn max_usize(a: usize, b: usize) -> (r: usize)
    ensures
        r == (if a >= b {
            a
        } else {
            b
        }),
{
    if a >= b {
        a
    } else {
        b
    }
}

proof fn lemma_capped_max(a: nat, b: nat)
    ensures
        capped(max_nat(a, b)) == (if capped(a) >= capped(b) {
            capped(a)
        } else {
            capped(b)
        }),
{
}

fn one_more(d: usize, Ghost(n): Ghost<nat>) -> (r: usize)
    requires
        d == capped(n),
    ensures
        r == capped(1 + n),
{
    d.saturating_add(1)
}

/// Height of a term (saturating).
pub fn term_depth(term: &Term) -> (r: usize)
    ensures
        r == capped(depth_m(term@)),
    decreases term, 0nat,
{
    match term {
        Term::Var(_) | Term::Unit | Term::Zero | Term::Cont(_) | Term::Array(_) => 1,
        Term::Succ(i) => one_more(term_depth(i), Ghost(depth_m(i@))),
        Term::Perform(_, i) => one_more(term_depth(i), Ghost(depth_m(i@))),
        Term::ArrayLen(i) => one_more(term_depth(i), Ghost(depth_m(i@))),
        Term::Move(i) => one_more(term_depth(i), Ghost(depth_m(i@))),
        Term::Inplace(i) => one_more(term_depth(i), Ghost(depth_m(i@))),
        Term::Freeze(i) => one_more(term_depth(i), Ghost(depth_m(i@))),
        Term::Mark(_, i) => one_more(term_depth(i), Ghost(depth_m(i@))),
        Term::MkArray(a, b) | Term::ArrayGet(a, b) | Term::App(a, b) => {
            proof {
                lemma_capped_max(depth_m(a@), depth_m(b@));
            }
            one_more(max_usize(term_depth(a), term_depth(b)), Ghost(max_nat(depth_m(a@), depth_m(b@))))
        },
        Term::Resume { kont, arg } => {
            proof {
                lemma_capped_max(depth_m(kont@), depth_m(arg@));
            }
            one_more(max_usize(term_depth(kont), term_depth(arg)), Ghost(max_nat(depth_m(kont@), depth_m(arg@))))
        },
        Term::Let { expr, body, .. } => {
            proof {
                lemma_capped_max(depth_m(expr@), depth_m(body@));
            }
            one_more(max_usize(term_depth(expr), term_depth(body)), Ghost(max_nat(depth_m(expr@), depth_m(body@))))
        },
        Term::ArraySet(a, b, c) => {
            proof {
                lemma_capped_max(depth_m(b@), depth_m(c@));
                lemma_capped_max(depth_m(a@), max_nat(depth_m(b@), depth_m(c@)));
            }
            one_more(max_usize(term_depth(a), max_usize(term_depth(b), term_depth(c))), Ghost(max_nat(depth_m(a@), max_nat(depth_m(b@), depth_m(c@)))))
        },
        Term::CaseNat { scrutinee, zero_body, succ_body, .. } => {
            proof {
                lemma_capped_max(depth_m(zero_body@), depth_m(succ_body@));
                lemma_capped_max(
                    depth_m(scrutinee@),
                    max_nat(depth_m(zero_body@), depth_m(succ_body@)),
                );
            }
            one_more(
                max_usize(
                    term_depth(scrutinee),
                    max_usize(term_depth(zero_body), term_depth(succ_body)),
                ),
                Ghost(max_nat(depth_m(scrutinee@), max_nat(depth_m(zero_body@), depth_m(succ_body@)))),
            )
        },
        Term::Lam { body, .. } => one_more(term_depth(body), Ghost(depth_m(body@))),
        Term::Fix { body, .. } => one_more(term_depth(body), Ghost(depth_m(body@))),
        Term::FixGroup { bindings, .. } => one_more(bindings_depth(bindings), Ghost(bindings_depth_m(bindings_view(bindings@)))),
        Term::Handle { body, handler } => {
            proof {
                lemma_handler_parts(*handler);
                lemma_capped_max(depth_m(body@), depth_m(handler.return_body@));
            }
            let init = max_usize(term_depth(body), term_depth(&handler.return_body));
            one_more(
                clauses_depth(&handler.clauses, init, Ghost(max_nat(depth_m(body@), depth_m(handler.return_body@)))),
                Ghost(clauses_depth_m(clauses_view(handler.clauses@), max_nat(depth_m(body@), depth_m(handler.return_body@)))),
            )
        },
    }
}

fn bindings_depth(v: &Vec<FixBinding>) -> (r: usize)
    ensures
        r == capped(bindings_depth_m(bindings_view(v@))),
    decreases v, 1nat,
{
    let mut acc: usize = 0;
    let mut i: usize = 0;
    while i < v.len()
        invariant
            i <= v@.len(),
            acc == capped(bindings_depth_m(bindings_view(v@.subrange(0, i as int)))),
        decreases v@.len() - i,
    {
        proof {
            assert(decreases_to!(v => v@));
            assert(decreases_to!(v@ => v@[i as int]));
        }
        let d = term_depth(&v[i].body);
        proof {
            let sub1 = v@.subrange(0, i + 1);
            assert(sub1.drop_last() =~= v@.subrange(0, i as int));
            assert(sub1.last() == v@[i as int]);
            let bv = bindings_view(sub1);
            assert(bv == bindings_view(sub1.drop_last()).push(binding_view(sub1.last())));
            assert(bv.drop_last() =~= bindings_view(v@.subrange(0, i as int)));
            lemma_capped_max(
                bindings_depth_m(bindings_view(v@.subrange(0, i as int))),
                depth_m(v@[i as int].body@),
            );
        }
        acc = max_usize(acc, d);
        i += 1;
    }
    assert(v@.subrange(0, v@.len() as int) =~= v@);
    acc
}

fn clauses_depth(v: &Vec<OpClause>, init: usize, Ghost(init_n): Ghost<nat>) -> (r: usize)
    requires
        init == capped(init_n),
    ensures
        r == capped(clauses_depth_m(clauses_view(v@), init_n)),
    decreases v, 1nat,
{
    let mut acc: usize = init;
    let mut i: usize = 0;
    while i < v.len()
        invariant
            i <= v@.len(),
            acc == capped(clauses_depth_m(clauses_view(v@.subrange(0, i as int)), init_n)),
        decreases v@.len() - i,
    {
        proof {
            assert(decreases_to!(v => v@));
            assert(decreases_to!(v@ => v@[i as int]));
        }
        let d = term_depth(&v[i].op_body);
        proof {
            let sub1 = v@.subrange(0, i + 1);
            assert(sub1.drop_last() =~= v@.subrange(0, i as int));
            assert(sub1.last() == v@[i as int]);
            let cv = clauses_view(sub1);
            assert(cv == clauses_view(sub1.drop_last()).push(clause_view(sub1.last())));
            assert(cv.drop_last() =~= clauses_view(v@.subrange(0, i as int)));
            lemma_capped_max(
                clauses_depth_m(clauses_view(v@.subrange(0, i as int)), init_n),
                depth_m(v@[i as int].op_body@),
            );
        }
        acc = max_usize(acc, d);
        i += 1;
    }
    assert(v@.subrange(0, v@.len() as int) =~= v@);
    acc
}

// ---------------------------------------------------------------------------------------
// Nested handlers.
/// Whether a handler occurs inside another one (`in_handler`: `t` is itself inside one).
pub open spec fn nested_m(t: TermM, in_handler: bool) -> bool
    decreases t, 0nat,
{
    match t {
        TermM::Handle { body, handler } => in_handler || nested_m(*body, true) || nested_m(
            *handler.return_body,
            true,
        ) || clauses_nested_m(handler.clauses),
        TermM::Succ(i) | TermM::Perform(_, i) | TermM::ArrayLen(i) | TermM::Move(i)
        | TermM::Inplace(i) | TermM::Freeze(i) | TermM::Mark(_, i) => nested_m(*i, in_handler),
        TermM::MkArray(a, b) | TermM::ArrayGet(a, b) => nested_m(*a, in_handler) || nested_m(
            *b,
            in_handler,
        ),
        TermM::ArraySet(a, b, c) => nested_m(*a, in_handler) || nested_m(*b, in_handler)
            || nested_m(*c, in_handler),
        TermM::Lam { body, .. } => nested_m(*body, in_handler),
        TermM::Fix { body, .. } => nested_m(*body, in_handler),
        TermM::FixGroup { bindings, .. } => bindings_nested_m(bindings, in_handler),
        TermM::App(f, a) => nested_m(*f, in_handler) || nested_m(*a, in_handler),
        TermM::Resume { kont, arg } => nested_m(*kont, in_handler) || nested_m(*arg, in_handler),
        TermM::Let { expr, body, .. } => nested_m(*expr, in_handler) || nested_m(*body, in_handler),
        TermM::CaseNat { scrutinee, zero_body, succ_body, .. } => nested_m(*scrutinee, in_handler)
            || nested_m(*zero_body, in_handler) || nested_m(*succ_body, in_handler),
        TermM::Var(_) | TermM::Unit | TermM::Zero | TermM::Cont(_) | TermM::Array(_) => false,
    }
}

pub open spec fn bindings_nested_m(s: Seq<FixBindingM>, in_handler: bool) -> bool
    decreases s, 0nat,
{
    if s.len() == 0 {
        false
    } else {
        bindings_nested_m(s.drop_last(), in_handler) || nested_m(*s.last().body, in_handler)
    }
}

pub open spec fn clauses_nested_m(s: Seq<OpClauseM>) -> bool
    decreases s, 0nat,
{
    if s.len() == 0 {
        false
    } else {
        clauses_nested_m(s.drop_last()) || nested_m(*s.last().op_body, true)
    }
}

/// Whether `term` has a handler nested inside another (`in_handler`: `term` is inside one).
pub fn has_nested_handler(term: &Term, in_handler: bool) -> (r: bool)
    ensures
        r == nested_m(term@, in_handler),
    decreases term, 0nat,
{
    match term {
        Term::Handle { body, handler } => {
            proof {
                lemma_handler_parts(*handler);
            }
            let x = has_nested_handler(body, true);
            let y = has_nested_handler(&handler.return_body, true);
            let z = clauses_nested(&handler.clauses);
            in_handler || x || y || z
        },
        Term::Succ(i) => has_nested_handler(i, in_handler),
        Term::Perform(_, i) => has_nested_handler(i, in_handler),
        Term::ArrayLen(i) => has_nested_handler(i, in_handler),
        Term::Move(i) => has_nested_handler(i, in_handler),
        Term::Inplace(i) => has_nested_handler(i, in_handler),
        Term::Freeze(i) => has_nested_handler(i, in_handler),
        Term::Mark(_, i) => has_nested_handler(i, in_handler),
        Term::MkArray(a, b) => has_nested_handler(a, in_handler) || has_nested_handler(b, in_handler),
        Term::ArrayGet(a, b) => has_nested_handler(a, in_handler) || has_nested_handler(b, in_handler),
        Term::ArraySet(a, b, c) => has_nested_handler(a, in_handler) || has_nested_handler(
            b,
            in_handler,
        ) || has_nested_handler(c, in_handler),
        Term::Lam { body, .. } => has_nested_handler(body, in_handler),
        Term::Fix { body, .. } => has_nested_handler(body, in_handler),
        Term::FixGroup { bindings, .. } => bindings_nested(bindings, in_handler),
        Term::App(f, a) => has_nested_handler(f, in_handler) || has_nested_handler(a, in_handler),
        Term::Resume { kont, arg } => has_nested_handler(kont, in_handler) || has_nested_handler(
            arg,
            in_handler,
        ),
        Term::Let { expr, body, .. } => has_nested_handler(expr, in_handler) || has_nested_handler(
            body,
            in_handler,
        ),
        Term::CaseNat { scrutinee, zero_body, succ_body, .. } => has_nested_handler(
            scrutinee,
            in_handler,
        ) || has_nested_handler(zero_body, in_handler) || has_nested_handler(succ_body, in_handler),
        Term::Var(_) | Term::Unit | Term::Zero | Term::Cont(_) | Term::Array(_) => false,
    }
}

fn bindings_nested(v: &Vec<FixBinding>, in_handler: bool) -> (r: bool)
    ensures
        r == bindings_nested_m(bindings_view(v@), in_handler),
    decreases v, 1nat,
{
    let mut acc = false;
    let mut i: usize = 0;
    while i < v.len()
        invariant
            i <= v@.len(),
            acc == bindings_nested_m(bindings_view(v@.subrange(0, i as int)), in_handler),
        decreases v@.len() - i,
    {
        proof {
            assert(decreases_to!(v => v@));
            assert(decreases_to!(v@ => v@[i as int]));
        }
        let here = has_nested_handler(&v[i].body, in_handler);
        proof {
            let sub1 = v@.subrange(0, i + 1);
            assert(sub1.drop_last() =~= v@.subrange(0, i as int));
            assert(sub1.last() == v@[i as int]);
            let bv = bindings_view(sub1);
            assert(bv == bindings_view(sub1.drop_last()).push(binding_view(sub1.last())));
            assert(bv.drop_last() =~= bindings_view(v@.subrange(0, i as int)));
        }
        acc = acc || here;
        i += 1;
    }
    assert(v@.subrange(0, v@.len() as int) =~= v@);
    acc
}

fn clauses_nested(v: &Vec<OpClause>) -> (r: bool)
    ensures
        r == clauses_nested_m(clauses_view(v@)),
    decreases v, 1nat,
{
    let mut acc = false;
    let mut i: usize = 0;
    while i < v.len()
        invariant
            i <= v@.len(),
            acc == clauses_nested_m(clauses_view(v@.subrange(0, i as int))),
        decreases v@.len() - i,
    {
        proof {
            assert(decreases_to!(v => v@));
            assert(decreases_to!(v@ => v@[i as int]));
        }
        let here = has_nested_handler(&v[i].op_body, true);
        proof {
            let sub1 = v@.subrange(0, i + 1);
            assert(sub1.drop_last() =~= v@.subrange(0, i as int));
            assert(sub1.last() == v@[i as int]);
            let cv = clauses_view(sub1);
            assert(cv == clauses_view(sub1.drop_last()).push(clause_view(sub1.last())));
            assert(cv.drop_last() =~= clauses_view(v@.subrange(0, i as int)));
        }
        acc = acc || here;
        i += 1;
    }
    assert(v@.subrange(0, v@.len() as int) =~= v@);
    acc
}

/// Records in `facts` whether `term` nests a handler inside another.
pub fn scan_handlers(term: &Term, in_handler: bool, facts: &mut GenerationFacts)
    ensures
        *final(facts) == (GenerationFacts {
            nested_handlers: old(facts).nested_handlers || nested_m(term@, in_handler),
            ..*old(facts)
        }),
{
    if has_nested_handler(term, in_handler) {
        facts.nested_handlers = true;
    }
}

} // verus!
