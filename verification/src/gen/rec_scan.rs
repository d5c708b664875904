//! Counting recursive calls that peel the recursion parameter (strict) and those that do
//! not.  The scan keeps a stack of enclosing recursion binders; a `case` on a binder's
//! parameter marks the successor variable as a strict predecessor inside its branch.

use vstd::prelude::*;

use crate::check::env::names_set;
use crate::check::infer::{lemma_handler_parts, lemma_head_view};
use crate::check::typing::capped;
use crate::core_ast::{
    binding_view, bindings_view, clause_view, clauses_view, lemma_bindings_view,
    lemma_clauses_view, FixBinding, FixBindingM, GenerationFacts, Handler, OpClause, OpClauseM,
    Term, TermM,
};
use crate::text::{owned, str_eq};

verus! {

broadcast use vstd::std_specs::vec::group_vec_axioms, vstd::seq::group_seq_axioms;

/// An enclosing recursion binder and its strict predecessor variables.
pub struct RecScanM {
    pub func: Seq<char>,
    pub param: Seq<char>,
    pub strict: Set<Seq<char>>,
}

pub open spec fn new_scan(func: Seq<char>, param: Seq<char>) -> RecScanM {
    RecScanM { func, param, strict: Set::empty() }
}

/// The innermost binder of `f`.
pub open spec fn rfind_func(st: Seq<RecScanM>, f: Seq<char>) -> Option<int>
    decreases st.len(),
{
    if st.len() == 0 {
        None
    } else if st.last().func == f {
        Some(st.len() - 1)
    } else {
        rfind_func(st.drop_last(), f)
    }
}

/// The innermost binder whose parameter is `p`.
pub open spec fn rfind_param(st: Seq<RecScanM>, p: Seq<char>) -> Option<int>
    decreases st.len(),
{
    if st.len() == 0 {
        None
    } else if st.last().param == p {
        Some(st.len() - 1)
    } else {
        rfind_param(st.drop_last(), p)
    }
}

/// Strict and non-strict calls made directly by an application `fun arg`.
pub open spec fn call_counts(fun: TermM, arg: TermM, st: Seq<RecScanM>) -> (nat, nat) {
    match fun {
        TermM::Var(func) => match rfind_func(st, func) {
            Some(i) => {
                let rec = st[i];
                let strict = match arg {
                    TermM::Var(a) => rec.strict.contains(a) || a != rec.param,
                    _ => false,
                };
                if strict {
                    (1, 0)
                } else {
                    (0, 1)
                }
            },
            None => (0, 0),
        },
        _ => (0, 0),
    }
}

pub open spec fn with_strict(r: RecScanM, strict: Set<Seq<char>>) -> RecScanM {
    RecScanM { strict, ..r }
}

/// Scans `t` under stack `st`: the stack afterwards, and the strict and non-strict calls.
pub open spec fn scan_m(t: TermM, st: Seq<RecScanM>) -> (Seq<RecScanM>, nat, nat)
    decreases t, 0nat,
{
    match t {
        TermM::Fix { func, param, body, .. } => {
            let r = scan_m(*body, st.push(new_scan(func, param)));
            (r.0.drop_last(), r.1, r.2)
        },
        TermM::FixGroup { bindings, .. } => {
            let pushed = st + bindings.map_values(|b: FixBindingM| new_scan(b.func, b.param));
            let r = scan_bindings_m(bindings, pushed);
            (r.0.subrange(0, st.len() as int), r.1, r.2)
        },
        TermM::App(f, a) => {
            let c = call_counts(*f, *a, st);
            let r1 = scan_m(*f, st);
            let r2 = scan_m(*a, r1.0);
            (r2.0, c.0 + r1.1 + r2.1, c.1 + r1.2 + r2.2)
        },
        TermM::CaseNat { scrutinee, zero_body, succ_var, succ_body } => {
            let r1 = scan_m(*scrutinee, st);
            let r2 = scan_m(*zero_body, r1.0);
            let added = match *scrutinee {
                TermM::Var(n) => rfind_param(r2.0, n),
                _ => None,
            };
            let st2 = match added {
                Some(i) => r2.0.update(i, with_strict(r2.0[i], r2.0[i].strict.insert(succ_var))),
                None => r2.0,
            };
            let r3 = scan_m(*succ_body, st2);
            let st3 = match added {
                Some(i) => r3.0.update(i, with_strict(r3.0[i], r3.0[i].strict.remove(succ_var))),
                None => r3.0,
            };
            (st3, r1.1 + r2.1 + r3.1, r1.2 + r2.2 + r3.2)
        },
        TermM::Succ(i) | TermM::Perform(_, i) | TermM::ArrayLen(i) | TermM::Move(i)
        | TermM::Inplace(i) | TermM::Freeze(i) | TermM::Mark(_, i) => scan_m(*i, st),
        TermM::MkArray(a, b) | TermM::ArrayGet(a, b) => {
            let r1 = scan_m(*a, st);
            let r2 = scan_m(*b, r1.0);
            (r2.0, r1.1 + r2.1, r1.2 + r2.2)
        },
        TermM::ArraySet(a, b, c) => {
            let r1 = scan_m(*a, st);
            let r2 = scan_m(*b, r1.0);
            let r3 = scan_m(*c, r2.0);
            (r3.0, r1.1 + r2.1 + r3.1, r1.2 + r2.2 + r3.2)
        },
        TermM::Lam { body, .. } => scan_m(*body, st),
        TermM::Let { expr, body, .. } => {
            let r1 = scan_m(*expr, st);
            let r2 = scan_m(*body, r1.0);
            (r2.0, r1.1 + r2.1, r1.2 + r2.2)
        },
        TermM::Handle { body, handler } => {
            let r1 = scan_m(*body, st);
            let r2 = scan_m(*handler.return_body, r1.0);
            let r3 = scan_clauses_m(handler.clauses, r2.0);
            (r3.0, r1.1 + r2.1 + r3.1, r1.2 + r2.2 + r3.2)
        },
        TermM::Resume { kont, arg } => {
            let r1 = scan_m(*kont, st);
            let r2 = scan_m(*arg, r1.0);
            (r2.0, r1.1 + r2.1, r1.2 + r2.2)
        },
        TermM::Var(_) | TermM::Unit | TermM::Zero | TermM::Cont(_) | TermM::Array(_) => (st, 0, 0),
    }
}

pub open spec fn scan_bindings_m(s: Seq<FixBindingM>, st: Seq<RecScanM>) -> (
    Seq<RecScanM>,
    nat,
    nat,
)
    decreases s, 0nat,
{
    if s.len() == 0 {
        (st, 0, 0)
    } else {
        let r1 = scan_bindings_m(s.drop_last(), st);
        let r2 = scan_m(*s.last().body, r1.0);
        (r2.0, r1.1 + r2.1, r1.2 + r2.2)
    }
}

pub open spec fn scan_clauses_m(s: Seq<OpClauseM>, st: Seq<RecScanM>) -> (
    Seq<RecScanM>,
    nat,
    nat,
)
    decreases s, 0nat,
{
    if s.len() == 0 {
        (st, 0, 0)
    } else {
        let r1 = scan_clauses_m(s.drop_last(), st);
        let r2 = scan_m(*s.last().op_body, r1.0);
        (r2.0, r1.1 + r2.1, r1.2 + r2.2)
    }
}

/// An enclosing recursion binder during the scan.
pub struct RecScan {
    pub func: String,
    pub param: String,
    pub strict_vars: Vec<String>,
}

impl View for RecScan {
    type V = RecScanM;

    open spec fn view(&self) -> RecScanM {
        RecScanM { func: self.func@, param: self.param@, strict: names_set(self.strict_vars@) }
    }
}

pub open spec fn scans_view(s: Seq<RecScan>) -> Seq<RecScanM> {
    s.map_values(|r: RecScan| r@)
}

fn copy_names(v: &Vec<String>) -> (r: Vec<String>)
    ensures
        names_set(r@) == names_set(v@),
{
    let mut out: Vec<String> = Vec::new();
    let mut i: usize = 0;
    while i < v.len()
        invariant
            i <= v@.len(),
            out@.len() == i,
            forall|j: int| 0 <= j < i ==> #[trigger] out@[j]@ == v@[j]@,
        decreases v@.len() - i,
    {
        out.push(v[i].clone());
        i += 1;
    }
    assert(out@.map_values(|n: String| n@) =~= v@.map_values(|n: String| n@));
    out
}

/// Pushing a name adds it to the set of names.
proof fn lemma_names_push(s: Seq<String>, n: String)
    ensures
        names_set(s.push(n)) == names_set(s).insert(n@),
{
    let m = s.map_values(|x: String| x@);
    assert(s.push(n).map_values(|x: String| x@) =~= m.push(n@));
    assert forall|x: Seq<char>| m.push(n@).to_set().contains(x) implies m.to_set().insert(
        n@,
    ).contains(x) by {
        let j = choose|j: int| 0 <= j < m.push(n@).len() && m.push(n@)[j] == x;
        if j < m.len() {
            assert(m[j] == x);
        }
    }
    assert forall|x: Seq<char>| m.to_set().insert(n@).contains(x) implies m.push(
        n@,
    ).to_set().contains(x) by {
        if x == n@ {
            assert(m.push(n@)[m.len() as int] == x);
        } else {
            let j = choose|j: int| 0 <= j < m.len() && m[j] == x;
            assert(m.push(n@)[j] == x);
        }
    }
    assert(m.push(n@).to_set() =~= m.to_set().insert(n@));
}

/// `v` with `name` added.
fn names_insert(v: &Vec<String>, name: &String) -> (r: Vec<String>)
    ensures
        names_set(r@) == names_set(v@).insert(name@),
{
    let mut out = copy_names(v);
    let ghost before = out@;
    out.push(name.clone());
    proof {
        lemma_names_push(before, out@.last());
        assert(out@ =~= before.push(out@.last()));
    }
    out
}

/// `v` without `name`.
fn names_remove(v: &Vec<String>, name: &String) -> (r: Vec<String>)
    ensures
        names_set(r@) == names_set(v@).remove(name@),
{
    let mut out: Vec<String> = Vec::new();
    let mut i: usize = 0;
    assert(names_set(out@) =~= Set::<Seq<char>>::empty());
    assert(names_set(v@.subrange(0, 0)) =~= Set::<Seq<char>>::empty());
    while i < v.len()
        invariant
            i <= v@.len(),
            names_set(out@) == names_set(v@.subrange(0, i as int)).remove(name@),
        decreases v@.len() - i,
    {
        proof {
            assert(v@.subrange(0, i + 1) =~= v@.subrange(0, i as int).push(v@[i as int]));
            lemma_names_push(v@.subrange(0, i as int), v@[i as int]);
        }
        if !str_eq(v[i].as_str(), name.as_str()) {
            let ghost before = out@;
            out.push(v[i].clone());
            proof {
                assert(out@ =~= before.push(out@.last()));
                lemma_names_push(before, out@.last());
                assert(names_set(out@) =~= names_set(v@.subrange(0, i + 1)).remove(name@));
            }
        } else {
            assert(names_set(out@) =~= names_set(v@.subrange(0, i + 1)).remove(name@));
        }
        i += 1;
    }
    assert(v@.subrange(0, v@.len() as int) =~= v@);
    out
}

fn dup_scan(r: &RecScan) -> (out: RecScan)
    ensures
        out@ == r@,
{
    RecScan { func: r.func.clone(), param: r.param.clone(), strict_vars: copy_names(&r.strict_vars) }
}

/// The innermost binder of `f` on the stack.
fn rfind_func_exec(stack: &Vec<RecScan>, f: &str) -> (r: Option<usize>)
    ensures
        match r {
            Some(i) => rfind_func(scans_view(stack@), f@) == Some(i as int) && i < stack@.len(),
            None => rfind_func(scans_view(stack@), f@) is None,
        },
{
    let ghost full = scans_view(stack@);
    let mut i: usize = stack.len();
    assert(full.subrange(0, i as int) =~= full);
    while i > 0
        invariant
            i <= stack@.len(),
            full == scans_view(stack@),
            rfind_func(full, f@) == rfind_func(full.subrange(0, i as int), f@),
        decreases i,
    {
        let ghost pre = full.subrange(0, i as int);
        assert(pre.last() == stack@[i - 1]@);
        assert(pre.drop_last() =~= full.subrange(0, i - 1));
        if str_eq(stack[i - 1].func.as_str(), f) {
            return Some(i - 1);
        }
        i -= 1;
    }
    None
}

/// The innermost binder whose parameter is `p`.
fn rfind_param_exec(stack: &Vec<RecScan>, p: &str) -> (r: Option<usize>)
    ensures
        match r {
            Some(i) => rfind_param(scans_view(stack@), p@) == Some(i as int) && i < stack@.len(),
            None => rfind_param(scans_view(stack@), p@) is None,
        },
{
    let ghost full = scans_view(stack@);
    let mut i: usize = stack.len();
    assert(full.subrange(0, i as int) =~= full);
    while i > 0
        invariant
            i <= stack@.len(),
            full == scans_view(stack@),
            rfind_param(full, p@) == rfind_param(full.subrange(0, i as int), p@),
        decreases i,
    {
        let ghost pre = full.subrange(0, i as int);
        assert(pre.last() == stack@[i - 1]@);
        assert(pre.drop_last() =~= full.subrange(0, i - 1));
        if str_eq(stack[i - 1].param.as_str(), p) {
            return Some(i - 1);
        }
        i -= 1;
    }
    None
}

pub proof fn lemma_rfind_in_range(st: Seq<RecScanM>, f: Seq<char>, p: Seq<char>)
    ensures
        rfind_func(st, f) matches Some(i) ==> 0 <= i < st.len(),
        rfind_param(st, p) matches Some(i) ==> 0 <= i < st.len(),
    decreases st.len(),
{
    if st.len() > 0 {
        lemma_rfind_in_range(st.drop_last(), f, p);
    }
}

proof fn lemma_capped_chain(x: nat, a: nat, b: nat)
    ensures
        capped((capped(x + a) + b) as nat) == capped(x + a + b),
{
}

/// What a scan did to the stack and the counters.
pub open spec fn scanned(
    st0: Seq<RecScan>,
    st1: Seq<RecScan>,
    f0: GenerationFacts,
    f1: GenerationFacts,
    r: (Seq<RecScanM>, nat, nat),
) -> bool {
    &&& scans_view(st1) == r.0
    &&& st1.len() == st0.len()
    &&& f1.strict_rec_calls == capped((f0.strict_rec_calls + r.1) as nat)
    &&& f1.non_strict_rec_calls == capped((f0.non_strict_rec_calls + r.2) as nat)
    &&& f1.depth == f0.depth
    &&& f1.nested_handlers == f0.nested_handlers
}

proof fn lemma_scanned_chain(
    st0: Seq<RecScan>,
    st1: Seq<RecScan>,
    st2: Seq<RecScan>,
    f0: GenerationFacts,
    f1: GenerationFacts,
    f2: GenerationFacts,
    r1: (Seq<RecScanM>, nat, nat),
    r2: (Seq<RecScanM>, nat, nat),
)
    requires
        scanned(st0, st1, f0, f1, r1),
        scanned(st1, st2, f1, f2, r2),
    ensures
        scanned(st0, st2, f0, f2, (r2.0, r1.1 + r2.1, r1.2 + r2.2)),
{
    lemma_capped_chain(f0.strict_rec_calls as nat, r1.1, r2.1);
    lemma_capped_chain(f0.non_strict_rec_calls as nat, r1.2, r2.2);
}

/// Counts the recursive calls of `term`, strict (the argument is a predecessor peeled from
/// the binder's parameter, or any variable but the parameter) and non-strict.
pub fn scan_rec_calls(term: &Term, stack: &mut Vec<RecScan>, facts: &mut GenerationFacts)
    ensures
        scanned(old(stack)@, final(stack)@, *old(facts), *final(facts), scan_m(
            term@,
            scans_view(old(stack)@),
        )),
    decreases term, 2nat,
{
    match term {
        Term::Fix { .. } | Term::FixGroup { .. } => scan_binders(term, stack, facts),
        Term::App(_, _) => scan_app(term, stack, facts),
        Term::CaseNat { .. } => scan_case(term, stack, facts),
        Term::MkArray(_, _) | Term::ArrayGet(_, _) | Term::Let { .. } | Term::Resume { .. }
        | Term::ArraySet(_, _, _) | Term::Handle { .. } => scan_compound(term, stack, facts),
        Term::Succ(i) => scan_rec_calls(i, stack, facts),
        Term::Perform(_, i) => scan_rec_calls(i, stack, facts),
        Term::ArrayLen(i) => scan_rec_calls(i, stack, facts),
        Term::Move(i) => scan_rec_calls(i, stack, facts),
        Term::Inplace(i) => scan_rec_calls(i, stack, facts),
        Term::Freeze(i) => scan_rec_calls(i, stack, facts),
        Term::Mark(_, i) => scan_rec_calls(i, stack, facts),
        Term::Lam { body, .. } => scan_rec_calls(body, stack, facts),
        Term::Var(_) | Term::Unit | Term::Zero | Term::Cont(_) | Term::Array(_) => {},
    }
}

fn scan_binders(term: &Term, stack: &mut Vec<RecScan>, facts: &mut GenerationFacts)
    requires
        term is Fix || term is FixGroup,
    ensures
        scanned(old(stack)@, final(stack)@, *old(facts), *final(facts), scan_m(
            term@,
            scans_view(old(stack)@),
        )),
    decreases term, 1nat,
{
    let ghost st0 = stack@;
    let ghost f0 = *facts;
    match term {
        Term::Fix { func, param, body, .. } => {
            stack.push(RecScan { func: func.clone(), param: param.clone(), strict_vars: Vec::new() });
            proof {
                assert(names_set(Seq::<String>::empty()) =~= Set::<Seq<char>>::empty());
                assert(scans_view(stack@) =~= scans_view(st0).push(new_scan(func@, param@)));
            }
            scan_rec_calls(body, stack, facts);
            let ghost st1 = stack@;
            let _ = stack.pop();
            proof {
                assert(scans_view(stack@) =~= scans_view(st1).drop_last());
            }
        },
        Term::FixGroup { bindings, .. } => {
            proof {
                lemma_bindings_view(bindings@);
            }
            let start = stack.len();
            let ghost bv = bindings_view(bindings@);
            let mut i: usize = 0;
            while i < bindings.len()
                invariant
                    i <= bindings@.len(),
                    start == st0.len(),
                    stack@.len() == start + i,
                    bv == bindings_view(bindings@),
                    bv.len() == bindings@.len(),
                    forall|j: int| 0 <= j < bindings@.len() ==> #[trigger] bv[j] == binding_view(
                        bindings@[j],
                    ),
                    scans_view(stack@) == scans_view(st0) + bv.subrange(0, i as int).map_values(
                        |b: FixBindingM| new_scan(b.func, b.param),
                    ),
                    *facts == f0,
                decreases bindings@.len() - i,
            {
                let b = &bindings[i];
                let ghost before = stack@;
                stack.push(RecScan { func: b.func.clone(), param: b.param.clone(), strict_vars: Vec::new() });
                proof {
                    assert(names_set(Seq::<String>::empty()) =~= Set::<Seq<char>>::empty());
                    assert(bv.subrange(0, i + 1).map_values(|b: FixBindingM| new_scan(b.func, b.param))
                        =~= bv.subrange(0, i as int).map_values(
                        |b: FixBindingM| new_scan(b.func, b.param),
                    ).push(new_scan(bv[i as int].func, bv[i as int].param)));
                    assert(scans_view(stack@) =~= scans_view(before).push(
                        new_scan(b.func@, b.param@),
                    ));
                }
                i += 1;
            }
            proof {
                assert(bv.subrange(0, bv.len() as int) =~= bv);
            }
            let ghost stp = stack@;
            let ghost fp = *facts;
            scan_bindings(bindings, stack, facts);
            let ghost st2 = stack@;
            stack.truncate(start);
            proof {
                assert(scans_view(stack@) =~= scans_view(st2).subrange(0, st0.len() as int));
            }
        },
        _ => {
            assert(false);
        },
    }
}

fn scan_app(term: &Term, stack: &mut Vec<RecScan>, facts: &mut GenerationFacts)
    requires
        term is App,
    ensures
        scanned(old(stack)@, final(stack)@, *old(facts), *final(facts), scan_m(
            term@,
            scans_view(old(stack)@),
        )),
    decreases term, 1nat,
{
    let ghost st0 = stack@;
    let ghost f0 = *facts;
    match term {
        Term::App(f, a) => {
            proof {
                lemma_head_view(f);
                lemma_head_view(a);
                lemma_rfind_in_range(scans_view(stack@), Seq::empty(), Seq::empty());
            }
            match &**f {
                Term::Var(func) => {
                    proof {
                        lemma_rfind_in_range(scans_view(stack@), func@, Seq::empty());
                    }
                    match rfind_func_exec(stack, func.as_str()) {
                        Some(idx) => {
                            assert(scans_view(stack@)[idx as int] == stack@[idx as int]@);
                            let strict = match &**a {
                                Term::Var(an) => names_contains(&stack[idx].strict_vars, an)
                                    || !str_eq(an.as_str(), stack[idx].param.as_str()),
                                _ => false,
                            };
                            if strict {
                                facts.strict_rec_calls = facts.strict_rec_calls.saturating_add(1);
                            } else {
                                facts.non_strict_rec_calls = facts.non_strict_rec_calls.saturating_add(
                                    1,
                                );
                            }
                        },
                        None => {},
                    }
                },
                _ => {},
            }
            let ghost fc = *facts;
            let ghost c = call_counts(f@, a@, scans_view(st0));
            assert(scanned(st0, st0, f0, fc, (scans_view(st0), c.0, c.1)));
            scan_rec_calls(f, stack, facts);
            let ghost st1 = stack@;
            let ghost f1 = *facts;
            scan_rec_calls(a, stack, facts);
            proof {
                let r1 = scan_m(f@, scans_view(st0));
                let r2 = scan_m(a@, r1.0);
                lemma_scanned_chain(st0, st0, st1, f0, fc, f1, (scans_view(st0), c.0, c.1), r1);
                lemma_scanned_chain(
                    st0,
                    st1,
                    stack@,
                    f0,
                    f1,
                    *facts,
                    (r1.0, c.0 + r1.1, c.1 + r1.2),
                    r2,
                );
            }
        },
        _ => {
            assert(false);
        },
    }
}

fn scan_case(term: &Term, stack: &mut Vec<RecScan>, facts: &mut GenerationFacts)
    requires
        term is CaseNat,
    ensures
        scanned(old(stack)@, final(stack)@, *old(facts), *final(facts), scan_m(
            term@,
            scans_view(old(stack)@),
        )),
    decreases term, 1nat,
{
    let ghost st0 = stack@;
    let ghost f0 = *facts;
    match term {
        Term::CaseNat { scrutinee, zero_body, succ_var, succ_body } => {
            proof {
                lemma_head_view(scrutinee);
            }
            scan_rec_calls(scrutinee, stack, facts);
            let ghost st1 = stack@;
            let ghost f1 = *facts;
            scan_rec_calls(zero_body, stack, facts);
            let ghost st2 = stack@;
            let ghost f2 = *facts;
            proof {
                lemma_scanned_chain(
                    st0,
                    st1,
                    st2,
                    f0,
                    f1,
                    f2,
                    scan_m(scrutinee@, scans_view(st0)),
                    scan_m(zero_body@, scans_view(st1)),
                );
                lemma_rfind_in_range(scans_view(stack@), Seq::empty(), Seq::empty());
            }
            let added = match &**scrutinee {
                Term::Var(name) => {
                    proof {
                        lemma_rfind_in_range(scans_view(stack@), Seq::empty(), name@);
                    }
                    rfind_param_exec(stack, name.as_str())
                },
                _ => None,
            };
            if let Some(idx) = added {
                let mut rec = dup_scan(&stack[idx]);
                rec.strict_vars = names_insert(&stack[idx].strict_vars, succ_var);
                let ghost before = stack@;
                stack.set(idx, rec);
                proof {
                    assert(scans_view(stack@) =~= scans_view(before).update(
                        idx as int,
                        with_strict(
                            scans_view(before)[idx as int],
                            scans_view(before)[idx as int].strict.insert(succ_var@),
                        ),
                    ));
                }
            }
            let ghost st2b = stack@;
            scan_rec_calls(succ_body, stack, facts);
            let ghost st3 = stack@;
            let ghost f3 = *facts;
            if let Some(idx) = added {
                let mut rec = dup_scan(&stack[idx]);
                rec.strict_vars = names_remove(&stack[idx].strict_vars, succ_var);
                stack.set(idx, rec);
                proof {
                    assert(scans_view(stack@) =~= scans_view(st3).update(
                        idx as int,
                        with_strict(
                            scans_view(st3)[idx as int],
                            scans_view(st3)[idx as int].strict.remove(succ_var@),
                        ),
                    ));
                }
            }
            proof {
                let r1 = scan_m(scrutinee@, scans_view(st0));
                let r2 = scan_m(zero_body@, r1.0);
                assert(r1.0 == scans_view(st1));
                assert(r2.0 == scans_view(st2));
                let sadded = match scrutinee@ {
                    TermM::Var(n) => rfind_param(r2.0, n),
                    _ => None,
                };
                assert(sadded == match added {
                    Some(i) => Some(i as int),
                    None => None::<int>,
                });
                let st2s = match sadded {
                    Some(i) => r2.0.update(i, with_strict(r2.0[i], r2.0[i].strict.insert(succ_var@))),
                    None => r2.0,
                };
                assert(st2s == scans_view(st2b));
                let r3 = scan_m(succ_body@, st2s);
                assert(r3.0 == scans_view(st3));
                lemma_capped_chain(
                    f0.strict_rec_calls as nat,
                    scan_m(scrutinee@, scans_view(st0)).1 + scan_m(zero_body@, scans_view(st1)).1,
                    scan_m(succ_body@, scans_view(st2b)).1,
                );
                lemma_capped_chain(
                    f0.non_strict_rec_calls as nat,
                    scan_m(scrutinee@, scans_view(st0)).2 + scan_m(zero_body@, scans_view(st1)).2,
                    scan_m(succ_body@, scans_view(st2b)).2,
                );
            }
        },
        _ => {
            assert(false);
        },
    }
}

fn scan_compound(term: &Term, stack: &mut Vec<RecScan>, facts: &mut GenerationFacts)
    requires
        term is MkArray || term is ArrayGet || term is Let || term is Resume || term is ArraySet || term is Handle,
    ensures
        scanned(old(stack)@, final(stack)@, *old(facts), *final(facts), scan_m(
            term@,
            scans_view(old(stack)@),
        )),
    decreases term, 1nat,
{
    let ghost st0 = stack@;
    let ghost f0 = *facts;
    match term {
        Term::MkArray(a, b) | Term::ArrayGet(a, b) | Term::Let { expr: a, body: b, .. }
        | Term::Resume { kont: a, arg: b } => {
            scan_rec_calls(a, stack, facts);
            let ghost st1 = stack@;
            let ghost f1 = *facts;
            scan_rec_calls(b, stack, facts);
            proof {
                lemma_scanned_chain(
                    st0,
                    st1,
                    stack@,
                    f0,
                    f1,
                    *facts,
                    scan_m(a@, scans_view(st0)),
                    scan_m(b@, scans_view(st1)),
                );
            }
        },
        Term::ArraySet(a, b, c) => {
            scan_rec_calls(a, stack, facts);
            let ghost st1 = stack@;
            let ghost f1 = *facts;
            scan_rec_calls(b, stack, facts);
            let ghost st2 = stack@;
            let ghost f2 = *facts;
            scan_rec_calls(c, stack, facts);
            proof {
                let r1 = scan_m(a@, scans_view(st0));
                let r2 = scan_m(b@, scans_view(st1));
                lemma_scanned_chain(st0, st1, st2, f0, f1, f2, r1, r2);
                lemma_scanned_chain(
                    st0,
                    st2,
                    stack@,
                    f0,
                    f2,
                    *facts,
                    (r2.0, r1.1 + r2.1, r1.2 + r2.2),
                    scan_m(c@, scans_view(st2)),
                );
            }
        },
        Term::Handle { body, handler } => {
            proof {
                lemma_handler_parts(*handler);
            }
            scan_rec_calls(body, stack, facts);
            let ghost st1 = stack@;
            let ghost f1 = *facts;
            scan_rec_calls(&handler.return_body, stack, facts);
            let ghost st2 = stack@;
            let ghost f2 = *facts;
            scan_clauses(&handler.clauses, stack, facts);
            proof {
                let r1 = scan_m(body@, scans_view(st0));
                let r2 = scan_m(handler.return_body@, scans_view(st1));
                lemma_scanned_chain(st0, st1, st2, f0, f1, f2, r1, r2);
                lemma_scanned_chain(
                    st0,
                    st2,
                    stack@,
                    f0,
                    f2,
                    *facts,
                    (r2.0, r1.1 + r2.1, r1.2 + r2.2),
                    scan_clauses_m(clauses_view(handler.clauses@), scans_view(st2)),
                );
            }
        },
        _ => {
            assert(false);
        },
    }
}

fn names_contains(v: &Vec<String>, name: &String) -> (r: bool)
    ensures
        r == names_set(v@).contains(name@),
{
    let mut i: usize = 0;
    while i < v.len()
        invariant
            i <= v@.len(),
            forall|j: int| 0 <= j < i ==> v@[j]@ != name@,
        decreases v@.len() - i,
    {
        if str_eq(v[i].as_str(), name.as_str()) {
            assert(v@.map_values(|n: String| n@)[i as int] == name@);
            return true;
        }
        i += 1;
    }
    proof {
        let s = v@.map_values(|n: String| n@);
        if s.to_set().contains(name@) {
            let j = choose|j: int| 0 <= j < s.len() && s[j] == name@;
            assert(v@[j]@ == name@);
        }
    }
    false
}

fn scan_bindings(v: &Vec<FixBinding>, stack: &mut Vec<RecScan>, facts: &mut GenerationFacts)
    ensures
        scanned(old(stack)@, final(stack)@, *old(facts), *final(facts), scan_bindings_m(
            bindings_view(v@),
            scans_view(old(stack)@),
        )),
    decreases v, 1nat,
{
    let ghost st0 = stack@;
    let ghost f0 = *facts;
    let mut i: usize = 0;
    while i < v.len()
        invariant
            i <= v@.len(),
            scanned(st0, stack@, f0, *facts, scan_bindings_m(
                bindings_view(v@.subrange(0, i as int)),
                scans_view(st0),
            )),
        decreases v@.len() - i,
    {
        proof {
            assert(decreases_to!(v => v@));
            assert(decreases_to!(v@ => v@[i as int]));
        }
        let ghost st1 = stack@;
        let ghost f1 = *facts;
        scan_rec_calls(&v[i].body, stack, facts);
        proof {
            let sub1 = v@.subrange(0, i + 1);
            assert(sub1.drop_last() =~= v@.subrange(0, i as int));
            assert(sub1.last() == v@[i as int]);
            let bv = bindings_view(sub1);
            assert(bv == bindings_view(sub1.drop_last()).push(binding_view(sub1.last())));
            assert(bv.drop_last() =~= bindings_view(v@.subrange(0, i as int)));
            lemma_scanned_chain(
                st0,
                st1,
                stack@,
                f0,
                f1,
                *facts,
                scan_bindings_m(bindings_view(v@.subrange(0, i as int)), scans_view(st0)),
                scan_m(v@[i as int].body@, scans_view(st1)),
            );
        }
        i += 1;
    }
    assert(v@.subrange(0, v@.len() as int) =~= v@);
}

fn scan_clauses(v: &Vec<OpClause>, stack: &mut Vec<RecScan>, facts: &mut GenerationFacts)
    ensures
        scanned(old(stack)@, final(stack)@, *old(facts), *final(facts), scan_clauses_m(
            clauses_view(v@),
            scans_view(old(stack)@),
        )),
    decreases v, 1nat,
{
    let ghost st0 = stack@;
    let ghost f0 = *facts;
    let mut i: usize = 0;
    while i < v.len()
        invariant
            i <= v@.len(),
            scanned(st0, stack@, f0, *facts, scan_clauses_m(
                clauses_view(v@.subrange(0, i as int)),
                scans_view(st0),
            )),
        decreases v@.len() - i,
    {
        proof {
            assert(decreases_to!(v => v@));
            assert(decreases_to!(v@ => v@[i as int]));
        }
        let ghost st1 = stack@;
        let ghost f1 = *facts;
        scan_rec_calls(&v[i].op_body, stack, facts);
        proof {
            let sub1 = v@.subrange(0, i + 1);
            assert(sub1.drop_last() =~= v@.subrange(0, i as int));
            assert(sub1.last() == v@[i as int]);
            let cv = clauses_view(sub1);
            assert(cv == clauses_view(sub1.drop_last()).push(clause_view(sub1.last())));
            assert(cv.drop_last() =~= clauses_view(v@.subrange(0, i as int)));
            lemma_scanned_chain(
                st0,
                st1,
                stack@,
                f0,
                f1,
                *facts,
                scan_clauses_m(clauses_view(v@.subrange(0, i as int)), scans_view(st0)),
                scan_m(v@[i as int].op_body@, scans_view(st1)),
            );
        }
        i += 1;
    }
    assert(v@.subrange(0, v@.len() as int) =~= v@);
}

} // verus!
