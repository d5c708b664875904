//! Type-directed generation of core terms from a sequence of choice bytes.
//!
//! The builder is given a target type, the variables in scope and a depth budget, and
//! picks introduction and elimination forms for that target. Every generated term is
//! closed and obeys the handler continuation-usage discipline; its witness and facts are
//! the ones derived from the term itself.

use vstd::prelude::*;

use crate::check::typing::{capped, empty_env, free_count_m, resume_count_m};
use crate::core_ast::{
    binding_view, bindings_view, clause_view, clauses_view, lemma_bindings_view, nat_m, FixBindingM, OpClauseM, ContId, CoverageTag, ExpectedOutcome, FixBinding,
    GeneratedTerm, GenerationFacts, Handler, OpClause, RecursionTag, Term, TermM, Type,
};
use crate::gen::closure::{
    bindings_closed_m, bindings_obey_m, clauses_closed_m, clauses_obey_m, closed_m, k_usage_ok,
    obeys_m,
};
use crate::gen::derive::derive_witness;
use crate::gen::derive_spec::derive_m;
use crate::gen::facts::{depth_m, has_nested_handler, nested_m, term_depth};
use crate::gen::rec_scan::{scan_m, scan_rec_calls, scans_view, RecScan};
use crate::grade::Label;
use crate::text::{decimal, owned, push};

verus! {

broadcast use vstd::std_specs::vec::group_vec_axioms, vstd::seq::group_seq_axioms;

/// Seed of the fixed sample.
pub const FIXED_SEED: u64 = 0xA711_0002;

/// Number of inputs in the fixed sample.
pub const SAMPLE_SIZE: usize = 1024;

/// Step budget for evaluating generated terms.
pub const STEP_BUDGET: usize = 96;

/// Depth budget of the builder.
pub const MAX_DEPTH: usize = 5;

/// Number of choice bytes in each sampled input.
pub const MAX_CHOICES: usize = 80;

// ---------------------------------------------------------------------------------------
// Facts of a generated term.
/// The structural facts of a term: its (saturated) height, whether a handler is nested
/// inside another, and its strict and non-strict recursive calls.
pub open spec fn facts_m(t: TermM) -> GenerationFacts {
    GenerationFacts {
        depth: capped(depth_m(t)),
        nested_handlers: nested_m(t, false),
        strict_rec_calls: capped(scan_m(t, Seq::empty()).1),
        non_strict_rec_calls: capped(scan_m(t, Seq::empty()).2),
    }
}

/// The structural facts of `term`.
pub fn analyze_facts(term: &Term) -> (r: GenerationFacts)
    ensures
        r == facts_m(term@),
{
    let mut facts = GenerationFacts {
        depth: term_depth(term),
        nested_handlers: has_nested_handler(term, false),
        strict_rec_calls: 0,
        non_strict_rec_calls: 0,
    };
    let mut stack: Vec<RecScan> = Vec::new();
    proof {
        assert(scans_view(stack@) =~= Seq::<crate::gen::rec_scan::RecScanM>::empty());
    }
    scan_rec_calls(term, &mut stack, &mut facts);
    facts
}

// ---------------------------------------------------------------------------------------
// Choice streams.
/// A cyclic reader over a non-empty sequence of choice bytes.
struct ChoiceStream {
    choices: Vec<u8>,
    pos: usize,
}

impl ChoiceStream {
    spec fn wf(&self) -> bool {
        0 < self.choices@.len() && self.pos < self.choices@.len()
    }

    fn new(choices: Vec<u8>) -> (r: Self)
        ensures
            r.wf(),
            r.pos == 0,
            r.choices@ == (if choices@.len() == 0 {
                seq![0u8]
            } else {
                choices@
            }),
    {
        let choices = if choices.len() == 0 {
            vec![0u8]
        } else {
            choices
        };
        Self { choices, pos: 0 }
    }

    /// The next byte; the stream starts over after its last byte.
    fn next(&mut self) -> (r: u8)
        requires
            old(self).wf(),
        ensures
            final(self).wf(),
            final(self).choices == old(self).choices,
            r == old(self).choices@[old(self).pos as int],
    {
        let byte = self.choices[self.pos];
        if self.pos == self.choices.len() - 1 {
            self.pos = 0;
        } else {
            self.pos = self.pos + 1;
        }
        byte
    }

    fn next_mod(&mut self, modulo: u8) -> (r: u8)
        requires
            old(self).wf(),
            modulo > 0,
        ensures
            final(self).wf(),
            final(self).choices == old(self).choices,
            r < modulo,
            r == old(self).choices@[old(self).pos as int] % modulo,
    {
        self.next() % modulo
    }
}

// ---------------------------------------------------------------------------------------
// Scopes.
/// The names bound by a generation scope.
pub open spec fn scope_names(env: Seq<(String, Type)>) -> Seq<Seq<char>> {
    env.map_values(|p: (String, Type)| p.0@)
}

proof fn lemma_in_pushed(s: Seq<Seq<char>>, x: Seq<char>, y: Seq<char>)
    ensures
        s.push(y).contains(y),
        s.contains(x) ==> s.push(y).contains(x),
{
    assert(s.push(y)[s.len() as int] == y);
    if s.contains(x) {
        let i = choose|i: int| 0 <= i < s.len() && s[i] == x;
        assert(s.push(y)[i] == x);
    }
}

fn push_var(env: &mut Vec<(String, Type)>, name: &String, ty: Type)
    ensures
        scope_names(final(env)@) == scope_names(old(env)@).push(name@),
        final(env)@.drop_last() == old(env)@,
        final(env)@.len() == old(env)@.len() + 1,
{
    env.push((owned(name.as_str()), ty));
    assert(scope_names(env@) =~= scope_names(old(env)@).push(name@));
    assert(env@.drop_last() =~= old(env)@);
}

fn pop_var(env: &mut Vec<(String, Type)>)
    requires
        old(env)@.len() > 0,
    ensures
        final(env)@ == old(env)@.drop_last(),
{
    let _ = env.pop();
}

/// The names in scope whose type is `ty`, in scope order.
fn vars_of_type(env: &Vec<(String, Type)>, ty: &Type) -> (r: Vec<String>)
    ensures
        forall|j: int| 0 <= j < r@.len() ==> scope_names(env@).contains(#[trigger] r@[j]@),
{
    let mut out: Vec<String> = Vec::new();
    let mut i: usize = 0;
    while i < env.len()
        invariant
            i <= env@.len(),
            forall|j: int| 0 <= j < out@.len() ==> scope_names(env@).contains(#[trigger] out@[j]@),
        decreases env@.len() - i,
    {
        if env[i].1.same(ty) {
            proof {
                assert(scope_names(env@)[i as int] == env@[i as int].0@);
            }
            out.push(owned(env[i].0.as_str()));
        }
        i += 1;
    }
    out
}

// ---------------------------------------------------------------------------------------
// Facts about small terms.
proof fn lemma_numeral(n: nat, s: Seq<Seq<char>>, x: Seq<char>)
    ensures
        closed_m(nat_m(n), s),
        obeys_m(nat_m(n)),
        free_count_m(nat_m(n), x) == 0,
        resume_count_m(nat_m(n), x) == 0,
    decreases n,
{
    if n > 0 {
        lemma_numeral((n - 1) as nat, s, x);
    }
}

/// A term that is closed under `s` and obeys the continuation discipline.
pub open spec fn sound_in(t: TermM, s: Seq<Seq<char>>) -> bool {
    closed_m(t, s) && obeys_m(t)
}

/// The variable `name`, bound in `s`.
fn var_in(name: &str, Ghost(s): Ghost<Seq<Seq<char>>>) -> (r: Term)
    requires
        s.contains(name@),
    ensures
        r@ == TermM::Var(name@),
        sound_in(r@, s),
{
    Term::var(name)
}

/// The numeral zero, closed in every scope.
fn zero_term(Ghost(s): Ghost<Seq<Seq<char>>>) -> (r: Term)
    ensures
        r@ == TermM::Zero,
        sound_in(r@, s),
{
    Term::zero()
}

/// A handler returning its value unchanged, with one clause for `label`.
fn single_clause_handler(
    label: Label,
    param: &str,
    k: &str,
    body: Term,
    Ghost(s): Ghost<Seq<Seq<char>>>,
) -> (r: Handler)
    requires
        sound_in(body@, s.push(param@).push(k@)),
        k_usage_ok(body@, k@),
    ensures
        handler_sound_in(r@, s),
{
    let clause = OpClause {
        op_label: label,
        op_param: owned(param),
        op_k: owned(k),
        op_body: Box::new(body),
    };
    proof {
        lemma_one_clause(clause);
        lemma_one_clause_sound(clause_view(clause), s);
        lemma_in_pushed(s, "r"@, "r"@);
    }
    let ret = var_in("r", Ghost(s.push("r"@)));
    let h = Handler::single(owned("r"), Box::new(ret), clause);
    assert(h@.clauses == seq![clause_view(clause)]);
    h
}

/// The numeral `n`, closed in every scope.
fn nat_in(n: u64, Ghost(s): Ghost<Seq<Seq<char>>>) -> (r: Term)
    ensures
        r@ == nat_m(n as nat),
        sound_in(r@, s),
{
    proof {
        lemma_numeral(n as nat, s, Seq::empty());
    }
    Term::natural(n)
}

fn let_in(var: &str, expr: Term, body: Term, Ghost(s): Ghost<Seq<Seq<char>>>) -> (r: Term)
    requires
        sound_in(expr@, s),
        sound_in(body@, s.push(var@)),
    ensures
        sound_in(r@, s),
{
    Term::Let { var: owned(var), expr: Box::new(expr), body: Box::new(body) }
}

fn get_in(a: Term, b: Term, Ghost(s): Ghost<Seq<Seq<char>>>) -> (r: Term)
    requires
        sound_in(a@, s),
        sound_in(b@, s),
    ensures
        sound_in(r@, s),
{
    Term::ArrayGet(Box::new(a), Box::new(b))
}

fn set_in(a: Term, b: Term, c: Term, Ghost(s): Ghost<Seq<Seq<char>>>) -> (r: Term)
    requires
        sound_in(a@, s),
        sound_in(b@, s),
        sound_in(c@, s),
    ensures
        sound_in(r@, s),
{
    Term::ArraySet(Box::new(a), Box::new(b), Box::new(c))
}

fn mk_in(a: Term, b: Term, Ghost(s): Ghost<Seq<Seq<char>>>) -> (r: Term)
    requires
        sound_in(a@, s),
        sound_in(b@, s),
    ensures
        sound_in(r@, s),
{
    Term::MkArray(Box::new(a), Box::new(b))
}

fn mark_in(tag: CoverageTag, a: Term, Ghost(s): Ghost<Seq<Seq<char>>>) -> (r: Term)
    requires
        sound_in(a@, s),
    ensures
        sound_in(r@, s),
{
    Term::Mark(tag, Box::new(a))
}

fn inplace_in(a: Term, Ghost(s): Ghost<Seq<Seq<char>>>) -> (r: Term)
    requires
        sound_in(a@, s),
    ensures
        sound_in(r@, s),
{
    Term::Inplace(Box::new(a))
}

/// `var` in the scope `s` extended by `var`.
fn bound_var(var: &str, Ghost(s): Ghost<Seq<Seq<char>>>) -> (r: Term)
    ensures
        sound_in(r@, s.push(var@)),
{
    proof {
        lemma_in_pushed(s, var@, var@);
    }
    var_in(var, Ghost(s.push(var@)))
}

/// `var`, bound in `s` and still visible under one more binder `inner`.
fn outer_var(var: &str, inner: &str, Ghost(s): Ghost<Seq<Seq<char>>>) -> (r: Term)
    ensures
        sound_in(r@, s.push(var@).push(inner@)),
{
    proof {
        lemma_in_pushed(s, var@, var@);
        lemma_in_pushed(s.push(var@), var@, inner@);
    }
    var_in(var, Ghost(s.push(var@).push(inner@)))
}

/// `resume k p`.
fn resume_k_p(Ghost(s): Ghost<Seq<Seq<char>>>) -> (r: Term)
    ensures
        sound_in(r@, s.push("p"@).push("k"@)),
        k_usage_ok(r@, "k"@),
{
    proof {
        lemma_resume_body(s);
    }
    let kont = Term::var("k");
    let arg = Term::var("p");
    Term::Resume { kont: Box::new(kont), arg: Box::new(arg) }
}

proof fn lemma_two_clauses(c1: OpClause, c2: OpClause, s: Seq<Seq<char>>)
    requires
        sound_in(*clause_view(c1).op_body, s.push(c1.op_param@).push(c1.op_k@)),
        k_usage_ok(*clause_view(c1).op_body, c1.op_k@),
        sound_in(*clause_view(c2).op_body, s.push(c2.op_param@).push(c2.op_k@)),
        k_usage_ok(*clause_view(c2).op_body, c2.op_k@),
    ensures
        clauses_closed_m(clauses_view(seq![c1, c2]), s),
        clauses_obey_m(clauses_view(seq![c1, c2])),
{
    let two = seq![c1, c2];
    assert(two.drop_last() =~= seq![c1]);
    lemma_one_clause(c1);
    lemma_one_clause_sound(clause_view(c1), s);
    let v = clauses_view(two);
    assert(v == seq![clause_view(c1)].push(clause_view(c2)));
    assert(v.drop_last() =~= seq![clause_view(c1)]);
}

proof fn lemma_two_bindings_view(b0: FixBinding, b1: FixBinding)
    ensures
        bindings_view(seq![b0, b1]) == seq![binding_view(b0), binding_view(b1)],
{
    let two = seq![b0, b1];
    lemma_bindings_view(two);
    let v = bindings_view(two);
    assert(v[0] == binding_view(b0) && v[1] == binding_view(b1));
    assert(v =~= seq![binding_view(b0), binding_view(b1)]);
}

proof fn lemma_two_bindings(b0: FixBindingM, b1: FixBindingM, entry: Seq<char>, s: Seq<Seq<char>>)
    requires
        ({
            let g = s + seq![b0.func, b1.func];
            &&& sound_in(*b0.body, g.push(b0.param))
            &&& sound_in(*b1.body, g.push(b1.param))
        }),
    ensures
        sound_in(TermM::FixGroup { bindings: seq![b0, b1], entry }, s),
{
    let v = seq![b0, b1];
    let g = s + seq![b0.func, b1.func];
    assert(v.map_values(|b: FixBindingM| b.func) =~= seq![b0.func, b1.func]);
    assert(v.drop_last() =~= seq![b0]);
    assert(seq![b0].drop_last() =~= Seq::<FixBindingM>::empty());
    assert(seq![b0].last() == b0 && v.last() == b1);
    assert(bindings_closed_m(Seq::<FixBindingM>::empty(), g));
    assert(bindings_obey_m(Seq::<FixBindingM>::empty()));
    assert(bindings_closed_m(seq![b0], g));
    assert(bindings_obey_m(seq![b0]));
    assert(bindings_closed_m(v, g));
    assert(bindings_obey_m(v));
    let t = TermM::FixGroup { bindings: v, entry };
    assert(closed_m(t, s));
    assert(obeys_m(t));
}

/// The handler of the clause-set case: `A` resumes, `B` returns its argument.
fn clause_set_handler(label_a: Label, label_b: Label, Ghost(s): Ghost<Seq<Seq<char>>>) -> (r:
    Handler)
    ensures
        handler_sound_in(r@, s),
{
    proof {
        reveal_strlit("q");
        reveal_strlit("_k");
        assert("q"@ != "_k"@) by {
            assert("q"@.len() != "_k"@.len());
        }
        lemma_var_body(s, "q"@, "_k"@);
        lemma_in_pushed(s, "r"@, "r"@);
    }
    let first = OpClause {
        op_label: label_a,
        op_param: owned("p"),
        op_k: owned("k"),
        op_body: Box::new(resume_k_p(Ghost(s))),
    };
    let second = OpClause {
        op_label: label_b,
        op_param: owned("q"),
        op_k: owned("_k"),
        op_body: Box::new(Term::var("q")),
    };
    proof {
        lemma_two_clauses(first, second, s);
    }
    let mut clauses: Vec<OpClause> = Vec::new();
    clauses.push(first);
    clauses.push(second);
    assert(clauses@ == seq![first, second]);
    Handler {
        return_var: owned("r"),
        return_body: Box::new(var_in("r", Ghost(s.push("r"@)))),
        clauses,
    }
}

/// `case n { 0 -> zero_value; succ p -> other(p) }`, the body of one member of the parity
/// group, under the group scope `g` extended by `n`.
fn parity_body(n: &String, p: String, other: &String, zero_value: u64, Ghost(g): Ghost<
    Seq<Seq<char>>,
>) -> (r: Term)
    requires
        g.contains(other@),
    ensures
        sound_in(r@, g.push(n@)),
{
    let ghost gn = g.push(n@);
    proof {
        lemma_in_pushed(g, other@, n@);
        lemma_in_pushed(gn, other@, p@);
        lemma_in_pushed(gn, p@, p@);
    }
    let call = Term::App(
        Box::new(var_in(other.as_str(), Ghost(gn.push(p@)))),
        Box::new(var_in(p.as_str(), Ghost(gn.push(p@)))),
    );
    assert(sound_in(call@, gn.push(p@)));
    let scrutinee = bound_var(n.as_str(), Ghost(g));
    let t = Term::CaseNat {
        scrutinee: Box::new(scrutinee),
        zero_body: Box::new(nat_in(zero_value, Ghost(gn))),
        succ_var: p,
        succ_body: Box::new(call),
    };
    assert(sound_in(t@, gn));
    t
}

proof fn lemma_pair_scope(s: Seq<Seq<char>>, a: Seq<char>, b: Seq<char>)
    ensures
        (s + seq![a, b]).contains(a),
        (s + seq![a, b]).contains(b),
{
    let g = s + seq![a, b];
    assert(g[s.len() as int] == a);
    assert(g[s.len() as int + 1] == b);
}

/// The recursive group `{ even(n) = case n {0 -> 1; succ p -> odd(p)}, odd(n) = case n
/// {0 -> 0; succ p -> even(p)} }` entered at `even`.
fn parity_group(
    even: String,
    odd: String,
    n_even: String,
    n_odd: String,
    p_even: String,
    p_odd: String,
    tag: RecursionTag,
    Ghost(s): Ghost<Seq<Seq<char>>>,
) -> (r: Term)
    ensures
        sound_in(r@, s),
{
    let ghost g = s + seq![even@, odd@];
    proof {
        lemma_pair_scope(s, even@, odd@);
    }
    let even_body = parity_body(&n_even, p_even, &odd, 1, Ghost(g));
    let odd_body = parity_body(&n_odd, p_odd, &even, 0, Ghost(g));
    let entry = owned(even.as_str());
    let b0 = FixBinding {
        func: even,
        param: n_even,
        param_ty: Type::Nat,
        body: Box::new(even_body),
        tag,
    };
    let b1 = FixBinding { func: odd, param: n_odd, param_ty: Type::Nat, body: Box::new(odd_body), tag };
    proof {
        lemma_two_bindings_view(b0, b1);
        lemma_two_bindings(binding_view(b0), binding_view(b1), entry@, s);
    }
    let mut bindings: Vec<FixBinding> = Vec::new();
    bindings.push(b0);
    bindings.push(b1);
    assert(bindings@ == seq![b0, b1]);
    Term::FixGroup { bindings, entry }
}

// ---------------------------------------------------------------------------------------
// The builder.
struct Builder {
    choices: ChoiceStream,
    fresh: usize,
}

impl Builder {
    spec fn wf(&self) -> bool {
        self.choices.wf()
    }

    fn new(choices: ChoiceStream) -> (r: Self)
        requires
            choices.wf(),
        ensures
            r.wf(),
            r.choices == choices,
    {
        Self { choices, fresh: 0 }
    }

    /// `prefix` followed by a counter that grows with each name handed out.
    fn fresh_name(&mut self, prefix: &str) -> (r: String)
        requires
            old(self).wf(),
        ensures
            final(self).wf(),
    {
        let mut name = owned(prefix);
        let digits = decimal(self.fresh as u64);
        push(&mut name, digits.as_str());
        if self.fresh < usize::MAX {
            self.fresh = self.fresh + 1;
        }
        name
    }

    fn gen_pure_nat(&mut self, max: usize) -> (r: Term)
        requires
            old(self).wf(),
        ensures
            final(self).wf(),
            exists|n: nat| n <= 5 && n <= max && r@ == nat_m(n),
    {
        let bound: u8 = if max < 5 {
            max as u8
        } else {
            5
        };
        let n = self.choices.next_mod(bound + 1);
        let t = Term::natural(n as u64);
        assert(t@ == nat_m(n as nat) && n <= max);
        t
    }

    fn gen_nat_base(&mut self, env: &Vec<(String, Type)>) -> (r: Term)
        requires
            old(self).wf(),
        ensures
            final(self).wf(),
            sound_in(r@, scope_names(env@)),
    {
        let vars = vars_of_type(env, &Type::Nat);
        if vars.len() > 0 && self.choices.next_mod(3) == 0 {
            let i = (self.choices.next() as usize) % vars.len();
            let t = Term::var(vars[i].as_str());
            assert(scope_names(env@).contains(vars@[i as int]@));
            return t;
        }
        let max = self.choices.next_mod(4) as usize;
        let t = self.gen_pure_nat(max);
        proof {
            let n = choose|n: nat| n <= 5 && t@ == nat_m(n);
            lemma_numeral(n, scope_names(env@), Seq::empty());
        }
        t
    }
}


/// A handler whose return clause and operation clauses are closed under `s` and obey the
/// continuation discipline.
pub open spec fn handler_sound_in(h: crate::core_ast::HandlerM, s: Seq<Seq<char>>) -> bool {
    &&& closed_m(*h.return_body, s.push(h.return_var))
    &&& obeys_m(*h.return_body)
    &&& clauses_closed_m(h.clauses, s)
    &&& clauses_obey_m(h.clauses)
}

proof fn lemma_one_clause(c: OpClause)
    ensures
        clauses_view(seq![c]) == seq![clause_view(c)],
{
    let one = seq![c];
    assert(one.drop_last() =~= Seq::<OpClause>::empty());
    assert(one.last() == c);
    assert(clauses_view(one) == clauses_view(one.drop_last()).push(clause_view(c)));
    assert(Seq::<OpClauseM>::empty().push(clause_view(c)) =~= seq![clause_view(c)]);
}

proof fn lemma_one_clause_sound(c: OpClauseM, s: Seq<Seq<char>>)
    requires
        sound_in(*c.op_body, s.push(c.op_param).push(c.op_k)),
        k_usage_ok(*c.op_body, c.op_k),
    ensures
        clauses_closed_m(seq![c], s),
        clauses_obey_m(seq![c]),
{
    let one = seq![c];
    assert(one.drop_last() =~= Seq::<OpClauseM>::empty());
    assert(one.last() == c);
    assert(clauses_closed_m(one.drop_last(), s));
    assert(clauses_obey_m(one.drop_last()));
}

/// `resume k p`, the clause body that resumes its continuation once.
proof fn lemma_resume_body(s: Seq<Seq<char>>)
    ensures
        ({
            let t = TermM::Resume {
                kont: Box::new(TermM::Var("k"@)),
                arg: Box::new(TermM::Var("p"@)),
            };
            &&& sound_in(t, s.push("p"@).push("k"@))
            &&& k_usage_ok(t, "k"@)
            &&& free_count_m(t, "k"@) == 1
            &&& resume_count_m(t, "k"@) == 1
        }),
{
    reveal_strlit("p");
    reveal_strlit("k");
    lemma_in_pushed(s.push("p"@), "p"@, "k"@);
    lemma_in_pushed(s, "p"@, "p"@);
    let t = TermM::Resume { kont: Box::new(TermM::Var("k"@)), arg: Box::new(TermM::Var("p"@)) };
    assert("p"@ != "k"@) by {
        assert("p"@[0] != "k"@[0]);
    }
    assert(closed_m(TermM::Var("k"@), s.push("p"@).push("k"@)));
    assert(closed_m(TermM::Var("p"@), s.push("p"@).push("k"@)));
    assert(closed_m(t, s.push("p"@).push("k"@)));
    assert(obeys_m(TermM::Var("k"@)) && obeys_m(TermM::Var("p"@)));
    assert(obeys_m(t));
    assert(resume_count_m(TermM::Var("p"@), "k"@) == 0);
    assert(free_count_m(TermM::Var("p"@), "k"@) == 0);
    assert(free_count_m(TermM::Var("k"@), "k"@) == 1);
    assert(free_count_m(t, "k"@) == 1);
    assert(resume_count_m(t, "k"@) == 1);
}

/// `let resumed = resume k p in resumed`.
proof fn lemma_let_resume_body(s: Seq<Seq<char>>)
    ensures
        ({
            let t = TermM::Let {
                var: "resumed"@,
                expr: Box::new(
                    TermM::Resume {
                        kont: Box::new(TermM::Var("k"@)),
                        arg: Box::new(TermM::Var("p"@)),
                    },
                ),
                body: Box::new(TermM::Var("resumed"@)),
            };
            &&& sound_in(t, s.push("p"@).push("k"@))
            &&& k_usage_ok(t, "k"@)
        }),
{
    lemma_resume_body(s);
    reveal_strlit("resumed");
    reveal_strlit("k");
    reveal_strlit("p");
    lemma_in_pushed(s.push("p"@).push("k"@), "resumed"@, "resumed"@);
    assert("resumed"@ != "k"@) by {
        assert("resumed"@.len() != "k"@.len());
    }
    let r = TermM::Resume { kont: Box::new(TermM::Var("k"@)), arg: Box::new(TermM::Var("p"@)) };
    let v = TermM::Var("resumed"@);
    assert(closed_m(v, s.push("p"@).push("k"@).push("resumed"@)));
    assert(obeys_m(v));
    assert(free_count_m(v, "k"@) == 0);
    assert(resume_count_m(v, "k"@) == 0);
}

/// A clause body `v` that never mentions the continuation `k`.
proof fn lemma_var_body(s: Seq<Seq<char>>, v: Seq<char>, k: Seq<char>)
    requires
        v != k,
    ensures
        sound_in(TermM::Var(v), s.push(v).push(k)),
        k_usage_ok(TermM::Var(v), k),
{
    lemma_in_pushed(s, v, v);
    lemma_in_pushed(s.push(v), v, k);
}

impl Builder {
    fn gen_nat(&mut self, env: &mut Vec<(String, Type)>, depth: usize) -> (r: Term)
        requires
            old(self).wf(),
        ensures
            final(self).wf(),
            final(env)@ == old(env)@,
            sound_in(r@, scope_names(old(env)@)),
        decreases depth, 1nat,
    {
        let ghost s = scope_names(env@);
        if depth == 0 {
            return self.gen_nat_base(env);
        }
        let c = self.choices.next_mod(10);
        if c == 0 {
            self.gen_nat_base(env)
        } else if c == 1 {
            let inner = self.gen_nat(env, depth - 1);
            Term::succ(inner)
        } else if c == 2 {
            self.gen_let_nat(env, depth)
        } else if c == 3 {
            self.gen_case_nat(env, depth)
        } else if c == 4 {
            self.gen_lambda_app(env, depth)
        } else if c == 5 {
            let resume = self.choices.next_mod(2) == 0;
            self.gen_handle(depth, resume, false, Ghost(s))
        } else if c == 6 {
            self.gen_handle(depth, true, true, Ghost(s))
        } else if c == 7 {
            self.gen_fix_app(RecursionTag::StructuralDescent, depth, Ghost(s))
        } else if c == 8 {
            self.gen_fix_app(RecursionTag::Measure, depth, Ghost(s))
        } else {
            self.gen_fix_app(RecursionTag::Div, depth, Ghost(s))
        }
    }

    fn gen_let_nat(&mut self, env: &mut Vec<(String, Type)>, depth: usize) -> (r: Term)
        requires
            old(self).wf(),
            depth > 0,
        ensures
            final(self).wf(),
            final(env)@ == old(env)@,
            sound_in(r@, scope_names(old(env)@)),
        decreases depth, 0nat,
    {
        let var = self.fresh_name("n");
        let expr = self.gen_nat(env, depth - 1);
        push_var(env, &var, Type::Nat);
        let body = self.gen_nat(env, depth - 1);
        pop_var(env);
        Term::Let { var, expr: Box::new(expr), body: Box::new(body) }
    }

    fn gen_case_nat(&mut self, env: &mut Vec<(String, Type)>, depth: usize) -> (r: Term)
        requires
            old(self).wf(),
            depth > 0,
        ensures
            final(self).wf(),
            final(env)@ == old(env)@,
            sound_in(r@, scope_names(old(env)@)),
        decreases depth, 0nat,
    {
        let succ_var = self.fresh_name("pred");
        let scrutinee = if self.choices.next_mod(3) == 0 {
            self.gen_nat_base(env)
        } else {
            self.gen_nat(env, depth - 1)
        };
        // Both branches stay terminating, so the derived divergence witness remains a
        // must-diverge fact.
        let zero_body = self.gen_total_nat(env, depth - 1);
        push_var(env, &succ_var, Type::Nat);
        let succ_body = self.gen_total_nat(env, depth - 1);
        pop_var(env);
        Term::CaseNat {
            scrutinee: Box::new(scrutinee),
            zero_body: Box::new(zero_body),
            succ_var,
            succ_body: Box::new(succ_body),
        }
    }

    fn gen_lambda_app(&mut self, env: &mut Vec<(String, Type)>, depth: usize) -> (r: Term)
        requires
            old(self).wf(),
            depth > 0,
        ensures
            final(self).wf(),
            final(env)@ == old(env)@,
            sound_in(r@, scope_names(old(env)@)),
        decreases depth, 0nat,
    {
        let param = self.fresh_name("arg");
        push_var(env, &param, Type::Nat);
        let body = self.gen_nat(env, depth - 1);
        pop_var(env);
        let arg = self.gen_nat(env, depth - 1);
        let lam = Term::Lam { param, param_ty: Type::Nat, body: Box::new(body) };
        assert(sound_in(lam@, scope_names(env@)));
        Term::App(Box::new(lam), Box::new(arg))
    }

    fn gen_total_nat(&mut self, env: &mut Vec<(String, Type)>, depth: usize) -> (r: Term)
        requires
            old(self).wf(),
        ensures
            final(self).wf(),
            final(env)@ == old(env)@,
            sound_in(r@, scope_names(old(env)@)),
        decreases depth,
    {
        let ghost s = scope_names(env@);
        if depth == 0 {
            return self.gen_nat_base(env);
        }
        let c = self.choices.next_mod(8);
        if c == 0 {
            self.gen_nat_base(env)
        } else if c == 1 {
            let inner = self.gen_total_nat(env, depth - 1);
            Term::succ(inner)
        } else if c == 2 {
            let var = self.fresh_name("n");
            let expr = self.gen_total_nat(env, depth - 1);
            push_var(env, &var, Type::Nat);
            let body = self.gen_total_nat(env, depth - 1);
            pop_var(env);
            let t = Term::Let { var, expr: Box::new(expr), body: Box::new(body) };
            assert(sound_in(t@, s));
            t
        } else if c == 3 {
            let succ_var = self.fresh_name("pred");
            let scrutinee = self.gen_total_nat(env, depth - 1);
            let zero_body = self.gen_total_nat(env, depth - 1);
            push_var(env, &succ_var, Type::Nat);
            let succ_body = self.gen_total_nat(env, depth - 1);
            pop_var(env);
            let t = Term::CaseNat {
                scrutinee: Box::new(scrutinee),
                zero_body: Box::new(zero_body),
                succ_var,
                succ_body: Box::new(succ_body),
            };
            assert(sound_in(t@, s));
            t
        } else if c == 4 {
            let param = self.fresh_name("arg");
            push_var(env, &param, Type::Nat);
            let body = self.gen_total_nat(env, depth - 1);
            pop_var(env);
            let arg = self.gen_total_nat(env, depth - 1);
            let lam = Term::Lam { param, param_ty: Type::Nat, body: Box::new(body) };
            assert(sound_in(lam@, s));
            let t = Term::App(Box::new(lam), Box::new(arg));
            assert(sound_in(t@, s));
            t
        } else if c == 5 {
            let resume = self.choices.next_mod(2) == 0;
            self.gen_handle(depth, resume, false, Ghost(s))
        } else if c == 6 {
            self.gen_fix_app(RecursionTag::StructuralDescent, depth, Ghost(s))
        } else {
            self.gen_fix_app(RecursionTag::Measure, depth, Ghost(s))
        }
    }

    fn gen_unit(&mut self, env: &mut Vec<(String, Type)>, depth: usize) -> (r: Term)
        requires
            old(self).wf(),
        ensures
            final(self).wf(),
            final(env)@ == old(env)@,
            sound_in(r@, scope_names(old(env)@)),
        decreases depth,
    {
        if depth == 0 || self.choices.next_mod(3) == 0 {
            let vars = vars_of_type(env, &Type::Unit);
            if vars.len() > 0 {
                assert(scope_names(env@).contains(vars@[0]@));
                return Term::var(vars[0].as_str());
            }
            return Term::unit();
        }
        let var = self.fresh_name("u");
        let expr = self.gen_nat(env, depth - 1);
        push_var(env, &var, Type::Nat);
        let body = self.gen_unit(env, depth - 1);
        pop_var(env);
        Term::Let { var, expr: Box::new(expr), body: Box::new(body) }
    }

    /// A term of type `target`.
    fn gen_term(&mut self, target: &Type, env: &mut Vec<(String, Type)>, depth: usize) -> (r:
        Term)
        requires
            old(self).wf(),
        ensures
            final(self).wf(),
            final(env)@ == old(env)@,
            sound_in(r@, scope_names(old(env)@)),
        decreases target,
    {
        match target {
            Type::Unit => self.gen_unit(env, depth),
            Type::Nat => self.gen_nat(env, depth),
            Type::Array => {
                proof {
                    lemma_numeral(0, scope_names(env@), Seq::empty());
                }
                let a = Term::natural(0);
                let b = Term::natural(0);
                Term::MkArray(Box::new(a), Box::new(b))
            },
            Type::Arrow(arg, ret) => {
                let param = self.fresh_name("x");
                push_var(env, &param, arg.duplicate());
                let next_depth = if depth > 0 {
                    depth - 1
                } else {
                    0
                };
                let body = self.gen_term(ret, env, next_depth);
                pop_var(env);
                let t = Term::Lam { param, param_ty: arg.duplicate(), body: Box::new(body) };
                assert(sound_in(t@, scope_names(env@)));
                t
            },
            Type::Cont(_, _) => {
                let vars = vars_of_type(env, target);
                if vars.len() > 0 {
                    assert(scope_names(env@).contains(vars@[0]@));
                    var_in(vars[0].as_str(), Ghost(scope_names(env@)))
                } else {
                    Term::Cont(ContId(0))
                }
            },
        }
    }

    fn gen_handle(&mut self, depth: usize, resume: bool, nested: bool, Ghost(s): Ghost<
        Seq<Seq<char>>,
    >) -> (r: Term)
        requires
            old(self).wf(),
        ensures
            final(self).wf(),
            sound_in(r@, s),
    {
        let d = if depth > 0 {
            depth - 1
        } else {
            0
        };
        let body = if nested {
            let inner_var = self.fresh_name("inner");
            let inner_body = self.gen_effectful_body(d, Ghost(s));
            let inner_handler = self.gen_handler(true, Ghost(s));
            let inner = Term::Handle { body: Box::new(inner_body), handler: inner_handler };
            assert(sound_in(inner@, s));
            let rest = self.gen_effectful_body(d, Ghost(s.push(inner_var@)));
            let t = Term::Let { var: inner_var, expr: Box::new(inner), body: Box::new(rest) };
            assert(sound_in(t@, s));
            t
        } else {
            self.gen_effectful_body(d, Ghost(s))
        };
        let handler = self.gen_handler(resume, Ghost(s));
        let t = Term::Handle { body: Box::new(body), handler };
        assert(sound_in(t@, s));
        t
    }

    fn gen_effectful_body(&mut self, depth: usize, Ghost(s): Ghost<Seq<Seq<char>>>) -> (r: Term)
        requires
            old(self).wf(),
        ensures
            final(self).wf(),
            sound_in(r@, s),
    {
        let arg = self.gen_pure_nat(2);
        proof {
            let n = choose|n: nat| n <= 5 && arg@ == nat_m(n);
            lemma_numeral(n, s, Seq::empty());
        }
        let perform = Term::Perform(Label::L(), Box::new(arg));
        let layers = 1 + self.choices.next_mod(3) as usize;
        self.wrap_effectful_context(perform, depth, layers, Ghost(s))
    }

    fn wrap_effectful_context(
        &mut self,
        inner: Term,
        depth: usize,
        layers: usize,
        Ghost(s): Ghost<Seq<Seq<char>>>,
    ) -> (r: Term)
        requires
            old(self).wf(),
            sound_in(inner@, s),
        ensures
            final(self).wf(),
            sound_in(r@, s),
        decreases layers,
    {
        if layers == 0 || depth == 0 {
            return inner;
        }
        let c = self.choices.next_mod(4);
        let wrapped = if c == 0 {
            let var = self.fresh_name("cap");
            proof {
                lemma_in_pushed(s, var@, var@);
            }
            let body = var_in(var.as_str(), Ghost(s.push(var@)));
            let t = Term::Let { var, expr: Box::new(inner), body: Box::new(body) };
            assert(sound_in(t@, s));
            t
        } else if c == 1 {
            proof {
                lemma_in_pushed(s, "z"@, "z"@);
            }
            let z = var_in("z", Ghost(s.push("z"@)));
            let lam = Term::Lam { param: owned("z"), param_ty: Type::Nat, body: Box::new(z) };
            assert(sound_in(lam@, s));
            let t = Term::App(Box::new(lam), Box::new(inner));
            assert(sound_in(t@, s));
            t
        } else if c == 2 {
            proof {
                lemma_in_pushed(s, "case_pred"@, "case_pred"@);
            }
            let pred = var_in("case_pred", Ghost(s.push("case_pred"@)));
            let t = Term::CaseNat {
                scrutinee: Box::new(inner),
                zero_body: Box::new(zero_term(Ghost(s))),
                succ_var: owned("case_pred"),
                succ_body: Box::new(pred),
            };
            assert(sound_in(t@, s));
            t
        } else {
            Term::succ(inner)
        };
        self.wrap_effectful_context(wrapped, depth - 1, layers - 1, Ghost(s))
    }

    /// The body of a clause for `L`: `resume k p` (possibly through a `let`), or `p`,
    /// which drops the continuation.
    fn gen_clause_body(&mut self, resume: bool, Ghost(s): Ghost<Seq<Seq<char>>>) -> (r: Term)
        requires
            old(self).wf(),
        ensures
            final(self).wf(),
            sound_in(r@, s.push("p"@).push("k"@)),
            k_usage_ok(r@, "k"@),
    {
        proof {
            lemma_resume_body(s);
            lemma_let_resume_body(s);
            reveal_strlit("p");
            reveal_strlit("k");
            lemma_var_body(s, "p"@, "k"@);
        }
        if resume {
            let kont = Term::var("k");
            let arg = Term::var("p");
            let resume_term = Term::Resume { kont: Box::new(kont), arg: Box::new(arg) };
            assert(resume_term@ == TermM::Resume {
                kont: Box::new(TermM::Var("k"@)),
                arg: Box::new(TermM::Var("p"@)),
            });
            if self.choices.next_mod(2) == 0 {
                resume_term
            } else {
                let body = Term::var("resumed");
                let t = Term::Let {
                    var: owned("resumed"),
                    expr: Box::new(resume_term),
                    body: Box::new(body),
                };
                assert(t@ == TermM::Let {
                    var: "resumed"@,
                    expr: Box::new(
                        TermM::Resume {
                            kont: Box::new(TermM::Var("k"@)),
                            arg: Box::new(TermM::Var("p"@)),
                        },
                    ),
                    body: Box::new(TermM::Var("resumed"@)),
                });
                t
            }
        } else {
            Term::var("p")
        }
    }

    /// A handler for `L` whose clause resumes its continuation once, or drops it.
    fn gen_handler(&mut self, resume: bool, Ghost(s): Ghost<Seq<Seq<char>>>) -> (r: Handler)
        requires
            old(self).wf(),
        ensures
            final(self).wf(),
            handler_sound_in(r@, s),
    {
        let op_body = self.gen_clause_body(resume, Ghost(s));
        single_clause_handler(Label::L(), "p", "k", op_body, Ghost(s))
    }

    fn gen_fix_app(&mut self, tag: RecursionTag, depth: usize, Ghost(s): Ghost<
        Seq<Seq<char>>,
    >) -> (r: Term)
        requires
            old(self).wf(),
        ensures
            final(self).wf(),
            sound_in(r@, s),
    {
        let func = self.fresh_name("f");
        let param = self.fresh_name("x");
        let ghost inner = s.push(func@).push(param@);
        proof {
            lemma_in_pushed(s.push(func@), func@, param@);
            lemma_in_pushed(s, func@, func@);
        }
        let body = match tag {
            RecursionTag::StructuralDescent => self.structural_fix_body(
                &func,
                &param,
                depth,
                Ghost(inner),
            ),
            RecursionTag::Measure => self.measure_fix_body(&func, &param, Ghost(inner)),
            RecursionTag::Div => Term::App(
                Box::new(var_in(func.as_str(), Ghost(inner))),
                Box::new(var_in(param.as_str(), Ghost(inner))),
            ),
        };
        assert(sound_in(body@, inner));
        let is_div = match tag {
            RecursionTag::Div => true,
            _ => false,
        };
        let fix = Term::Fix { func, param, param_ty: Type::Nat, body: Box::new(body), tag };
        assert(sound_in(fix@, s));
        let arg_size: u64 = if is_div {
            0
        } else {
            3
        };
        let arg = Term::natural(arg_size);
        proof {
            lemma_numeral(arg_size as nat, s, Seq::empty());
        }
        Term::App(Box::new(fix), Box::new(arg))
    }

    fn structural_fix_body(
        &mut self,
        func: &String,
        param: &String,
        depth: usize,
        Ghost(s): Ghost<Seq<Seq<char>>>,
    ) -> (r: Term)
        requires
            old(self).wf(),
            s.contains(func@),
            s.contains(param@),
        ensures
            final(self).wf(),
            sound_in(r@, s),
    {
        let pred = self.fresh_name("pred");
        proof {
            lemma_in_pushed(s, func@, pred@);
        }
        let callee = var_in(func.as_str(), Ghost(s.push(pred@)));
        let arg = var_in(pred.as_str(), Ghost(s.push(pred@)));
        let rec_call = Term::App(Box::new(callee), Box::new(arg));
        assert(sound_in(rec_call@, s.push(pred@)));
        let succ_body = if depth > 1 && self.choices.next_mod(2) == 0 {
            let tmp = self.fresh_name("r");
            proof {
                lemma_in_pushed(s.push(pred@), tmp@, tmp@);
            }
            let body = var_in(tmp.as_str(), Ghost(s.push(pred@).push(tmp@)));
            let t = Term::Let { var: tmp, expr: Box::new(rec_call), body: Box::new(body) };
            assert(sound_in(t@, s.push(pred@)));
            t
        } else {
            rec_call
        };
        let scrutinee = var_in(param.as_str(), Ghost(s));
        let t = Term::CaseNat {
            scrutinee: Box::new(scrutinee),
            zero_body: Box::new(zero_term(Ghost(s))),
            succ_var: pred,
            succ_body: Box::new(succ_body),
        };
        assert(sound_in(t@, s));
        t
    }

    fn measure_fix_body(&mut self, func: &String, param: &String, Ghost(s): Ghost<
        Seq<Seq<char>>,
    >) -> (r: Term)
        requires
            old(self).wf(),
            s.contains(func@),
            s.contains(param@),
        ensures
            final(self).wf(),
            sound_in(r@, s),
    {
        let pred = self.fresh_name("ignored");
        proof {
            lemma_in_pushed(s, func@, pred@);
        }
        let callee = var_in(func.as_str(), Ghost(s.push(pred@)));
        let zero = zero_term(Ghost(s.push(pred@)));
        assert(sound_in(zero@, s.push(pred@)));
        let call = Term::App(Box::new(callee), Box::new(zero));
        assert(sound_in(call@, s.push(pred@)));
        let scrutinee = var_in(param.as_str(), Ghost(s));
        let t = Term::CaseNat {
            scrutinee: Box::new(scrutinee),
            zero_body: Box::new(zero_term(Ghost(s))),
            succ_var: pred,
            succ_body: Box::new(call),
        };
        assert(sound_in(t@, s));
        t
    }
}


impl Builder {
    /// A two-field record `{ buf = [value], len = len }` lowered to an array.
    fn record_with_buffer(value: u64, len: u64, Ghost(s): Ghost<Seq<Seq<char>>>) -> (r:
        Term)
        ensures
            sound_in(r@, s),
    {
        let buf = mk_in(nat_in(1, Ghost(s)), nat_in(value, Ghost(s)), Ghost(s));
        let empty_record = mk_in(nat_in(2, Ghost(s)), zero_term(Ghost(s)), Ghost(s));
        let with_buf = set_in(empty_record, zero_term(Ghost(s)), buf, Ghost(s));
        mark_in(
            CoverageTag::RecordAggregate,
            set_in(with_buf, nat_in(1, Ghost(s)), nat_in(len, Ghost(s)), Ghost(s)),
            Ghost(s),
        )
    }

    /// Record literal, then a read through its buffer field.
    fn gen_record_construct_peek(Ghost(s): Ghost<Seq<Seq<char>>>) -> (r: Term)
        ensures
            sound_in(r@, s),
    {
        let record = Builder::record_with_buffer(5, 1, Ghost(s));
        let ghost inner = s.push("record"@);
        let field = get_in(bound_var("record", Ghost(s)), zero_term(Ghost(inner)), Ghost(inner));
        let peek = mark_in(
            CoverageTag::DestructureConsume,
            get_in(field, zero_term(Ghost(inner)), Ghost(inner)),
            Ghost(inner),
        );
        let_in("record", record, peek, Ghost(s))
    }

    /// Functional record update, which copies.
    fn gen_record_functional_update(Ghost(s): Ghost<Seq<Seq<char>>>) -> (r: Term)
        ensures
            sound_in(r@, s),
    {
        let record = Builder::record_with_buffer(0, 1, Ghost(s));
        let ghost s1 = s.push("record"@);
        let ghost s2 = s1.push("updated"@);
        let update = mark_in(
            CoverageTag::RecordFunctionalUpdate,
            set_in(bound_var("record", Ghost(s)), nat_in(1, Ghost(s1)), nat_in(3, Ghost(s1)), Ghost(s1)),
            Ghost(s1),
        );
        let read = get_in(bound_var("updated", Ghost(s1)), nat_in(1, Ghost(s2)), Ghost(s2));
        let_in("record", record, let_in("updated", update, read, Ghost(s1)), Ghost(s))
    }

    /// In-place record update, the licensed destructive form.
    fn gen_record_inplace_update(Ghost(s): Ghost<Seq<Seq<char>>>) -> (r: Term)
        ensures
            sound_in(r@, s),
    {
        let record = Builder::record_with_buffer(0, 1, Ghost(s));
        let ghost s1 = s.push("record"@);
        let ghost s2 = s1.push("updated"@);
        let write = set_in(
            bound_var("record", Ghost(s)),
            nat_in(1, Ghost(s1)),
            nat_in(4, Ghost(s1)),
            Ghost(s1),
        );
        let update = mark_in(
            CoverageTag::RecordInplaceUpdate,
            inplace_in(write, Ghost(s1)),
            Ghost(s1),
        );
        let read = get_in(bound_var("updated", Ghost(s1)), nat_in(1, Ghost(s2)), Ghost(s2));
        let_in("record", record, let_in("updated", update, read, Ghost(s1)), Ghost(s))
    }

    /// A field load out of a record followed by an in-place write to the loaded buffer.
    fn gen_destructure_consume_chain(Ghost(s): Ghost<Seq<Seq<char>>>) -> (r: Term)
        ensures
            sound_in(r@, s),
    {
        let record = Builder::record_with_buffer(0, 1, Ghost(s));
        let ghost s1 = s.push("record"@);
        let ghost s2 = s1.push("buf"@);
        let ghost s3 = s2.push("touched"@);
        let load = mark_in(
            CoverageTag::DestructureConsume,
            get_in(bound_var("record", Ghost(s)), zero_term(Ghost(s1)), Ghost(s1)),
            Ghost(s1),
        );
        let touch = inplace_in(
            set_in(bound_var("buf", Ghost(s1)), zero_term(Ghost(s2)), nat_in(9, Ghost(s2)), Ghost(s2)),
            Ghost(s2),
        );
        let read = get_in(bound_var("touched", Ghost(s2)), zero_term(Ghost(s3)), Ghost(s3));
        let_in(
            "record",
            record,
            let_in("buf", load, let_in("touched", touch, read, Ghost(s2)), Ghost(s1)),
            Ghost(s),
        )
    }

    /// An array, an in-place write to it, and a read of the frozen result.
    fn gen_array_inplace(Ghost(s): Ghost<Seq<Seq<char>>>) -> (r: Term)
        ensures
            sound_in(r@, s),
    {
        let ghost s1 = s.push("a"@);
        let ghost s2 = s1.push("b"@);
        let array = mk_in(nat_in(2, Ghost(s)), nat_in(0, Ghost(s)), Ghost(s));
        let write = inplace_in(
            set_in(bound_var("a", Ghost(s)), nat_in(1, Ghost(s1)), nat_in(7, Ghost(s1)), Ghost(s1)),
            Ghost(s1),
        );
        let frozen = Term::Freeze(Box::new(bound_var("b", Ghost(s1))));
        let read = get_in(frozen, nat_in(1, Ghost(s2)), Ghost(s2));
        let_in("a", array, let_in("b", write, read, Ghost(s1)), Ghost(s))
    }

    /// The empty list, lowered to a tagged array.
    fn list_nil(Ghost(s): Ghost<Seq<Seq<char>>>) -> (r: Term)
        ensures
            sound_in(r@, s),
    {
        mark_in(
            CoverageTag::VariantAggregate,
            mk_in(nat_in(3, Ghost(s)), zero_term(Ghost(s)), Ghost(s)),
            Ghost(s),
        )
    }

    /// `head :: tail`, lowered to a tagged array.
    fn list_cons(head: u64, tail: Term, Ghost(s): Ghost<Seq<Seq<char>>>) -> (r: Term)
        requires
            sound_in(tail@, s),
        ensures
            sound_in(r@, s),
    {
        let base = mk_in(nat_in(3, Ghost(s)), zero_term(Ghost(s)), Ghost(s));
        let with_tag = set_in(base, zero_term(Ghost(s)), nat_in(1, Ghost(s)), Ghost(s));
        let with_head = set_in(with_tag, nat_in(1, Ghost(s)), nat_in(head, Ghost(s)), Ghost(s));
        mark_in(
            CoverageTag::VariantAggregate,
            set_in(with_head, nat_in(2, Ghost(s)), tail, Ghost(s)),
            Ghost(s),
        )
    }

    /// A structural fold over a two-element list that recurses on the tail payload.
    fn gen_variant_structural_fold(&mut self, Ghost(s): Ghost<Seq<Seq<char>>>) -> (r: Term)
        requires
            old(self).wf(),
        ensures
            final(self).wf(),
            sound_in(r@, s),
    {
        let sum = self.fresh_name("sum");
        let xs = self.fresh_name("xs");
        let is_cons = self.fresh_name("is_cons");
        let tail = self.fresh_name("tail");
        let ghost s1 = s.push(sum@).push(xs@);
        let ghost s2 = s1.push(is_cons@);
        let ghost s3 = s2.push(tail@);
        proof {
            lemma_in_pushed(s, sum@, sum@);
            lemma_in_pushed(s.push(sum@), sum@, xs@);
            lemma_in_pushed(s.push(sum@), xs@, xs@);
            lemma_in_pushed(s1, xs@, is_cons@);
            lemma_in_pushed(s1, sum@, is_cons@);
            lemma_in_pushed(s2, sum@, tail@);
            lemma_in_pushed(s2, tail@, tail@);
        }
        let scrutinee = get_in(var_in(xs.as_str(), Ghost(s1)), zero_term(Ghost(s1)), Ghost(s1));
        let payload = mark_in(
            CoverageTag::ConstructorPatternDescent,
            get_in(var_in(xs.as_str(), Ghost(s2)), nat_in(2, Ghost(s2)), Ghost(s2)),
            Ghost(s2),
        );
        let call = Term::App(
            Box::new(var_in(sum.as_str(), Ghost(s3))),
            Box::new(var_in(tail.as_str(), Ghost(s3))),
        );
        assert(sound_in(call@, s3));
        let succ_body = let_in(tail.as_str(), payload, Term::succ(call), Ghost(s2));
        let body = Term::CaseNat {
            scrutinee: Box::new(scrutinee),
            zero_body: Box::new(zero_term(Ghost(s1))),
            succ_var: is_cons,
            succ_body: Box::new(succ_body),
        };
        assert(sound_in(body@, s1));
        let nil = Builder::list_nil(Ghost(s));
        let rest = Builder::list_cons(2, nil, Ghost(s));
        let list = Builder::list_cons(1, rest, Ghost(s));
        let fix = Term::Fix {
            func: sum,
            param: xs,
            param_ty: Type::Array,
            body: Box::new(body),
            tag: RecursionTag::StructuralDescent,
        };
        assert(sound_in(fix@, s));
        Term::App(Box::new(fix), Box::new(list))
    }

    /// A handler for `A` under a handler for `B`, with a body that performs `B`.
    fn gen_multi_label_transparent(&mut self, Ghost(s): Ghost<Seq<Seq<char>>>) -> (r: Term)
        requires
            old(self).wf(),
        ensures
            final(self).wf(),
            sound_in(r@, s),
    {
        let label_a = Label::intern("A");
        let label_b = Label::intern("B");
        let inner = single_clause_handler(label_a, "p", "k", resume_k_p(Ghost(s)), Ghost(s));
        let eight = nat_in(8, Ghost(s.push("p"@).push("_k"@)));
        proof {
            lemma_numeral(8, s, "_k"@);
        }
        let outer = single_clause_handler(label_b, "p", "_k", eight, Ghost(s));
        let arg = self.gen_pure_nat(1);
        proof {
            let n = choose|n: nat| n <= 5 && arg@ == nat_m(n);
            lemma_numeral(n, s, Seq::empty());
        }
        let perform = Term::Perform(label_b, Box::new(arg));
        assert(sound_in(perform@, s));
        let handled = Term::Handle { body: Box::new(perform), handler: inner };
        assert(sound_in(handled@, s));
        let t = Term::Handle { body: Box::new(handled), handler: outer };
        assert(sound_in(t@, s));
        t
    }

    /// One handler with clauses for both `A` and `B`.
    fn gen_multi_label_clause_set(&mut self, Ghost(s): Ghost<Seq<Seq<char>>>) -> (r: Term)
        requires
            old(self).wf(),
        ensures
            final(self).wf(),
            sound_in(r@, s),
    {
        let label_a = Label::intern("A");
        let label_b = Label::intern("B");
        let arg = self.gen_pure_nat(2);
        proof {
            let n = choose|n: nat| n <= 5 && arg@ == nat_m(n);
            lemma_numeral(n, s, Seq::empty());
        }
        let perform = Term::Perform(label_a, Box::new(arg));
        assert(sound_in(perform@, s));
        let handler = clause_set_handler(label_a, label_b, Ghost(s));
        let t = Term::Handle { body: Box::new(perform), handler };
        assert(sound_in(t@, s));
        t
    }

    /// `even`/`odd` as one recursive group, applied to four.
    fn gen_fix_group(&mut self, tag: RecursionTag, Ghost(s): Ghost<Seq<Seq<char>>>) -> (r: Term)
        requires
            old(self).wf(),
        ensures
            final(self).wf(),
            sound_in(r@, s),
    {
        let even = self.fresh_name("even");
        let odd = self.fresh_name("odd");
        let n_even = self.fresh_name("n");
        let n_odd = self.fresh_name("n");
        let p_even = self.fresh_name("p");
        let p_odd = self.fresh_name("p");
        let group = parity_group(even, odd, n_even, n_odd, p_even, p_odd, tag, Ghost(s));
        let t = Term::App(Box::new(group), Box::new(nat_in(4, Ghost(s))));
        assert(sound_in(t@, s));
        t
    }
}


// ---------------------------------------------------------------------------------------
// Generated cases.
/// An input to the generator: its choice bytes.
#[derive(Debug, Clone, PartialEq, Eq)]
pub struct GenInput {
    pub choices: Vec<u8>,
}

impl GenInput {
    /// The input with `choices`, or with the single byte zero where `choices` is empty.
    pub fn new(choices: Vec<u8>) -> (r: Self)
        ensures
            r.choices@ == (if choices@.len() == 0 {
                seq![0u8]
            } else {
                choices@
            }),
    {
        let choices = if choices.len() == 0 {
            vec![0u8]
        } else {
            choices
        };
        Self { choices }
    }
}

/// The byte that selects the case: the first choice, or zero where there is none.
pub open spec fn first_choice(c: Seq<u8>) -> u8 {
    if c.len() == 0 {
        0
    } else {
        c[0]
    }
}

/// The name of the case that the selector byte `b` generates. The bytes from 250 on force
/// the aggregate cases; the others select by their residue modulo 17.
pub open spec fn case_name(b: u8) -> Seq<char> {
    if b == 250 {
        "record_construct_peek"@
    } else if b == 251 {
        "record_functional_update"@
    } else if b == 252 {
        "record_inplace_update"@
    } else if b == 253 {
        "destructure_consume_chain"@
    } else if b == 254 {
        "array_inplace"@
    } else if b == 255 {
        "variant_structural_fold"@
    } else {
        let t = b % 17;
        if t == 0 {
            "unit"@
        } else if t == 1 {
            "nat"@
        } else if t == 2 {
            "lambda_app"@
        } else if t == 3 {
            "let"@
        } else if t == 4 {
            "case"@
        } else if t == 5 {
            "structural_fix"@
        } else if t == 6 {
            "measure_fix"@
        } else if t == 7 {
            "div_fix"@
        } else if t == 8 {
            "handle_resuming"@
        } else if t == 9 {
            "handle_dropped"@
        } else if t == 10 {
            "nested_handle"@
        } else if t == 11 {
            "multi_label_transparent"@
        } else if t == 12 {
            "multi_label_clause_set"@
        } else if t == 13 {
            "fix_group_measure"@
        } else {
            "negative_unhandled_perform"@
        }
    }
}

/// The outcome expected of the case that `b` selects: only the negative case performs an
/// operation that nothing handles.
pub open spec fn case_expected(b: u8) -> ExpectedOutcome {
    if b < 250 && b % 17 >= 14 {
        ExpectedOutcome::UnhandledOperation
    } else {
        ExpectedOutcome::Safe
    }
}

/// What holds of every term generated for the selector byte `b`: it is closed, obeys the
/// continuation discipline, carries the witness and facts derived from it, and has the
/// name and expected outcome of its case; the negative case performs `L` on a numeral.
pub open spec fn generated_ok(r: GeneratedTerm, b: u8) -> bool {
    &&& closed_m(r.term@, Seq::empty())
    &&& obeys_m(r.term@)
    &&& r.witness@ == derive_m(r.term@, empty_env())
    &&& r.facts == facts_m(r.term@)
    &&& r.name@ == case_name(b)
    &&& r.expected == case_expected(b)
    &&& (r.expected == ExpectedOutcome::UnhandledOperation ==> exists|n: nat|
        n <= 2 && r.term@ == TermM::Perform("L"@, Box::new(nat_m(n))))
}

fn build(name: &'static str, term: Term, expected: ExpectedOutcome) -> (r: GeneratedTerm)
    ensures
        r.term@ == term@,
        r.name == name,
        r.expected == expected,
        r.witness@ == derive_m(term@, empty_env()),
        r.facts == facts_m(term@),
{
    let witness = derive_witness(&term);
    let facts = analyze_facts(&term);
    GeneratedTerm { term, witness, name, expected, facts }
}

/// The aggregate case forced by a selector byte from 250 on; the bytes after it drive the
/// builder.
fn generated_aggregate(first: u8, rest: Vec<u8>) -> (r: GeneratedTerm)
    requires
        first >= 250,
    ensures
        generated_ok(r, first),
{
    let ghost e = Seq::<Seq<char>>::empty();
    let mut builder = Builder::new(ChoiceStream::new(rest));
    if first == 250 {
        build("record_construct_peek", Builder::gen_record_construct_peek(Ghost(e)), ExpectedOutcome::Safe)
    } else if first == 251 {
        build(
            "record_functional_update",
            Builder::gen_record_functional_update(Ghost(e)),
            ExpectedOutcome::Safe,
        )
    } else if first == 252 {
        build("record_inplace_update", Builder::gen_record_inplace_update(Ghost(e)), ExpectedOutcome::Safe)
    } else if first == 253 {
        build(
            "destructure_consume_chain",
            Builder::gen_destructure_consume_chain(Ghost(e)),
            ExpectedOutcome::Safe,
        )
    } else if first == 254 {
        build("array_inplace", Builder::gen_array_inplace(Ghost(e)), ExpectedOutcome::Safe)
    } else {
        build(
            "variant_structural_fold",
            builder.gen_variant_structural_fold(Ghost(e)),
            ExpectedOutcome::Safe,
        )
    }
}

/// The case that the choice bytes select, built from them.
pub fn generated_from_choices(choices: Vec<u8>) -> (r: GeneratedTerm)
    ensures
        generated_ok(r, first_choice(choices@)),
{
    if choices.len() > 0 && choices[0] >= 250 {
        let first = choices[0];
        let mut rest: Vec<u8> = Vec::new();
        let mut i: usize = 1;
        while i < choices.len()
            invariant
                1 <= i <= choices@.len(),
            decreases choices@.len() - i,
        {
            rest.push(choices[i]);
            i += 1;
        }
        return generated_aggregate(first, rest);
    }
    let ghost b = first_choice(choices@);
    let ghost e = Seq::<Seq<char>>::empty();
    let mut builder = Builder::new(ChoiceStream::new(choices));
    let top = builder.choices.next_mod(17);
    assert(top == b % 17);
    let mut env: Vec<(String, Type)> = Vec::new();
    assert(scope_names(env@) =~= e);
    if top == 0 {
        build("unit", builder.gen_term(&Type::Unit, &mut env, MAX_DEPTH), ExpectedOutcome::Safe)
    } else if top == 1 {
        build("nat", builder.gen_term(&Type::Nat, &mut env, MAX_DEPTH), ExpectedOutcome::Safe)
    } else if top == 2 {
        build("lambda_app", builder.gen_lambda_app(&mut env, MAX_DEPTH), ExpectedOutcome::Safe)
    } else if top == 3 {
        build("let", builder.gen_let_nat(&mut env, MAX_DEPTH), ExpectedOutcome::Safe)
    } else if top == 4 {
        build("case", builder.gen_case_nat(&mut env, MAX_DEPTH), ExpectedOutcome::Safe)
    } else if top == 5 {
        build(
            "structural_fix",
            builder.gen_fix_app(RecursionTag::StructuralDescent, MAX_DEPTH, Ghost(e)),
            ExpectedOutcome::Safe,
        )
    } else if top == 6 {
        build(
            "measure_fix",
            builder.gen_fix_app(RecursionTag::Measure, MAX_DEPTH, Ghost(e)),
            ExpectedOutcome::Safe,
        )
    } else if top == 7 {
        build("div_fix", builder.gen_fix_app(RecursionTag::Div, MAX_DEPTH, Ghost(e)), ExpectedOutcome::Safe)
    } else if top == 8 {
        build("handle_resuming", builder.gen_handle(MAX_DEPTH, true, false, Ghost(e)), ExpectedOutcome::Safe)
    } else if top == 9 {
        build("handle_dropped", builder.gen_handle(MAX_DEPTH, false, false, Ghost(e)), ExpectedOutcome::Safe)
    } else if top == 10 {
        build("nested_handle", builder.gen_handle(MAX_DEPTH, true, true, Ghost(e)), ExpectedOutcome::Safe)
    } else if top == 11 {
        build(
            "multi_label_transparent",
            builder.gen_multi_label_transparent(Ghost(e)),
            ExpectedOutcome::Safe,
        )
    } else if top == 12 {
        build(
            "multi_label_clause_set",
            builder.gen_multi_label_clause_set(Ghost(e)),
            ExpectedOutcome::Safe,
        )
    } else if top == 13 {
        build(
            "fix_group_measure",
            builder.gen_fix_group(RecursionTag::Measure, Ghost(e)),
            ExpectedOutcome::Safe,
        )
    } else {
        // Every other selector value selects the negative case: an operation performed
        // outside any handler.
        let arg = builder.gen_pure_nat(2);
        proof {
            let n = choose|n: nat| n <= 5 && n <= 2 && arg@ == nat_m(n);
            lemma_numeral(n, e, Seq::empty());
        }
        let term = Term::Perform(Label::L(), Box::new(arg));
        build("negative_unhandled_perform", term, ExpectedOutcome::UnhandledOperation)
    }
}

/// The case selected by `selector`, with two further bytes derived from it.
pub fn generated_case(selector: u8) -> (r: GeneratedTerm)
    ensures
        generated_ok(r, selector),
{
    generated_from_choices(vec![selector, selector.wrapping_mul(17), selector.wrapping_add(91)])
}

/// The case that `input` selects.
pub fn generated_from_input(input: GenInput) -> (r: GeneratedTerm)
    ensures
        generated_ok(r, first_choice(input.choices@)),
{
    generated_from_choices(input.choices)
}

} // verus!
