//! The lowering rules, executed.

use vstd::prelude::*;

use crate::core_ast::{
    clause_view, clauses_view, lemma_clauses_view, nat_m, ContId, Handler, HandlerM, OpClause,
    OpClauseM, Term, TermM, Type,
};
use crate::elaborate::error::{ElabErrM, ElaborateError};
use crate::elaborate::lower::{
    join_ops, lemma_ops_seq_cons, no_ops, op_ops, ops_arms_m, ops_bindings_m, ops_m,
    ops_op_clauses_m, ops_seq_m, OpsM,
    binder_m, binding_sizes_m, builtin_arity, clause_body_m, clause_sizes_m, has_op_clause_m,
    is_builtin, last_return_m, lemma_arm_sizes_elem, lemma_binding_sizes_elem,
    lemma_clause_sizes_elem, lemma_last_return, lemma_size_pos, lemma_sizes_concat,
    lemma_sizes_elem, lemma_sizes_one, op_clause_m, lower_apps_m, lower_bindings_m, lower_builtin_m,
    lower_call_m, lower_m, lower_op_clauses_m, lower_type_m, size_m, sizes_m, with_cont_m,
    with_var_m, wrap_lets_m, LEnvM,
};
use crate::grade::Label;
use crate::surface::ast::{
    BinaryOp, Binding, CaseArm, Expr, ExprKind, HandleClause, Pattern, PrefixOp, Span, TypeExpr,
};
use crate::text::{chars_lt, lemma_chars_lt_irrefl, lemma_chars_lt_trans_not, text_lt, chars_of, decimal, decimal_m, owned, push, str_eq};

verus! {

broadcast use vstd::std_specs::vec::group_vec_axioms, vstd::seq::group_seq_axioms;

/// The core type of a surface type.
pub fn lower_type(ty: &TypeExpr) -> (r: Result<Type, ElaborateError>)
    ensures
        r == Ok::<Type, ElaborateError>(lower_type_m(*ty)),
    decreases ty,
{
    match ty {
        TypeExpr::Unit(_) => Ok(Type::Unit),
        TypeExpr::Nat(_) => Ok(Type::Nat),
        TypeExpr::Array(_) => Ok(Type::Array),
        TypeExpr::Unique(inner, _) => lower_type(inner),
        TypeExpr::Arrow(a, b, _) => {
            let a = lower_type(a)?;
            let b = lower_type(b)?;
            Ok(Type::Arrow(Box::new(a), Box::new(b)))
        },
    }
}

/// The name a handler-clause pattern binds; `_` binds `fallback`.
pub fn pattern_binder(pattern: &Pattern, fallback: &str) -> (r: Result<String, ElaborateError>)
    ensures
        match binder_m(*pattern, fallback@) {
            Ok(n) => r matches Ok(s) && s@ == n,
            Err(x) => r matches Err(y) && y@ == x,
        },
{
    match pattern {
        Pattern::Bind(name) => Ok(owned(name.node.as_str())),
        Pattern::Wildcard(_) => Ok(owned(fallback)),
        Pattern::Zero(span) => Err(ElaborateError::new(*span, "operation clause binders must be names or `_`")),
    }
}

// ---------------------------------------------------------------------------------------
// Scopes.
/// The names in scope while lowering.
pub struct LEnv {
    vars: Vec<String>,
    conts: Vec<String>,
}

pub open spec fn name_set(v: Seq<String>) -> Set<Seq<char>> {
    Set::new(|n: Seq<char>| exists|i: int| 0 <= i < v.len() && #[trigger] v[i]@ == n)
}

impl View for LEnv {
    type V = LEnvM;

    closed spec fn view(&self) -> LEnvM {
        LEnvM { vars: name_set(self.vars@), conts: name_set(self.conts@) }
    }
}

fn contains_name(v: &Vec<String>, name: &str) -> (r: bool)
    ensures
        r == name_set(v@).contains(name@),
{
    let mut i: usize = 0;
    while i < v.len()
        invariant
            i <= v@.len(),
            forall|j: int| 0 <= j < i ==> v@[j]@ != name@,
        decreases v@.len() - i,
    {
        if str_eq(v[i].as_str(), name) {
            assert(v@[i as int]@ == name@);
            return true;
        }
        i += 1;
    }
    false
}

fn copy_names(v: &Vec<String>) -> (r: Vec<String>)
    ensures
        name_set(r@) == name_set(v@),
{
    let mut out: Vec<String> = Vec::new();
    let mut i: usize = 0;
    while i < v.len()
        invariant
            i <= v@.len(),
            out@.len() == i,
            forall|j: int| 0 <= j < i ==> #[trigger] out@[j]@ == v@[j]@,
        decreases v@.len() - i,
    {
        out.push(owned(v[i].as_str()));
        i += 1;
    }
    assert(name_set(out@) =~= name_set(v@)) by {
        assert forall|n: Seq<char>| name_set(v@).contains(n) implies name_set(out@).contains(n) by {
            let j = choose|j: int| 0 <= j < v@.len() && #[trigger] v@[j]@ == n;
            assert(out@[j]@ == n);
        }
    }
    out
}

fn push_name(v: &mut Vec<String>, name: &str)
    ensures
        name_set(final(v)@) == name_set(old(v)@).insert(name@),
{
    v.push(owned(name));
    assert(name_set(v@) =~= name_set(old(v)@).insert(name@)) by {
        assert forall|n: Seq<char>| name_set(old(v)@).contains(n) implies name_set(v@).contains(n) by {
            let j = choose|j: int| 0 <= j < old(v)@.len() && #[trigger] old(v)@[j]@ == n;
            assert(v@[j]@ == n);
        }
        assert(v@[v@.len() - 1]@ == name@);
        assert forall|n: Seq<char>| name_set(v@).contains(n) implies name_set(old(v)@).insert(
            name@,
        ).contains(n) by {
            let j = choose|j: int| 0 <= j < v@.len() && #[trigger] v@[j]@ == n;
            if j < old(v)@.len() {
                assert(old(v)@[j]@ == n);
            }
        }
    }
}

impl LEnv {
    pub fn new() -> (r: Self)
        ensures
            r@ == (LEnvM { vars: Set::empty(), conts: Set::empty() }),
    {
        let r = LEnv { vars: Vec::new(), conts: Vec::new() };
        assert(name_set(r.vars@) =~= Set::<Seq<char>>::empty());
        assert(name_set(r.conts@) =~= Set::<Seq<char>>::empty());
        r
    }

    pub fn duplicate(&self) -> (r: Self)
        ensures
            r@ == self@,
    {
        LEnv { vars: copy_names(&self.vars), conts: copy_names(&self.conts) }
    }

    pub fn has_var(&self, name: &str) -> (r: bool)
        ensures
            r == self@.vars.contains(name@),
    {
        contains_name(&self.vars, name)
    }

    pub fn has_cont(&self, name: &str) -> (r: bool)
        ensures
            r == self@.conts.contains(name@),
    {
        contains_name(&self.conts, name)
    }

    pub fn add_var(&mut self, name: &str)
        ensures
            final(self)@ == with_var_m(old(self)@, name@),
    {
        push_name(&mut self.vars, name);
    }

    pub fn add_cont(&mut self, name: &str)
        ensures
            final(self)@ == with_cont_m(old(self)@, name@),
    {
        push_name(&mut self.vars, name);
        push_name(&mut self.conts, name);
    }
}


// ---------------------------------------------------------------------------------------
// Source spans of lowered terms.
/// For each lowered term (by its concrete syntax), the span of the first surface
/// expression that lowered to it; for each variable, the spans of its uses.
#[derive(Debug, Clone, PartialEq, Eq, Default)]
pub struct SpanTable {
    term_spans: Vec<(String, Span)>,
    var_spans: Vec<(String, Vec<Span>)>,
}

/// Model of a span table.
pub struct SpanTableM {
    pub terms: Seq<(Seq<char>, Span)>,
    pub vars: Seq<(Seq<char>, Seq<Span>)>,
}

impl View for SpanTable {
    type V = SpanTableM;

    closed spec fn view(&self) -> SpanTableM {
        SpanTableM {
            terms: self.term_spans@.map_values(|p: (String, Span)| (p.0@, p.1)),
            vars: self.var_spans@.map_values(|p: (String, Vec<Span>)| (p.0@, p.1@)),
        }
    }
}

/// The first entry of `s` under `key`.
pub open spec fn first_key<V>(s: Seq<(Seq<char>, V)>, key: Seq<char>) -> Option<int>
    decreases s.len(),
{
    if s.len() == 0 {
        None
    } else {
        match first_key(s.drop_last(), key) {
            Some(i) => Some(i),
            None => if s.last().0 == key {
                Some(s.len() - 1)
            } else {
                None
            },
        }
    }
}

proof fn lemma_first_key_prefix<V>(s: Seq<(Seq<char>, V)>, key: Seq<char>, i: int)
    requires
        0 <= i < s.len(),
        first_key(s.subrange(0, i), key) is None,
    ensures
        first_key(s.subrange(0, i + 1), key) == if s[i].0 == key {
            Some(i)
        } else {
            None::<int>
        },
{
    assert(s.subrange(0, i + 1).drop_last() =~= s.subrange(0, i));
}

pub proof fn lemma_first_key_bounds<V>(s: Seq<(Seq<char>, V)>, key: Seq<char>)
    ensures
        first_key(s, key) matches Some(i) ==> 0 <= i < s.len() && s[i].0 == key,
    decreases s.len(),
{
    if s.len() > 0 {
        lemma_first_key_bounds(s.drop_last(), key);
    }
}

proof fn lemma_first_key_push<V>(s: Seq<(Seq<char>, V)>, key: Seq<char>, x: (Seq<char>, V))
    requires
        first_key(s, key) is Some,
    ensures
        first_key(s.push(x), key) == first_key(s, key),
{
    assert(s.push(x).drop_last() =~= s);
}

/// The table after recording `span` for the term with concrete syntax `key`, a variable
/// `var` if the term is one.
pub open spec fn record_m(t: SpanTableM, key: Seq<char>, var: Option<Seq<char>>, span: Span) -> SpanTableM {
    SpanTableM {
        terms: if first_key(t.terms, key) is Some {
            t.terms
        } else {
            t.terms.push((key, span))
        },
        vars: match var {
            None => t.vars,
            Some(x) => match first_key(t.vars, x) {
                Some(i) => t.vars.update(i, (x, t.vars[i].1.push(span))),
                None => t.vars.push((x, seq![span])),
            },
        },
    }
}

fn find_term_key(v: &Vec<(String, Span)>, key: &str) -> (r: Option<usize>)
    ensures
        match r {
            Some(i) => first_key(v@.map_values(|p: (String, Span)| (p.0@, p.1)), key@) == Some(i as int),
            None => first_key(v@.map_values(|p: (String, Span)| (p.0@, p.1)), key@) is None,
        },
{
    let ghost m = v@.map_values(|p: (String, Span)| (p.0@, p.1));
    let mut i: usize = 0;
    proof {
        assert(m.subrange(0, 0) =~= Seq::<(Seq<char>, Span)>::empty());
    }
    while i < v.len()
        invariant
            i <= v@.len(),
            m == v@.map_values(|p: (String, Span)| (p.0@, p.1)),
            first_key(m.subrange(0, i as int), key@) is None,
        decreases v@.len() - i,
    {
        proof {
            lemma_first_key_prefix(m, key@, i as int);
        }
        if str_eq(v[i].0.as_str(), key) {
            proof {
                lemma_first_key_suffix(m, key@, i as int + 1);
            }
            return Some(i);
        }
        i += 1;
    }
    proof {
        assert(m.subrange(0, v@.len() as int) =~= m);
    }
    None
}

fn find_var_key(v: &Vec<(String, Vec<Span>)>, key: &str) -> (r: Option<usize>)
    ensures
        match r {
            Some(i) => first_key(v@.map_values(|p: (String, Vec<Span>)| (p.0@, p.1@)), key@) == Some(
                i as int,
            ),
            None => first_key(v@.map_values(|p: (String, Vec<Span>)| (p.0@, p.1@)), key@) is None,
        },
{
    let ghost m = v@.map_values(|p: (String, Vec<Span>)| (p.0@, p.1@));
    let mut i: usize = 0;
    proof {
        assert(m.subrange(0, 0) =~= Seq::<(Seq<char>, Seq<Span>)>::empty());
    }
    while i < v.len()
        invariant
            i <= v@.len(),
            m == v@.map_values(|p: (String, Vec<Span>)| (p.0@, p.1@)),
            first_key(m.subrange(0, i as int), key@) is None,
        decreases v@.len() - i,
    {
        proof {
            lemma_first_key_prefix(m, key@, i as int);
        }
        if str_eq(v[i].0.as_str(), key) {
            proof {
                lemma_first_key_suffix(m, key@, i as int + 1);
            }
            return Some(i);
        }
        i += 1;
    }
    proof {
        assert(m.subrange(0, v@.len() as int) =~= m);
    }
    None
}

proof fn lemma_first_key_suffix<V>(s: Seq<(Seq<char>, V)>, key: Seq<char>, k: int)
    requires
        0 <= k <= s.len(),
        first_key(s.subrange(0, k), key) is Some,
    ensures
        first_key(s, key) == first_key(s.subrange(0, k), key),
    decreases s.len() - k,
{
    if k < s.len() {
        assert(s.subrange(0, k + 1).drop_last() =~= s.subrange(0, k));
        lemma_first_key_suffix(s, key, k + 1);
    } else {
        assert(s.subrange(0, k) =~= s);
    }
}

pub open spec fn var_name_m(t: TermM) -> Option<Seq<char>> {
    match t {
        TermM::Var(x) => Some(x),
        _ => None,
    }
}

impl SpanTable {
    pub fn new() -> (r: Self)
        ensures
            r@.terms.len() == 0,
            r@.vars.len() == 0,
    {
        SpanTable { term_spans: Vec::new(), var_spans: Vec::new() }
    }

    /// Records `span` for `term` unless its syntax already has one, and for a variable, one
    /// more use.
    pub fn record(&mut self, term: &Term, span: Span)
        ensures
            final(self)@ == record_m(
                old(self)@,
                crate::core_text::term_text(term@),
                var_name_m(term@),
                span,
            ),
    {
        let key = term.to_text();
        let ghost old_terms = self@.terms;
        match find_term_key(&self.term_spans, key.as_str()) {
            Some(_) => {},
            None => {
                self.term_spans.push((key, span));
                assert(self.term_spans@.map_values(|p: (String, Span)| (p.0@, p.1)) =~= old_terms.push(
                    (crate::core_text::term_text(term@), span),
                ));
            },
        }
        let ghost old_vars = self@.vars;
        match term {
            Term::Var(name) => {
                proof {
                    lemma_first_key_bounds(old_vars, name@);
                }
                match find_var_key(&self.var_spans, name.as_str()) {
                    Some(i) => {
                        let mut entry = (owned(name.as_str()), Vec::new());
                        std::mem::swap(&mut entry, &mut self.var_spans[i]);
                        let ghost before = entry.1@;
                        entry.1.push(span);
                        self.var_spans.set(i, entry);
                        assert(self.var_spans@.map_values(|p: (String, Vec<Span>)| (p.0@, p.1@)) =~= old_vars.update(
                            i as int,
                            (name@, old_vars[i as int].1.push(span)),
                        ));
                    },
                    None => {
                        let mut spans: Vec<Span> = Vec::new();
                        spans.push(span);
                        self.var_spans.push((owned(name.as_str()), spans));
                        assert(self.var_spans@.map_values(|p: (String, Vec<Span>)| (p.0@, p.1@)) =~= old_vars.push(
                            (name@, seq![span]),
                        ));
                    },
                }
            },
            _ => {},
        }
    }

    /// The span recorded for the term whose concrete syntax is `term`.
    pub fn span_for_term_string(&self, term: &str) -> (r: Option<Span>)
        ensures
            r == (match first_key(self@.terms, term@) {
                Some(i) => Some(self@.terms[i].1),
                None => None,
            }),
    {
        proof {
            lemma_first_key_bounds(self@.terms, term@);
        }
        match find_term_key(&self.term_spans, term) {
            Some(i) => Some(self.term_spans[i].1),
            None => None,
        }
    }

    /// The first use recorded for the variable `name`.
    pub fn span_for_var(&self, name: &str) -> (r: Option<Span>)
        ensures
            r == (match first_key(self@.vars, name@) {
                Some(i) => if self@.vars[i].1.len() > 0 {
                    Some(self@.vars[i].1[0])
                } else {
                    None
                },
                None => None,
            }),
    {
        proof {
            lemma_first_key_bounds(self@.vars, name@);
        }
        match find_var_key(&self.var_spans, name) {
            Some(i) => {
                if self.var_spans[i].1.len() > 0 {
                    Some(self.var_spans[i].1[0])
                } else {
                    None
                }
            },
            None => None,
        }
    }
}



/// All spans of the table start before `usize::MAX`.
pub open spec fn spans_bounded(t: SpanTableM) -> bool {
    &&& forall|i: int| 0 <= i < t.terms.len() ==> (#[trigger] t.terms[i]).1.start < usize::MAX
    &&& forall|i: int, k: int|
        0 <= i < t.vars.len() && 0 <= k < t.vars[i].1.len() ==> (#[trigger] t.vars[i].1[k]).start
            < usize::MAX
}

impl SpanTable {
    /// Whether every recorded span starts before `usize::MAX`.
    pub fn spans_bounded(&self) -> (r: bool)
        ensures
            r == spans_bounded(self@),
    {
        let mut i: usize = 0;
        while i < self.term_spans.len()
            invariant
                i <= self.term_spans@.len(),
                forall|j: int| 0 <= j < i ==> (#[trigger] self@.terms[j]).1.start < usize::MAX,
            decreases self.term_spans@.len() - i,
        {
            if self.term_spans[i].1.start == usize::MAX {
                proof {
                    assert(self@.terms[i as int].1.start == usize::MAX);
                }
                return false;
            }
            i += 1;
        }
        let mut v: usize = 0;
        while v < self.var_spans.len()
            invariant
                v <= self.var_spans@.len(),
                forall|j: int| 0 <= j < self@.terms.len() ==> (#[trigger] self@.terms[j]).1.start < usize::MAX,
                forall|j: int, k: int|
                    0 <= j < v && 0 <= k < self@.vars[j].1.len() ==> (#[trigger] self@.vars[j].1[k]).start
                        < usize::MAX,
            decreases self.var_spans@.len() - v,
        {
            let spans = &self.var_spans[v].1;
            let mut k: usize = 0;
            while k < spans.len()
                invariant
                    k <= spans@.len(),
                    v < self.var_spans@.len(),
                    spans@ == self@.vars[v as int].1,
                    forall|m: int| 0 <= m < k ==> (#[trigger] spans@[m]).start < usize::MAX,
                decreases spans@.len() - k,
            {
                if spans[k].start == usize::MAX {
                    return false;
                }
                k += 1;
            }
            v += 1;
        }
        true
    }
}

/// One line of the span table's listing: `start..end => term`.
pub open spec fn debug_line_m(e: (Seq<char>, Span)) -> Seq<char> {
    decimal_m(e.1.start as nat) + ".."@ + decimal_m(e.1.end as nat) + " => "@ + e.0
}

impl SpanTable {
    /// The terms with their spans, one line each, in the order of the terms' text.
    pub fn debug_lines(&self) -> (r: Vec<String>)
        ensures
            exists|order: Seq<int>|
                #![trigger order.len()]
                order.len() == self@.terms.len() && r@.len() == order.len() && (forall|i: int|
                    0 <= i < order.len() ==> 0 <= #[trigger] order[i] < order.len()) && (forall|
                    i: int,
                    j: int,
                |
                    0 <= i < j < order.len() ==> order[i] != order[j]) && (forall|i: int|
                    0 <= i < order.len() ==> (#[trigger] r@[i])@ == debug_line_m(
                        self@.terms[order[i]],
                    )) && (forall|i: int, j: int|
                    0 <= i < j < order.len() ==> !chars_lt(
                        self@.terms[order[j]].0,
                        self@.terms[order[i]].0,
                    )),
    {
        let n = self.term_spans.len();
        let ghost t = self@.terms;
        let mut keys: Vec<Vec<char>> = Vec::new();
        let mut order: Vec<usize> = Vec::new();
        let mut i: usize = 0;
        while i < n
            invariant
                i <= n,
                n == self.term_spans@.len(),
                t == self@.terms,
                t.len() == n,
                keys@.len() == i,
                order@.len() == i,
                forall|k: int| 0 <= k < i ==> (#[trigger] keys@[k])@ == t[k].0,
                forall|k: int| 0 <= k < i ==> #[trigger] order@[k] == k,
            decreases n - i,
        {
            keys.push(chars_of(self.term_spans[i].0.as_str()));
            order.push(i);
            i += 1;
        }
        // Selection sort of the positions by their terms.
        let mut s: usize = 0;
        while s < n
            invariant
                s <= n,
                n == order@.len(),
                keys@.len() == n,
                t.len() == n,
                forall|k: int| 0 <= k < n ==> (#[trigger] keys@[k])@ == t[k].0,
                forall|k: int| 0 <= k < n ==> #[trigger] order@[k] < n,
                forall|a: int, b: int| 0 <= a < b < n ==> order@[a] != order@[b],
                forall|a: int, b: int|
                    0 <= a < b < n && a < s ==> !chars_lt(
                        t[order@[b] as int].0,
                        t[order@[a] as int].0,
                    ),
            decreases n - s,
        {
            let mut m: usize = s;
            let mut j: usize = s + 1;
            proof {
                lemma_chars_lt_irrefl(keys@[order@[s as int] as int]@);
            }
            while j < n
                invariant
                    s <= m < n,
                    s < j <= n,
                    n == order@.len(),
                    keys@.len() == n,
                    forall|k: int| 0 <= k < n ==> #[trigger] order@[k] < n,
                    forall|k: int| s <= k < j ==> !chars_lt(
                        keys@[order@[k] as int]@,
                        keys@[order@[m as int] as int]@,
                    ),
                decreases n - j,
            {
                if text_lt(&keys[order[j]], &keys[order[m]]) {
                    proof {
                        assert forall|k: int| s <= k < j + 1 implies !chars_lt(
                            keys@[order@[k] as int]@,
                            keys@[order@[j as int] as int]@,
                        ) by {
                            if k == j as int {
                                lemma_chars_lt_irrefl(keys@[order@[j as int] as int]@);
                            } else {
                                lemma_chars_lt_trans_not(
                                    keys@[order@[k] as int]@,
                                    keys@[order@[m as int] as int]@,
                                    keys@[order@[j as int] as int]@,
                                );
                            }
                        }
                    }
                    m = j;
                }
                j += 1;
            }
            let a = order[s];
            let b = order[m];
            let ghost before = order@;
            order.set(s, b);
            order.set(m, a);
            proof {
                assert forall|x: int, y: int| 0 <= x < y < n implies order@[x] != order@[y] by {
                    let px = if x == s as int {
                        m as int
                    } else if x == m as int {
                        s as int
                    } else {
                        x
                    };
                    let py = if y == s as int {
                        m as int
                    } else if y == m as int {
                        s as int
                    } else {
                        y
                    };
                    assert(order@[x] == before[px]);
                    assert(order@[y] == before[py]);
                    assert(px != py);
                }
                assert forall|x: int, y: int|
                    0 <= x < y < n && x < s + 1 implies !chars_lt(
                    t[order@[y] as int].0,
                    t[order@[x] as int].0,
                ) by {
                    if x < s {
                        let py = if y == s as int {
                            m as int
                        } else if y == m as int {
                            s as int
                        } else {
                            y
                        };
                        assert(order@[x] == before[x]);
                        assert(order@[y] == before[py]);
                    } else {
                        let py = if y == m as int {
                            s as int
                        } else {
                            y
                        };
                        assert(order@[y] == before[py]);
                        assert(keys@[before[py] as int]@ == t[before[py] as int].0);
                        assert(keys@[b as int]@ == t[b as int].0);
                    }
                }
            }
            s += 1;
        }
        let mut out: Vec<String> = Vec::new();
        let mut i: usize = 0;
        while i < n
            invariant
                i <= n,
                n == order@.len(),
                t == self@.terms,
                t.len() == n,
                n == self.term_spans@.len(),
                forall|k: int| 0 <= k < n ==> #[trigger] order@[k] < n,
                out@.len() == i,
                forall|k: int| 0 <= k < i ==> (#[trigger] out@[k])@ == debug_line_m(t[order@[k] as int]),
            decreases n - i,
        {
            let entry = &self.term_spans[order[i]];
            proof {
                assert(t[order@[i as int] as int] == (entry.0@, entry.1));
            }
            let mut line = decimal(entry.1.start as u64);
            push(&mut line, "..");
            let end = decimal(entry.1.end as u64);
            push(&mut line, end.as_str());
            push(&mut line, " => ");
            push(&mut line, entry.0.as_str());
            out.push(line);
            i += 1;
        }
        proof {
            let ord = order@.map_values(|x: usize| x as int);
            assert(ord.len() == self@.terms.len());
            assert forall|i: int| 0 <= i < ord.len() implies (#[trigger] out@[i])@ == debug_line_m(
                self@.terms[ord[i]],
            ) by {
                assert(ord[i] == order@[i] as int);
            }
        }
        out
    }
}

/// The arithmetic operators used, which decide the prelude functions to inject.
#[derive(Debug, Clone, Copy, PartialEq, Eq, Default, Structural)]
pub struct PreludeSet {
    pub add: bool,
    pub sub: bool,
    pub mul: bool,
}

impl PreludeSet {
    pub fn new() -> (r: Self)
        ensures
            !r.add && !r.sub && !r.mul,
    {
        PreludeSet { add: false, sub: false, mul: false }
    }

    pub fn insert(&mut self, op: BinaryOp)
        ensures
            final(self).add == (old(self).add || op == BinaryOp::Add),
            final(self).sub == (old(self).sub || op == BinaryOp::Sub),
            final(self).mul == (old(self).mul || op == BinaryOp::Mul),
    {
        match op {
            BinaryOp::Add => self.add = true,
            BinaryOp::Sub => self.sub = true,
            BinaryOp::Mul => self.mul = true,
        }
    }
}

// ---------------------------------------------------------------------------------------
// Lowering.
pub open spec fn lowered(r: Result<Term, ElaborateError>, m: Result<TermM, ElabErrM>) -> bool {
    match m {
        Ok(t) => r matches Ok(x) && x@ == t,
        Err(e) => r matches Err(y) && y@ == e,
    }
}

/// `after` is `before` with the operators of `o` added.
pub open spec fn grew(before: PreludeSet, after: PreludeSet, o: OpsM) -> bool {
    &&& after.add == (before.add || o.add)
    &&& after.sub == (before.sub || o.sub)
    &&& after.mul == (before.mul || o.mul)
}

proof fn lemma_ops_seq_prefix(s: Seq<Expr>, k: int)
    requires
        0 <= k < s.len(),
    ensures
        ops_seq_m(s.subrange(0, k + 1)) == join_ops(ops_seq_m(s.subrange(0, k)), ops_m(s[k])),
{
    assert(s.subrange(0, k + 1).drop_last() =~= s.subrange(0, k));
    assert(s.subrange(0, k + 1).last() == s[k]);
    crate::elaborate::lower::lemma_size_pos(s[k]);
}

/// The arguments `first` (if any) followed by `rest`.
pub open spec fn args_of(first: Option<&Expr>, rest: Seq<Expr>) -> Seq<Expr> {
    match first {
        Some(f) => seq![*f] + rest,
        None => rest,
    }
}

fn arg_at<'a>(first: Option<&'a Expr>, rest: &'a Vec<Expr>, i: usize) -> (r: &'a Expr)
    requires
        i < args_of(first, rest@).len(),
    ensures
        *r == args_of(first, rest@)[i as int],
{
    match first {
        Some(f) => {
            if i == 0 {
                f
            } else {
                &rest[i - 1]
            }
        },
        None => &rest[i],
    }
}

fn args_len_is(first: Option<&Expr>, rest: &Vec<Expr>, n: usize) -> (r: bool)
    ensures
        r == (args_of(first, rest@).len() == n),
{
    match first {
        Some(_) => n >= 1 && rest.len() == n - 1,
        None => rest.len() == n,
    }
}

fn fns_contain(fns: &Vec<String>, name: &str) -> (r: bool)
    ensures
        r == name_set(fns@).contains(name@),
{
    contains_name(fns, name)
}

/// The core term of `expr` in scope `env`, where `fns` are the program's functions.
pub fn lower_expr(expr: &Expr, env: &LEnv, fns: &Vec<String>, spans: &mut SpanTable, prelude: &mut PreludeSet) -> (r: Result<
    Term,
    ElaborateError,
>)
    ensures
        r is Ok ==> grew(*old(prelude), *final(prelude), ops_m(*expr)),
        lowered(r, lower_m(*expr, env@, name_set(fns@))),
    decreases size_m(*expr), 1nat,
{
    let term = match &expr.kind {
        ExprKind::Unit => Term::unit(),
        ExprKind::Nat(v) => Term::natural(*v),
        ExprKind::Var(name) => {
            if !str_eq(name.as_str(), "_") && !env.has_var(name.as_str()) && !fns_contain(fns, name.as_str()) {
                let mut message = owned("unbound surface variable `");
                push(&mut message, name.as_str());
                push(&mut message, "`");
                return Err(ElaborateError { span: expr.span, message });
            }
            Term::var(name.as_str())
        },
        ExprKind::Call { callee, args } => {
            proof {
                assert(args_of(None, args@) == args@);
            }
            lower_call(callee, None, args, env, fns, expr.span, spans, prelude)?
        },
        ExprKind::Prefix { op, expr: inner } => {
            let t = lower_expr(inner, env, fns, spans, prelude)?;
            match op {
                PrefixOp::Move => Term::Move(Box::new(t)),
                PrefixOp::Freeze => Term::Freeze(Box::new(t)),
                PrefixOp::Inplace => Term::Inplace(Box::new(t)),
            }
        },
        ExprKind::Binary { op, lhs, rhs } => {
            let name = match op {
                BinaryOp::Add => "__atli_add",
                BinaryOp::Sub => "__atli_sub",
                BinaryOp::Mul => "__atli_mul",
            };
            assert(name@ == crate::elaborate::lower::binop_name(*op));
            prelude.insert(*op);
            let l = lower_expr(lhs, env, fns, spans, prelude)?;
            let r = lower_expr(rhs, env, fns, spans, prelude)?;
            let f = Term::var(name);
            let inner = Term::App(Box::new(f), Box::new(l));
            assert(inner@ == TermM::App(Box::new(TermM::Var(name@)), Box::new(l@)));
            Term::App(Box::new(inner), Box::new(r))
        },
        ExprKind::QualifiedCall { effect, op, args } => {
            if !str_eq(op.as_str(), "op") {
                return Err(ElaborateError::new(expr.span, "reduced core supports only operation name `op`"));
            }
            if args.len() != 1 {
                return Err(ElaborateError::new(expr.span, "effect operation `op` expects exactly one argument"));
            }
            proof {
                lemma_sizes_elem(args@, 0);
                lemma_ops_seq_prefix(args@, 0);
                assert(args@.subrange(0, 1) =~= args@);
                assert(args@.subrange(0, 0) =~= Seq::<Expr>::empty());
            }
            let a = lower_expr(&args[0], env, fns, spans, prelude)?;
            Term::Perform(Label::intern(effect.as_str()), Box::new(a))
        },
        ExprKind::Pipe { lhs, rhs } => lower_pipe(expr, env, fns, spans, prelude)?,
        ExprKind::Block { .. } => lower_block(expr, env, fns, spans, prelude)?,
        ExprKind::CaseNat { .. } => lower_case(expr, env, fns, spans, prelude)?,
        ExprKind::Handle { .. } => lower_handle(expr, env, fns, spans, prelude)?,
    };
    assert(lower_m(*expr, env@, name_set(fns@)) == Ok::<TermM, ElabErrM>(term@));
    spans.record(&term, expr.span);
    Ok(term)
}

/// `lhs |> rhs`: `rhs` is a call, which takes `lhs` as its first argument, or a function.
fn lower_pipe(expr: &Expr, env: &LEnv, fns: &Vec<String>, spans: &mut SpanTable, prelude: &mut PreludeSet) -> (r: Result<
    Term,
    ElaborateError,
>)
    requires
        expr.kind is Pipe,
    ensures
        r is Ok ==> grew(*old(prelude), *final(prelude), ops_m(*expr)),
        lowered(r, lower_m(*expr, env@, name_set(fns@))),
    decreases size_m(*expr), 0nat,
{
    match &expr.kind {
        ExprKind::Pipe { lhs, rhs } => match &rhs.kind {
            ExprKind::Call { callee, args } => {
                proof {
                    lemma_sizes_concat(seq![**lhs], args@);
                    lemma_sizes_one(**lhs);
                    assert(size_m(**rhs) == 1 + size_m(**callee) + sizes_m(args@));
                    lemma_ops_seq_cons(**lhs, args@);
                    assert(args_of(Some(&**lhs), args@) == seq![**lhs] + args@);
                    assert(ops_m(**rhs) == join_ops(ops_m(**callee), ops_seq_m(args@)));
                }
                lower_call(callee, Some(&**lhs), args, env, fns, expr.span, spans, prelude)
            },
            ExprKind::Var(_) => {
                let none: Vec<Expr> = Vec::new();
                proof {
                    lemma_sizes_one(**lhs);
                    assert(args_of(Some(&**lhs), none@) =~= seq![**lhs]);
                    lemma_ops_seq_cons(**lhs, none@);
                    assert(seq![**lhs] + none@ =~= seq![**lhs]);
                    assert(ops_seq_m(none@) == no_ops());
                    assert(ops_m(**rhs) == no_ops());
                }
                lower_call(rhs, Some(&**lhs), &none, env, fns, expr.span, spans, prelude)
            },
            _ => Err(
                ElaborateError::new(
                    rhs.span,
                    "pipe RHS must be a function call or function name in the reduced surface",
                ),
            ),
        },
        _ => Err(ElaborateError::new(expr.span, "")),
    }
}


/// `callee` applied to `first` (if any) and then `rest`.
fn lower_call(
    callee: &Expr,
    first: Option<&Expr>,
    rest: &Vec<Expr>,
    env: &LEnv,
    fns: &Vec<String>,
    span: Span,
    spans: &mut SpanTable,
    prelude: &mut PreludeSet,
) -> (r: Result<Term, ElaborateError>)
    ensures
        r is Ok ==> grew(
            *old(prelude),
            *final(prelude),
            join_ops(ops_m(*callee), ops_seq_m(args_of(first, rest@))),
        ),
        lowered(r, lower_call_m(*callee, args_of(first, rest@), env@, name_set(fns@), span)),
    decreases size_m(*callee) + sizes_m(args_of(first, rest@)), 3nat,
{
    let ghost args = args_of(first, rest@);
    match &callee.kind {
        ExprKind::Var(name) => {
            if env.has_cont(name.as_str()) {
                if !args_len_is(first, rest, 1) {
                    return Err(ElaborateError::new(span, "continuation resume expects exactly one argument"));
                }
                proof {
                    lemma_sizes_elem(args, 0);
                    lemma_ops_seq_prefix(args, 0);
                    assert(args.subrange(0, 1) =~= args);
                    assert(args.subrange(0, 0) =~= Seq::<Expr>::empty());
                }
                let k = lower_expr(callee, env, fns, spans, prelude)?;
                let a = lower_expr(arg_at(first, rest, 0), env, fns, spans, prelude)?;
                return Ok(Term::Resume { kont: Box::new(k), arg: Box::new(a) });
            }
            let n = name.as_str();
            if str_eq(n, "mkarray") || str_eq(n, "get") || str_eq(n, "set") || str_eq(n, "len") {
                let arity: usize = if str_eq(n, "mkarray") || str_eq(n, "get") {
                    2
                } else if str_eq(n, "set") {
                    3
                } else {
                    1
                };
                if !args_len_is(first, rest, arity) {
                    let mut message = owned("builtin `");
                    push(&mut message, n);
                    push(&mut message, "` called with wrong arity");
                    return Err(ElaborateError { span, message });
                }
                return lower_builtin(n, first, rest, env, fns, spans, prelude);
            }
        },
        _ => {},
    }
    let head = lower_expr(callee, env, fns, spans, prelude)?;
    lower_apps(head, first, rest, env, fns, span, spans, prelude)
}

#[verifier::rlimit(50)]
fn lower_builtin(
    name: &str,
    first: Option<&Expr>,
    rest: &Vec<Expr>,
    env: &LEnv,
    fns: &Vec<String>,
    spans: &mut SpanTable,
    prelude: &mut PreludeSet,
) -> (r: Result<Term, ElaborateError>)
    requires
        is_builtin(name@),
        args_of(first, rest@).len() == builtin_arity(name@),
    ensures
        r is Ok ==> grew(*old(prelude), *final(prelude), ops_seq_m(args_of(first, rest@))),
        lowered(r, lower_builtin_m(name@, args_of(first, rest@), env@, name_set(fns@))),
    decreases sizes_m(args_of(first, rest@)), 2nat,
{
    let ghost args = args_of(first, rest@);
    proof {
        lemma_sizes_elem(args, 0);
        lemma_ops_seq_prefix(args, 0);
        assert(args.subrange(0, 0) =~= Seq::<Expr>::empty());
        if args.len() == 1 {
            assert(args.subrange(0, 1) =~= args);
        }
    }
    let a = lower_expr(arg_at(first, rest, 0), env, fns, spans, prelude)?;
    if str_eq(name, "len") {
        proof {
            reveal_strlit("len");
            reveal_strlit("mkarray");
            reveal_strlit("get");
            reveal_strlit("set");
            assert("len"@ != "get"@) by {
                assert("len"@[0] != "get"@[0]);
            }
            assert("len"@ != "set"@) by {
                assert("len"@[0] != "set"@[0]);
            }
            assert("len"@ != "mkarray"@) by {
                assert("len"@.len() != "mkarray"@.len());
            }
            assert(args.len() == 1);
            assert(args.subrange(0, 1) =~= args);
        }
        return Ok(Term::ArrayLen(Box::new(a)));
    }
    proof {
        lemma_sizes_elem(args, 1);
        lemma_ops_seq_prefix(args, 1);
        if args.len() == 2 {
            assert(args.subrange(0, 2) =~= args);
        }
    }
    let b = lower_expr(arg_at(first, rest, 1), env, fns, spans, prelude)?;
    if str_eq(name, "mkarray") {
        return Ok(Term::MkArray(Box::new(a), Box::new(b)));
    }
    if str_eq(name, "get") {
        return Ok(Term::ArrayGet(Box::new(a), Box::new(b)));
    }
    proof {
        lemma_sizes_elem(args, 2);
        lemma_ops_seq_prefix(args, 2);
        assert(args.subrange(0, 3) =~= args);
    }
    let c = lower_expr(arg_at(first, rest, 2), env, fns, spans, prelude)?;
    Ok(Term::ArraySet(Box::new(a), Box::new(b), Box::new(c)))
}

proof fn lemma_apps_prefix(head: TermM, args: Seq<Expr>, k: int, env: LEnvM, fns: Set<Seq<char>>)
    requires
        0 <= k < args.len(),
    ensures
        lower_apps_m(head, args.subrange(0, k + 1), env, fns) == (match lower_apps_m(
            head,
            args.subrange(0, k),
            env,
            fns,
        ) {
            Ok(f) => match lower_m(args[k], env, fns) {
                Ok(a) => Ok(TermM::App(Box::new(f), Box::new(a))),
                Err(x) => Err(x),
            },
            Err(x) => Err(x),
        }),
{
    assert(args.subrange(0, k + 1).drop_last() =~= args.subrange(0, k));
    assert(args.subrange(0, k + 1).last() == args[k]);
}

proof fn lemma_apps_err(head: TermM, args: Seq<Expr>, k: int, env: LEnvM, fns: Set<Seq<char>>)
    requires
        0 <= k <= args.len(),
        lower_apps_m(head, args.subrange(0, k), env, fns) is Err,
    ensures
        lower_apps_m(head, args, env, fns) == lower_apps_m(head, args.subrange(0, k), env, fns),
    decreases args.len() - k,
{
    if k < args.len() {
        lemma_apps_prefix(head, args, k, env, fns);
        lemma_apps_err(head, args, k + 1, env, fns);
    } else {
        assert(args.subrange(0, k) =~= args);
    }
}

/// `head` applied to each argument in turn; each application is recorded at `span`.
fn lower_apps(
    head: Term,
    first: Option<&Expr>,
    rest: &Vec<Expr>,
    env: &LEnv,
    fns: &Vec<String>,
    span: Span,
    spans: &mut SpanTable,
    prelude: &mut PreludeSet,
) -> (r: Result<Term, ElaborateError>)
    ensures
        r is Ok ==> grew(*old(prelude), *final(prelude), ops_seq_m(args_of(first, rest@))),
        lowered(r, lower_apps_m(head@, args_of(first, rest@), env@, name_set(fns@))),
    decreases sizes_m(args_of(first, rest@)), 2nat,
{
    let ghost args = args_of(first, rest@);
    let ghost h = head@;
    let ghost fset = name_set(fns@);
    let ghost off: int = if first is Some {
        1
    } else {
        0
    };
    let mut out = head;
    let ghost p0 = *prelude;
    proof {
        assert(args.subrange(0, 0) =~= Seq::<Expr>::empty());
    }
    match first {
        Some(f) => {
            proof {
                lemma_sizes_elem(args, 0);
                lemma_apps_prefix(h, args, 0, env@, fset);
                lemma_ops_seq_prefix(args, 0);
            }
            let a = match lower_expr(f, env, fns, spans, prelude) {
                Ok(a) => a,
                Err(e) => {
                    proof {
                        lemma_apps_err(h, args, 1, env@, fset);
                    }
                    return Err(e);
                },
            };
            out = Term::App(Box::new(out), Box::new(a));
            spans.record(&out, span);
        },
        None => {},
    }
    let mut j: usize = 0;
    while j < rest.len()
        invariant
            j <= rest@.len(),
            args == args_of(first, rest@),
            fset == name_set(fns@),
            off == (if first is Some {
                1int
            } else {
                0int
            }),
            args.len() == off + rest@.len(),
            forall|t: int| 0 <= t < rest@.len() ==> #[trigger] rest@[t] == args[off + t],
            lower_apps_m(h, args.subrange(0, off + j), env@, fset) == Ok::<TermM, ElabErrM>(out@),
            h == head@,
            p0 == *old(prelude),
            grew(p0, *prelude, ops_seq_m(args.subrange(0, off + j))),
        decreases rest@.len() - j,
    {
        proof {
            lemma_sizes_elem(args, off + j);
            lemma_apps_prefix(h, args, off + j, env@, fset);
            lemma_ops_seq_prefix(args, off + j);
            assert(rest@[j as int] == args[off + j]);
        }
        let a = match lower_expr(&rest[j], env, fns, spans, prelude) {
            Ok(a) => a,
            Err(e) => {
                proof {
                    lemma_apps_err(h, args, off + j + 1, env@, fset);
                }
                return Err(e);
            },
        };
        out = Term::App(Box::new(out), Box::new(a));
        spans.record(&out, span);
        j += 1;
    }
    proof {
        assert(args.subrange(0, off + j) =~= args);
    }
    Ok(out)
}

proof fn lemma_bindings_prefix(bs: Seq<Binding>, k: int, env: LEnvM, fns: Set<Seq<char>>)
    requires
        0 <= k < bs.len(),
    ensures
        lower_bindings_m(bs.subrange(0, k + 1), env, fns) == (match lower_bindings_m(
            bs.subrange(0, k),
            env,
            fns,
        ) {
            Ok((local, done)) => match lower_m(bs[k].expr, local, fns) {
                Ok(v) => Ok((with_var_m(local, bs[k].name.node@), done.push((bs[k].name.node@, v)))),
                Err(x) => Err(x),
            },
            Err(x) => Err(x),
        }),
{
    assert(bs.subrange(0, k + 1).drop_last() =~= bs.subrange(0, k));
    assert(bs.subrange(0, k + 1).last() == bs[k]);
}

proof fn lemma_bindings_err(bs: Seq<Binding>, k: int, env: LEnvM, fns: Set<Seq<char>>)
    requires
        0 <= k <= bs.len(),
        lower_bindings_m(bs.subrange(0, k), env, fns) is Err,
    ensures
        lower_bindings_m(bs, env, fns) == lower_bindings_m(bs.subrange(0, k), env, fns),
    decreases bs.len() - k,
{
    if k < bs.len() {
        lemma_bindings_prefix(bs, k, env, fns);
        lemma_bindings_err(bs, k + 1, env, fns);
    } else {
        assert(bs.subrange(0, k) =~= bs);
    }
}

/// `{ x1 = e1; ...; result }`: each binding in the scope of those before it, and the lets
/// recorded at the span from the binding to the result.
fn lower_block(expr: &Expr, env: &LEnv, fns: &Vec<String>, spans: &mut SpanTable, prelude: &mut PreludeSet) -> (r: Result<
    Term,
    ElaborateError,
>)
    requires
        expr.kind is Block,
    ensures
        r is Ok ==> grew(*old(prelude), *final(prelude), ops_m(*expr)),
        lowered(r, lower_m(*expr, env@, name_set(fns@))),
    decreases size_m(*expr), 0nat,
{
    match &expr.kind {
        ExprKind::Block { bindings, result } => {
            let ghost bs = bindings@;
            let ghost fset = name_set(fns@);
            proof {
                assert(size_m(*expr) == 1 + binding_sizes_m(bs) + size_m(**result));
            }
            let mut local = env.duplicate();
            let ghost p0 = *prelude;
            let mut names: Vec<String> = Vec::new();
            let mut values: Vec<Term> = Vec::new();
            let mut i: usize = 0;
            proof {
                assert(bs.subrange(0, 0) =~= Seq::<Binding>::empty());
            }
            while i < bindings.len()
                invariant
                    i <= bs.len(),
                    bs == bindings@,
                    fset == name_set(fns@),
                    size_m(*expr) == 1 + binding_sizes_m(bs) + size_m(**result),
                    lower_m(*expr, env@, fset) == (match lower_bindings_m(bs, env@, fset) {
                        Ok((l, d)) => match lower_m(**result, l, fset) {
                            Ok(t) => Ok(wrap_lets_m(d, t)),
                            Err(x) => Err(x),
                        },
                        Err(x) => Err(x),
                    }),
                    names@.len() == i,
                    values@.len() == i,
                    lower_bindings_m(bs.subrange(0, i as int), env@, fset) matches Ok((l, done))
                        && l == local@ && done.len() == i && forall|j: int|
                        0 <= j < i ==> #[trigger] done[j] == (names@[j]@, values@[j]@),
                    p0 == *old(prelude),
                    grew(p0, *prelude, ops_bindings_m(bs.subrange(0, i as int))),
                decreases bs.len() - i,
            {
                proof {
                    lemma_binding_sizes_elem(bs, i as int);
                    lemma_bindings_prefix(bs, i as int, env@, fset);
                    crate::elaborate::lower::lemma_size_pos(bs[i as int].expr);
                    assert(bs.subrange(0, i + 1).drop_last() =~= bs.subrange(0, i as int));
                    assert(bs.subrange(0, i + 1).last() == bs[i as int]);
                }
                let value = match lower_expr(&bindings[i].expr, &local, fns, spans, prelude) {
                    Ok(v) => v,
                    Err(e) => {
                        proof {
                            assert(lower_m(bs[i as int].expr, local@, fset) is Err);
                            assert(lower_bindings_m(bs.subrange(0, i as int + 1), env@, fset) is Err);
                            lemma_bindings_err(bs, i as int + 1, env@, fset);
                        }
                        return Err(e);
                    },
                };
                local.add_var(bindings[i].name.node.as_str());
                names.push(owned(bindings[i].name.node.as_str()));
                values.push(value);
                i += 1;
            }
            proof {
                assert(bs.subrange(0, bs.len() as int) =~= bs);
            }
            let mut lowered_term = lower_expr(result, &local, fns, spans, prelude)?;
            let ghost done = lower_bindings_m(bs, env@, fset)->Ok_0.1;
            proof {
                assert(done.subrange(0, i as int) =~= done);
            }
            let mut k = i;
            while k > 0
                invariant
                    fset == name_set(fns@),
                    k <= names@.len(),
                    values@.len() == k,
                    names@.len() == bs.len(),
                    bs == bindings@,
                    done.len() == names@.len(),
                    forall|j: int| 0 <= j < k ==> #[trigger] done[j] == (names@[j]@, values@[j]@),
                    wrap_lets_m(done, lower_m(**result, local@, fset)->Ok_0) == wrap_lets_m(
                        done.subrange(0, k as int),
                        lowered_term@,
                    ),
                decreases k,
            {
                k = k - 1;
                let ghost vals = values@;
                let value = values.pop().unwrap();
                proof {
                    assert(value@ == vals[k as int]@);
                    assert(done.subrange(0, k + 1).drop_last() =~= done.subrange(0, k as int));
                    assert(done.subrange(0, k + 1).last() == done[k as int]);
                }
                lowered_term = Term::Let {
                    var: owned(names[k].as_str()),
                    expr: Box::new(value),
                    body: Box::new(lowered_term),
                };
                let binding_span = bindings[k].span.join(result.span);
                spans.record(&lowered_term, binding_span);
            }
            Ok(lowered_term)
        },
        _ => Err(ElaborateError::new(expr.span, "")),
    }
}


/// `case e { 0 -> z; p -> s }`.
fn lower_case(expr: &Expr, env: &LEnv, fns: &Vec<String>, spans: &mut SpanTable, prelude: &mut PreludeSet) -> (r: Result<
    Term,
    ElaborateError,
>)
    requires
        expr.kind is CaseNat,
    ensures
        r is Ok ==> grew(*old(prelude), *final(prelude), ops_m(*expr)),
        lowered(r, lower_m(*expr, env@, name_set(fns@))),
    decreases size_m(*expr), 0nat,
{
    match &expr.kind {
        ExprKind::CaseNat { scrutinee, arms } => {
            if arms.len() != 2 {
                return Err(
                    ElaborateError::new(
                        expr.span,
                        "reduced Nat case requires exactly two arms: `0` and predecessor binder",
                    ),
                );
            }
            let is_zero = match &arms[0].pattern {
                Pattern::Zero(_) => true,
                _ => false,
            };
            if !is_zero {
                return Err(ElaborateError::new(arms[0].span, "first reduced Nat case arm must be `0`"));
            }
            match &arms[1].pattern {
                Pattern::Bind(name) => {
                    proof {
                        lemma_arm_sizes_elem(arms@, 0);
                        lemma_arm_sizes_elem(arms@, 1);
                    }
                    proof {
                        let a = arms@;
                        let a1 = a.drop_last();
                        assert(a1.drop_last() =~= Seq::<CaseArm>::empty());
                        assert(a1.last() == a[0]);
                        crate::elaborate::lower::lemma_size_pos(a[0].body);
                        crate::elaborate::lower::lemma_size_pos(a[1].body);
                        assert(ops_arms_m(a1.drop_last()) == no_ops());
                        assert(ops_arms_m(a1) == join_ops(ops_arms_m(a1.drop_last()), ops_m(a1.last().body)));
                        assert(ops_arms_m(a) == join_ops(ops_arms_m(a1), ops_m(a.last().body)));
                    }
                    let mut succ_env = env.duplicate();
                    succ_env.add_var(name.node.as_str());
                    let s = lower_expr(scrutinee, env, fns, spans, prelude)?;
                    let z = lower_expr(&arms[0].body, env, fns, spans, prelude)?;
                    let b = lower_expr(&arms[1].body, &succ_env, fns, spans, prelude)?;
                    Ok(
                        Term::CaseNat {
                            scrutinee: Box::new(s),
                            zero_body: Box::new(z),
                            succ_var: owned(name.node.as_str()),
                            succ_body: Box::new(b),
                        },
                    )
                },
                _ => Err(
                    ElaborateError::new(
                        arms[1].span,
                        "second reduced Nat case arm must bind the predecessor",
                    ),
                ),
            }
        },
        _ => Err(ElaborateError::new(expr.span, "")),
    }
}

proof fn lemma_ops_prefix(cs: Seq<HandleClause>, k: int, env: LEnvM, fns: Set<Seq<char>>)
    requires
        0 <= k < cs.len(),
    ensures
        lower_op_clauses_m(cs.subrange(0, k + 1), env, fns) == (match lower_op_clauses_m(
            cs.subrange(0, k),
            env,
            fns,
        ) {
            Ok(done) => if cs[k] is Return {
                Ok(done)
            } else {
                match op_clause_m(cs[k], env, fns) {
                    Ok(c) => Ok(done.push(c)),
                    Err(x) => Err(x),
                }
            },
            Err(x) => Err(x),
        }),
{
    assert(cs.subrange(0, k + 1).drop_last() =~= cs.subrange(0, k));
    assert(cs.subrange(0, k + 1).last() == cs[k]);
}

proof fn lemma_ops_err(cs: Seq<HandleClause>, k: int, env: LEnvM, fns: Set<Seq<char>>)
    requires
        0 <= k <= cs.len(),
        lower_op_clauses_m(cs.subrange(0, k), env, fns) is Err,
    ensures
        lower_op_clauses_m(cs, env, fns) == lower_op_clauses_m(cs.subrange(0, k), env, fns),
    decreases cs.len() - k,
{
    if k < cs.len() {
        lemma_ops_prefix(cs, k, env, fns);
        lemma_ops_err(cs, k + 1, env, fns);
    } else {
        assert(cs.subrange(0, k) =~= cs);
    }
}

/// One operation clause.
fn lower_op_clause(
    c: &HandleClause,
    env: &LEnv,
    fns: &Vec<String>,
    spans: &mut SpanTable,
    prelude: &mut PreludeSet,
) -> (r: Result<OpClause, ElaborateError>)
    requires
        c is Operation,
    ensures
        r is Ok ==> grew(*old(prelude), *final(prelude), ops_m(clause_body_m(*c))),
        match op_clause_m(*c, env@, name_set(fns@)) {
            Ok(m) => r matches Ok(x) && clause_view(x) == m,
            Err(e) => r matches Err(y) && y@ == e,
        },
    decreases size_m(clause_body_m(*c)), 2nat,
{
    match c {
        HandleClause::Operation { effect, op, param, kont, body, .. } => {
            if !str_eq(op.node.as_str(), "op") {
                return Err(ElaborateError::new(op.span, "reduced core supports only operation name `op`"));
            }
            let op_param = pattern_binder(param, "_p")?;
            let op_k = pattern_binder(kont, "_k")?;
            let mut op_env = env.duplicate();
            op_env.add_var(op_param.as_str());
            if !str_eq(op_k.as_str(), "_k") {
                op_env.add_cont(op_k.as_str());
            }
            let b = lower_expr(body, &op_env, fns, spans, prelude)?;
            Ok(
                OpClause {
                    op_label: Label::intern(effect.node.as_str()),
                    op_param,
                    op_k,
                    op_body: Box::new(b),
                },
            )
        },
        _ => Err(ElaborateError::new(Span { start: 0, end: 0 }, "")),
    }
}

#[verifier::rlimit(40)]
fn lower_op_clauses(cs: &Vec<HandleClause>, env: &LEnv, fns: &Vec<String>, spans: &mut SpanTable, prelude: &mut PreludeSet) -> (r:
    Result<Vec<OpClause>, ElaborateError>)
    ensures
        r is Ok ==> grew(*old(prelude), *final(prelude), ops_op_clauses_m(cs@)),
        match lower_op_clauses_m(cs@, env@, name_set(fns@)) {
            Ok(ops) => r matches Ok(v) && clauses_view(v@) == ops,
            Err(e) => r matches Err(y) && y@ == e,
        },
    decreases clause_sizes_m(cs@), 3nat,
{
    let ghost fset = name_set(fns@);
    let ghost p0 = *prelude;
    let mut out: Vec<OpClause> = Vec::new();
    let mut i: usize = 0;
    proof {
        assert(cs@.subrange(0, 0) =~= Seq::<HandleClause>::empty());
    }
    while i < cs.len()
        invariant
            i <= cs@.len(),
            fset == name_set(fns@),
            lower_op_clauses_m(cs@.subrange(0, i as int), env@, fset) == Ok::<
                Seq<OpClauseM>,
                ElabErrM,
            >(clauses_view(out@)),
            p0 == *old(prelude),
            grew(p0, *prelude, ops_op_clauses_m(cs@.subrange(0, i as int))),
        decreases cs@.len() - i,
    {
        proof {
            lemma_ops_prefix(cs@, i as int, env@, fset);
            lemma_clause_sizes_elem(cs@, i as int);
            crate::elaborate::lower::lemma_size_pos(clause_body_m(cs@[i as int]));
            assert(cs@.subrange(0, i + 1).drop_last() =~= cs@.subrange(0, i as int));
            assert(cs@.subrange(0, i + 1).last() == cs@[i as int]);
        }
        let is_op = match &cs[i] {
            HandleClause::Operation { .. } => true,
            _ => false,
        };
        if is_op {
            match lower_op_clause(&cs[i], env, fns, spans, prelude) {
                Ok(c) => {
                    let ghost before = out@;
                    out.push(c);
                    proof {
                        assert(out@.drop_last() =~= before);
                    }
                },
                Err(e) => {
                    proof {
                        lemma_ops_err(cs@, i as int + 1, env@, fset);
                    }
                    return Err(e);
                },
            }
        }
        i += 1;
    }
    proof {
        assert(cs@.subrange(0, cs@.len() as int) =~= cs@);
    }
    Ok(out)
}

/// `handle body { return(x) -> r; E.op(p), k -> b; ... }`: the last return clause counts.
fn lower_handle(expr: &Expr, env: &LEnv, fns: &Vec<String>, spans: &mut SpanTable, prelude: &mut PreludeSet) -> (r: Result<
    Term,
    ElaborateError,
>)
    requires
        expr.kind is Handle,
    ensures
        r is Ok ==> grew(*old(prelude), *final(prelude), ops_m(*expr)),
        lowered(r, lower_m(*expr, env@, name_set(fns@))),
    decreases size_m(*expr), 0nat,
{
    match &expr.kind {
        ExprKind::Handle { body, clauses } => {
            let ghost cs = clauses@;
            let mut ret: Option<usize> = None;
            let mut has_op = false;
            let mut i: usize = 0;
            proof {
                assert(cs.subrange(0, 0) =~= Seq::<HandleClause>::empty());
            }
            while i < clauses.len()
                invariant
                    i <= cs.len(),
                    cs == clauses@,
                    match ret {
                        Some(k) => last_return_m(cs.subrange(0, i as int)) == Some(k as int),
                        None => last_return_m(cs.subrange(0, i as int)) is None,
                    },
                    has_op == exists|j: int| 0 <= j < i && (#[trigger] cs[j]) is Operation,
                decreases cs.len() - i,
            {
                proof {
                    assert(cs.subrange(0, i + 1).drop_last() =~= cs.subrange(0, i as int));
                    assert(cs.subrange(0, i + 1).last() == cs[i as int]);
                }
                match &clauses[i] {
                    HandleClause::Return { .. } => {
                        ret = Some(i);
                    },
                    HandleClause::Operation { .. } => {
                        has_op = true;
                    },
                }
                i += 1;
            }
            proof {
                assert(cs.subrange(0, cs.len() as int) =~= cs);
                lemma_last_return(cs);
            }
            let k = match ret {
                Some(k) => k,
                None => {
                    return Err(ElaborateError::new(expr.span, "handler requires a return clause in the reduced surface"));
                },
            };
            if !has_op {
                return Err(
                    ElaborateError::new(
                        expr.span,
                        "handler requires at least one operation clause in the reduced surface",
                    ),
                );
            }
            proof {
                lemma_clause_sizes_elem(cs, k as int);
            }
            assert(last_return_m(cs) == Some(k as int));
            assert(has_op_clause_m(cs));
            let ops = lower_op_clauses(clauses, env, fns, spans, prelude)?;
            let b = lower_expr(body, env, fns, spans, prelude)?;
            match &clauses[k] {
                HandleClause::Return { var, body: ret_body, .. } => {
                    let mut ret_env = env.duplicate();
                    ret_env.add_var(var.node.as_str());
                    let rb = lower_expr(ret_body, &ret_env, fns, spans, prelude)?;
                    let handler = Handler {
                        return_var: owned(var.node.as_str()),
                        return_body: Box::new(rb),
                        clauses: ops,
                    };
                    assert(handler@ == HandlerM {
                        return_var: var.node@,
                        return_body: Box::new(rb@),
                        clauses: clauses_view(handler.clauses@),
                    });
                    let t = Term::Handle { body: Box::new(b), handler };
                    assert(t@ == TermM::Handle { body: Box::new(b@), handler: handler@ });
                    Ok(t)
                },
                _ => Err(ElaborateError::new(expr.span, "")),
            }
        },
        _ => Err(ElaborateError::new(expr.span, "")),
    }
}

} // verus!
