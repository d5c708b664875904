//! Textual rendering of core types and terms, as used in diagnostics.
//!
//! Each rendering is specified over the mathematical model: `type_text`, `term_text` and
//! their helpers say exactly which characters the executable renderers produce.

use vstd::prelude::*;

use crate::core_ast::{
    clause_view, clauses_view, binding_view, bindings_view, lemma_bindings_view,
    lemma_clauses_view, lemma_terms_view, term_view, terms_view, ContId, CoverageTag,
    FixBinding, FixBindingM, Handler, HandlerM, OpClause, OpClauseM, RecursionTag, Term, TermM,
    Type,
};
use crate::text::{decimal, decimal_m, owned, push};

verus! {

broadcast use vstd::std_specs::vec::group_vec_axioms, vstd::seq::group_seq_axioms;

/// `Unit`, `Nat`, `Array`, `(a -> b)` and `Cont[a,b]`.
pub open spec fn type_text(t: Type) -> Seq<char>
    decreases t,
{
    match t {
        Type::Unit => "Unit"@,
        Type::Nat => "Nat"@,
        Type::Array => "Array"@,
        Type::Arrow(a, r) => "("@ + type_text(*a) + " -> "@ + type_text(*r) + ")"@,
        Type::Cont(a, r) => "Cont["@ + type_text(*a) + ","@ + type_text(*r) + "]"@,
    }
}

/// Name of a recursion tag.
pub open spec fn tag_text(tag: RecursionTag) -> Seq<char> {
    match tag {
        RecursionTag::StructuralDescent => "Structural"@,
        RecursionTag::Measure => "Measure"@,
        RecursionTag::Div => "Div"@,
    }
}

/// Name of a coverage tag.
pub open spec fn coverage_text(tag: CoverageTag) -> Seq<char> {
    match tag {
        CoverageTag::LambdaApp => "LambdaApp"@,
        CoverageTag::Let => "Let"@,
        CoverageTag::FixStructural => "FixStructural"@,
        CoverageTag::FixMeasure => "FixMeasure"@,
        CoverageTag::Perform => "Perform"@,
        CoverageTag::HandleResuming => "HandleResuming"@,
        CoverageTag::HandleDropped => "HandleDropped"@,
        CoverageTag::Array => "Array"@,
        CoverageTag::RecordAggregate => "RecordAggregate"@,
        CoverageTag::VariantAggregate => "VariantAggregate"@,
        CoverageTag::DestructureConsume => "DestructureConsume"@,
        CoverageTag::RecordFunctionalUpdate => "RecordFunctionalUpdate"@,
        CoverageTag::RecordInplaceUpdate => "RecordInplaceUpdate"@,
        CoverageTag::ConstructorPatternDescent => "ConstructorPatternDescent"@,
    }
}

/// `κ` followed by the continuation's number.
pub open spec fn cont_text(id: ContId) -> Seq<char> {
    "κ"@ + decimal_m(id.0 as nat)
}

/// The concrete syntax of a core term.
pub open spec fn term_text(t: TermM) -> Seq<char>
    decreases t, 0nat,
{
    match t {
        TermM::Var(x) => x,
        TermM::Unit => "()"@,
        TermM::Zero => "zero"@,
        TermM::Succ(i) => "succ("@ + term_text(*i) + ")"@,
        TermM::Array(vs) => "array["@ + elements_text(vs) + "]"@,
        TermM::MkArray(a, b) => "mkarray("@ + term_text(*a) + ", "@ + term_text(*b) + ")"@,
        TermM::ArrayGet(a, b) => "get("@ + term_text(*a) + ", "@ + term_text(*b) + ")"@,
        TermM::ArraySet(a, b, c) => "set("@ + term_text(*a) + ", "@ + term_text(*b) + ", "@
            + term_text(*c) + ")"@,
        TermM::ArrayLen(a) => "len("@ + term_text(*a) + ")"@,
        TermM::Move(i) => "move "@ + term_text(*i),
        TermM::Inplace(i) => "inplace "@ + term_text(*i),
        TermM::Freeze(i) => "freeze "@ + term_text(*i),
        TermM::Mark(tag, i) => "mark["@ + coverage_text(tag) + "]("@ + term_text(*i) + ")"@,
        TermM::CaseNat { scrutinee, zero_body, succ_var, succ_body } => "(case "@ + term_text(
            *scrutinee,
        ) + " { zero => "@ + term_text(*zero_body) + "; succ "@ + succ_var + " => "@
            + term_text(*succ_body) + " })"@,
        TermM::Lam { param, param_ty, body } => "(λ"@ + param + ":"@ + type_text(param_ty)
            + ". "@ + term_text(*body) + ")"@,
        TermM::App(f, a) => "("@ + term_text(*f) + " "@ + term_text(*a) + ")"@,
        TermM::Let { var, expr, body } => "(let "@ + var + " = "@ + term_text(*expr) + " in "@
            + term_text(*body) + ")"@,
        TermM::Fix { func, param, param_ty, body, tag } => "(fix["@ + tag_text(tag) + "] "@
            + func + ". λ"@ + param + ":"@ + type_text(param_ty) + ". "@ + term_text(*body)
            + ")"@,
        TermM::FixGroup { bindings, entry } => "(fix* entry "@ + entry + " {"@ + bindings_text(
            bindings,
        ) + " })"@,
        TermM::Perform(l, a) => "(perform "@ + l + " "@ + term_text(*a) + ")"@,
        TermM::Handle { body, handler } => "(handle "@ + term_text(*body) + " with "@
            + handler_text(handler) + ")"@,
        TermM::Resume { kont, arg } => "(resume "@ + term_text(*kont) + " "@ + term_text(*arg)
            + ")"@,
        TermM::Cont(id) => cont_text(id),
    }
}

/// Runtime array elements, separated by `, `.
pub open spec fn elements_text(s: Seq<TermM>) -> Seq<char>
    decreases s, 0nat,
{
    if s.len() == 0 {
        Seq::empty()
    } else if s.len() == 1 {
        term_text(s[0])
    } else {
        elements_text(s.drop_last()) + ", "@ + term_text(s.last())
    }
}

/// `{ return r -> body; L p k -> body ... }`.
pub open spec fn handler_text(h: HandlerM) -> Seq<char>
    decreases h, 0nat,
{
    "{ return "@ + h.return_var + " -> "@ + term_text(*h.return_body) + clauses_text(h.clauses)
        + " }"@
}

pub open spec fn clauses_text(s: Seq<OpClauseM>) -> Seq<char>
    decreases s, 0nat,
{
    if s.len() == 0 {
        Seq::empty()
    } else {
        clauses_text(s.drop_last()) + clause_text(s.last())
    }
}

pub open spec fn clause_text(c: OpClauseM) -> Seq<char>
    decreases c, 0nat,
{
    "; "@ + c.op_label + " "@ + c.op_param + " "@ + c.op_k + " -> "@ + term_text(*c.op_body)
}

pub open spec fn bindings_text(s: Seq<FixBindingM>) -> Seq<char>
    decreases s, 0nat,
{
    if s.len() == 0 {
        Seq::empty()
    } else {
        bindings_text(s.drop_last()) + binding_text(s.last())
    }
}

pub open spec fn binding_text(b: FixBindingM) -> Seq<char>
    decreases b, 0nat,
{
    " "@ + b.func + "["@ + tag_text(b.tag) + "] = λ"@ + b.param + ":"@ + type_text(b.param_ty)
        + ". "@ + term_text(*b.body) + ";"@
}

fn tag_name(tag: RecursionTag) -> (r: &'static str)
    ensures
        r@ == tag_text(tag),
{
    match tag {
        RecursionTag::StructuralDescent => "Structural",
        RecursionTag::Measure => "Measure",
        RecursionTag::Div => "Div",
    }
}

fn coverage_name(tag: CoverageTag) -> (r: &'static str)
    ensures
        r@ == coverage_text(tag),
{
    match tag {
        CoverageTag::LambdaApp => "LambdaApp",
        CoverageTag::Let => "Let",
        CoverageTag::FixStructural => "FixStructural",
        CoverageTag::FixMeasure => "FixMeasure",
        CoverageTag::Perform => "Perform",
        CoverageTag::HandleResuming => "HandleResuming",
        CoverageTag::HandleDropped => "HandleDropped",
        CoverageTag::Array => "Array",
        CoverageTag::RecordAggregate => "RecordAggregate",
        CoverageTag::VariantAggregate => "VariantAggregate",
        CoverageTag::DestructureConsume => "DestructureConsume",
        CoverageTag::RecordFunctionalUpdate => "RecordFunctionalUpdate",
        CoverageTag::RecordInplaceUpdate => "RecordInplaceUpdate",
        CoverageTag::ConstructorPatternDescent => "ConstructorPatternDescent",
    }
}

impl Type {
    /// The type's concrete syntax.
    pub fn to_text(&self) -> (r: String)
        ensures
            r@ == type_text(*self),
        decreases self,
    {
        match self {
            Type::Unit => owned("Unit"),
            Type::Nat => owned("Nat"),
            Type::Array => owned("Array"),
            Type::Arrow(a, b) => {
                let mut out = owned("(");
                push(&mut out, a.to_text().as_str());
                push(&mut out, " -> ");
                push(&mut out, b.to_text().as_str());
                push(&mut out, ")");
                out
            },
            Type::Cont(a, b) => {
                let mut out = owned("Cont[");
                push(&mut out, a.to_text().as_str());
                push(&mut out, ",");
                push(&mut out, b.to_text().as_str());
                push(&mut out, "]");
                out
            },
        }
    }
}

impl ContId {
    /// `κ` followed by the number.
    pub fn to_text(&self) -> (r: String)
        ensures
            r@ == cont_text(*self),
    {
        let mut out = owned("κ");
        push(&mut out, decimal(self.0).as_str());
        out
    }
}

/// `prefix inner suffix` as one string.
fn wrap(prefix: &str, inner: &str, suffix: &str) -> (r: String)
    ensures
        r@ == prefix@ + inner@ + suffix@,
{
    let mut out = owned(prefix);
    push(&mut out, inner);
    push(&mut out, suffix);
    out
}

impl Term {
    /// The term's concrete syntax.
    pub fn to_text(&self) -> (r: String)
        ensures
            r@ == term_text(self@),
        decreases self, 0nat,
    {
        match self {
            Term::Var(x) => owned(x.as_str()),
            Term::Unit => owned("()"),
            Term::Zero => owned("zero"),
            Term::Succ(i) => wrap("succ(", i.to_text().as_str(), ")"),
            Term::Array(vs) => {
                proof {
                    lemma_terms_view(vs@);
                }
                wrap("array[", elements_to_text(vs).as_str(), "]")
            },
            Term::MkArray(a, b) => {
                let mut out = wrap("mkarray(", a.to_text().as_str(), ", ");
                push(&mut out, b.to_text().as_str());
                push(&mut out, ")");
                out
            },
            Term::ArrayGet(a, b) => {
                let mut out = wrap("get(", a.to_text().as_str(), ", ");
                push(&mut out, b.to_text().as_str());
                push(&mut out, ")");
                out
            },
            Term::ArraySet(a, b, c) => {
                let mut out = wrap("set(", a.to_text().as_str(), ", ");
                push(&mut out, b.to_text().as_str());
                push(&mut out, ", ");
                push(&mut out, c.to_text().as_str());
                push(&mut out, ")");
                out
            },
            Term::ArrayLen(a) => wrap("len(", a.to_text().as_str(), ")"),
            Term::Move(i) => {
                let mut out = owned("move ");
                push(&mut out, i.to_text().as_str());
                out
            },
            Term::Inplace(i) => {
                let mut out = owned("inplace ");
                push(&mut out, i.to_text().as_str());
                out
            },
            Term::Freeze(i) => {
                let mut out = owned("freeze ");
                push(&mut out, i.to_text().as_str());
                out
            },
            Term::Mark(tag, i) => {
                let mut out = wrap("mark[", coverage_name(*tag), "](");
                push(&mut out, i.to_text().as_str());
                push(&mut out, ")");
                out
            },
            Term::CaseNat { scrutinee, zero_body, succ_var, succ_body } => {
                let mut out = wrap("(case ", scrutinee.to_text().as_str(), " { zero => ");
                push(&mut out, zero_body.to_text().as_str());
                push(&mut out, "; succ ");
                push(&mut out, succ_var.as_str());
                push(&mut out, " => ");
                push(&mut out, succ_body.to_text().as_str());
                push(&mut out, " })");
                out
            },
            Term::Lam { param, param_ty, body } => {
                let mut out = wrap("(λ", param.as_str(), ":");
                push(&mut out, param_ty.to_text().as_str());
                push(&mut out, ". ");
                push(&mut out, body.to_text().as_str());
                push(&mut out, ")");
                out
            },
            Term::App(f, a) => {
                let mut out = wrap("(", f.to_text().as_str(), " ");
                push(&mut out, a.to_text().as_str());
                push(&mut out, ")");
                out
            },
            Term::Let { var, expr, body } => {
                let mut out = wrap("(let ", var.as_str(), " = ");
                push(&mut out, expr.to_text().as_str());
                push(&mut out, " in ");
                push(&mut out, body.to_text().as_str());
                push(&mut out, ")");
                out
            },
            Term::Fix { func, param, param_ty, body, tag } => {
                let mut out = wrap("(fix[", tag_name(*tag), "] ");
                push(&mut out, func.as_str());
                push(&mut out, ". λ");
                push(&mut out, param.as_str());
                push(&mut out, ":");
                push(&mut out, param_ty.to_text().as_str());
                push(&mut out, ". ");
                push(&mut out, body.to_text().as_str());
                push(&mut out, ")");
                out
            },
            Term::FixGroup { bindings, entry } => {
                let mut out = wrap("(fix* entry ", entry.as_str(), " {");
                push(&mut out, bindings_to_text(bindings).as_str());
                push(&mut out, " })");
                out
            },
            Term::Perform(l, a) => {
                let mut out = wrap("(perform ", l.name(), " ");
                push(&mut out, a.to_text().as_str());
                push(&mut out, ")");
                out
            },
            Term::Handle { body, handler } => {
                let mut out = wrap("(handle ", body.to_text().as_str(), " with ");
                push(&mut out, handler.to_text().as_str());
                push(&mut out, ")");
                out
            },
            Term::Resume { kont, arg } => {
                let mut out = wrap("(resume ", kont.to_text().as_str(), " ");
                push(&mut out, arg.to_text().as_str());
                push(&mut out, ")");
                out
            },
            Term::Cont(id) => id.to_text(),
        }
    }
}

impl Handler {
    /// The handler's concrete syntax.
    pub fn to_text(&self) -> (r: String)
        ensures
            r@ == handler_text(self@),
        decreases self, 0nat,
    {
        let mut out = wrap("{ return ", self.return_var.as_str(), " -> ");
        push(&mut out, self.return_body.to_text().as_str());
        push(&mut out, clauses_to_text(&self.clauses).as_str());
        push(&mut out, " }");
        out
    }
}

fn elements_to_text(v: &Vec<Term>) -> (r: String)
    ensures
        r@ == elements_text(terms_view(v@)),
    decreases v, 1nat,
{
    proof {
        lemma_terms_view(v@);
    }
    let mut out = String::new();
    let mut i: usize = 0;
    while i < v.len()
        invariant
            i <= v@.len(),
            terms_view(v@).len() == v@.len(),
            forall|j: int| 0 <= j < v@.len() ==> #[trigger] terms_view(v@)[j] == term_view(v@[j]),
            out@ == elements_text(terms_view(v@).subrange(0, i as int)),
        decreases v@.len() - i,
    {
        proof {
            assert(decreases_to!(v => v@));
            assert(decreases_to!(v@ => v@[i as int]));
        }
        let piece = v[i].to_text();
        let ghost pre = terms_view(v@).subrange(0, i as int);
        let ghost next = terms_view(v@).subrange(0, i + 1);
        proof {
            assert(next.drop_last() =~= pre);
            assert(next.last() == term_view(v@[i as int]));
        }
        if i > 0 {
            push(&mut out, ", ");
        }
        push(&mut out, piece.as_str());
        proof {
            if i == 0 {
                assert(next.len() == 1);
                assert(out@ =~= elements_text(next));
            }
        }
        i += 1;
    }
    assert(terms_view(v@).subrange(0, v@.len() as int) =~= terms_view(v@));
    out
}

fn clauses_to_text(v: &Vec<OpClause>) -> (r: String)
    ensures
        r@ == clauses_text(clauses_view(v@)),
    decreases v, 1nat,
{
    proof {
        lemma_clauses_view(v@);
    }
    let mut out = String::new();
    let mut i: usize = 0;
    while i < v.len()
        invariant
            i <= v@.len(),
            clauses_view(v@).len() == v@.len(),
            forall|j: int| 0 <= j < v@.len() ==> #[trigger] clauses_view(v@)[j] == clause_view(
                v@[j],
            ),
            out@ == clauses_text(clauses_view(v@).subrange(0, i as int)),
        decreases v@.len() - i,
    {
        proof {
            assert(decreases_to!(v => v@));
            assert(decreases_to!(v@ => v@[i as int]));
        }
        let c = &v[i];
        let ghost pre = clauses_view(v@).subrange(0, i as int);
        let ghost next = clauses_view(v@).subrange(0, i + 1);
        proof {
            assert(next.drop_last() =~= pre);
            assert(next.last() == clause_view(v@[i as int]));
        }
        push(&mut out, "; ");
        push(&mut out, c.op_label.name());
        push(&mut out, " ");
        push(&mut out, c.op_param.as_str());
        push(&mut out, " ");
        push(&mut out, c.op_k.as_str());
        push(&mut out, " -> ");
        push(&mut out, c.op_body.to_text().as_str());
        proof {
            assert(out@ =~= clauses_text(pre) + clause_text(clause_view(v@[i as int])));
        }
        i += 1;
    }
    assert(clauses_view(v@).subrange(0, v@.len() as int) =~= clauses_view(v@));
    out
}

fn binding_to_text(b: &FixBinding) -> (r: String)
    ensures
        r@ == binding_text(binding_view(*b)),
    decreases b, 0nat,
{
    let mut out = wrap(" ", b.func.as_str(), "[");
    push(&mut out, tag_name(b.tag));
    push(&mut out, "] = λ");
    push(&mut out, b.param.as_str());
    push(&mut out, ":");
    push(&mut out, b.param_ty.to_text().as_str());
    push(&mut out, ". ");
    push(&mut out, b.body.to_text().as_str());
    push(&mut out, ";");
    out
}

fn bindings_to_text(v: &Vec<FixBinding>) -> (r: String)
    ensures
        r@ == bindings_text(bindings_view(v@)),
    decreases v, 1nat,
{
    proof {
        lemma_bindings_view(v@);
    }
    let mut out = String::new();
    let mut i: usize = 0;
    while i < v.len()
        invariant
            i <= v@.len(),
            bindings_view(v@).len() == v@.len(),
            forall|j: int| 0 <= j < v@.len() ==> #[trigger] bindings_view(v@)[j] == binding_view(
                v@[j],
            ),
            out@ == bindings_text(bindings_view(v@).subrange(0, i as int)),
        decreases v@.len() - i,
    {
        proof {
            assert(decreases_to!(v => v@));
            assert(decreases_to!(v@ => v@[i as int]));
        }
        let b = &v[i];
        let ghost pre = bindings_view(v@).subrange(0, i as int);
        let ghost next = bindings_view(v@).subrange(0, i + 1);
        proof {
            assert(next.drop_last() =~= pre);
            assert(next.last() == binding_view(v@[i as int]));
        }
        let piece = binding_to_text(b);
        push(&mut out, piece.as_str());
        i += 1;
    }
    assert(bindings_view(v@).subrange(0, v@.len() as int) =~= bindings_view(v@));
    out
}

} // verus!
