//! The surface pretty-printer: programs back to source text.

use vstd::prelude::*;

use crate::elaborate::lower::{
    arm_sizes_m, binding_sizes_m, clause_body_m, clause_sizes_m, lemma_arm_sizes_elem,
    lemma_binding_sizes_elem, lemma_clause_sizes_elem, lemma_size_pos, lemma_sizes_elem, size_m,
    sizes_m,
};
use crate::surface::ast::{
    BinaryOp, Binding, Boundedness, CaseArm, Decl, EffectDecl, Expr, ExprKind, FnDecl,
    HandleClause, Param, Pattern, PrefixOp, Program, TypeExpr,
};
use crate::text::{decimal, decimal_m, owned, push};

verus! {

broadcast use vstd::std_specs::vec::group_vec_axioms, vstd::seq::group_seq_axioms;

// ---------------------------------------------------------------------------------------
// The text of each construct.
pub open spec fn type_text_m(t: TypeExpr) -> Seq<char>
    decreases t,
{
    match t {
        TypeExpr::Unit(_) => "Unit"@,
        TypeExpr::Nat(_) => "Nat"@,
        TypeExpr::Array(_) => "Array"@,
        TypeExpr::Unique(inner, _) => "^"@ + type_text_m(*inner),
        TypeExpr::Arrow(a, b, _) => type_text_m(*a) + " -> "@ + type_text_m(*b),
    }
}

pub open spec fn pattern_text_m(p: Pattern) -> Seq<char> {
    match p {
        Pattern::Zero(_) => "0"@,
        Pattern::Bind(name) => name.node@,
        Pattern::Wildcard(_) => "_"@,
    }
}

pub open spec fn binary_text_m(op: BinaryOp) -> Seq<char> {
    match op {
        BinaryOp::Add => "+"@,
        BinaryOp::Sub => "-"@,
        BinaryOp::Mul => "*"@,
    }
}

pub open spec fn prefix_text_m(op: PrefixOp) -> Seq<char> {
    match op {
        PrefixOp::Move => "move"@,
        PrefixOp::Inplace => "inplace"@,
        PrefixOp::Freeze => "freeze"@,
    }
}

/// The source text of an expression; binary operations are parenthesised.
pub open spec fn expr_text_m(e: Expr) -> Seq<char>
    decreases size_m(e), 1nat,
{
    match e.kind {
        ExprKind::Unit => "()"@,
        ExprKind::Nat(v) => decimal_m(v as nat),
        ExprKind::Var(name) => name@,
        ExprKind::Call { callee, args } => expr_text_m(*callee) + "("@ + exprs_text_m(args@) + ")"@,
        ExprKind::QualifiedCall { effect, op, args } => effect@ + "."@ + op@ + "("@ + exprs_text_m(
            args@,
        ) + ")"@,
        ExprKind::Binary { op, lhs, rhs } => "("@ + expr_text_m(*lhs) + " "@ + binary_text_m(op)
            + " "@ + expr_text_m(*rhs) + ")"@,
        ExprKind::Pipe { lhs, rhs } => expr_text_m(*lhs) + " |> "@ + expr_text_m(*rhs),
        ExprKind::Block { bindings, result } => "{ "@ + (if bindings@.len() == 0 {
            expr_text_m(*result)
        } else {
            bindings_text_m(bindings@) + "; "@ + expr_text_m(*result)
        }) + " }"@,
        ExprKind::CaseNat { scrutinee, arms } => "case "@ + expr_text_m(*scrutinee) + " { "@
            + arms_text_m(arms@) + " }"@,
        ExprKind::Handle { body, clauses } => "handle "@ + expr_text_m(*body) + " { "@
            + clauses_text_m(clauses@) + " }"@,
        ExprKind::Prefix { op, expr: inner } => prefix_text_m(op) + " "@ + match inner.kind {
            ExprKind::Pipe { .. } | ExprKind::Binary { .. } => "("@ + expr_text_m(*inner) + ")"@,
            _ => expr_text_m(*inner),
        },
    }
}

/// Expressions separated by `, `.
pub open spec fn exprs_text_m(s: Seq<Expr>) -> Seq<char>
    decreases sizes_m(s), 2nat,
{
    if s.len() == 0 {
        Seq::empty()
    } else {
        proof {
            lemma_size_pos(s.last());
        }
        if s.len() == 1 {
            proof {
                lemma_sizes_elem(s, 0);
            }
            expr_text_m(s[0])
        } else {
            exprs_text_m(s.drop_last()) + ", "@ + expr_text_m(s.last())
        }
    }
}

/// `name = expr` for each binding, separated by `; `.
pub open spec fn bindings_text_m(s: Seq<Binding>) -> Seq<char>
    decreases binding_sizes_m(s), 2nat,
{
    if s.len() == 0 {
        Seq::empty()
    } else {
        proof {
            lemma_size_pos(s.last().expr);
        }
        if s.len() == 1 {
            proof {
                lemma_binding_sizes_elem(s, 0);
            }
            s[0].name.node@ + " = "@ + expr_text_m(s[0].expr)
        } else {
            bindings_text_m(s.drop_last()) + "; "@ + s.last().name.node@ + " = "@ + expr_text_m(
                s.last().expr,
            )
        }
    }
}

/// `pattern -> body` for each arm, separated by `; `.
pub open spec fn arms_text_m(s: Seq<CaseArm>) -> Seq<char>
    decreases arm_sizes_m(s), 2nat,
{
    if s.len() == 0 {
        Seq::empty()
    } else {
        proof {
            lemma_size_pos(s.last().body);
        }
        if s.len() == 1 {
            proof {
                lemma_arm_sizes_elem(s, 0);
            }
            pattern_text_m(s[0].pattern) + " -> "@ + expr_text_m(s[0].body)
        } else {
            arms_text_m(s.drop_last()) + "; "@ + pattern_text_m(s.last().pattern) + " -> "@
                + expr_text_m(s.last().body)
        }
    }
}

pub open spec fn clause_text_m(c: HandleClause) -> Seq<char>
    decreases size_m(clause_body_m(c)), 2nat,
{
    match c {
        HandleClause::Return { var, body, .. } => "return("@ + var.node@ + ") -> "@ + expr_text_m(body),
        HandleClause::Operation { effect, op, param, kont, body, .. } => effect.node@ + "."@
            + op.node@ + "("@ + pattern_text_m(param) + "), "@ + pattern_text_m(kont) + " -> "@
            + expr_text_m(body),
    }
}

/// Handler clauses separated by `; `.
pub open spec fn clauses_text_m(s: Seq<HandleClause>) -> Seq<char>
    decreases clause_sizes_m(s), 3nat,
{
    if s.len() == 0 {
        Seq::empty()
    } else {
        proof {
            lemma_size_pos(clause_body_m(s.last()));
        }
        if s.len() == 1 {
            proof {
                lemma_clause_sizes_elem(s, 0);
            }
            clause_text_m(s[0])
        } else {
            clauses_text_m(s.drop_last()) + "; "@ + clause_text_m(s.last())
        }
    }
}

/// `name: type` for each parameter, separated by `, `.
pub open spec fn params_text_m(s: Seq<Param>) -> Seq<char>
    decreases s.len(),
{
    if s.len() == 0 {
        Seq::empty()
    } else if s.len() == 1 {
        s[0].name.node@ + ": "@ + type_text_m(s[0].ty)
    } else {
        params_text_m(s.drop_last()) + ", "@ + s.last().name.node@ + ": "@ + type_text_m(
            s.last().ty,
        )
    }
}

pub open spec fn effect_text_m(e: EffectDecl) -> Seq<char> {
    "effect "@ + e.name.node@ + " { "@ + e.op.node@ + "("@ + e.param.name.node@ + ": "@
        + type_text_m(e.param.ty) + ") -> "@ + type_text_m(e.ret) + " }"@
}

pub open spec fn bound_text_m(b: Boundedness) -> Seq<char> {
    match b {
        Boundedness::StructuralDescent => Seq::empty(),
        Boundedness::Measure(e) => " measure "@ + expr_text_m(e),
        Boundedness::Div(_) => " div"@,
    }
}

pub open spec fn fn_text_m(f: FnDecl) -> Seq<char> {
    (if f.public {
        "pub "@
    } else {
        Seq::empty()
    }) + "fn "@ + f.name.node@ + "("@ + params_text_m(f.params@) + ") -> "@ + type_text_m(f.ret) + (
    if f.effects is Some {
        " ! {L}"@
    } else {
        Seq::empty()
    }) + bound_text_m(f.boundedness) + " = "@ + expr_text_m(f.body)
}

pub open spec fn decl_text_m(d: Decl) -> Seq<char> {
    match d {
        Decl::Effect(e) => effect_text_m(e),
        Decl::Fn(f) => fn_text_m(f),
    }
}

/// Each declaration followed by a blank line.
pub open spec fn program_text_m(ds: Seq<Decl>) -> Seq<char>
    decreases ds.len(),
{
    if ds.len() == 0 {
        Seq::empty()
    } else {
        program_text_m(ds.drop_last()) + decl_text_m(ds.last()) + "\n\n"@
    }
}

// ---------------------------------------------------------------------------------------
// Printing.
fn type_text(t: &TypeExpr, out: &mut String)
    ensures
        final(out)@ == old(out)@ + type_text_m(*t),
    decreases t,
{
    match t {
        TypeExpr::Unit(_) => push(out, "Unit"),
        TypeExpr::Nat(_) => push(out, "Nat"),
        TypeExpr::Array(_) => push(out, "Array"),
        TypeExpr::Unique(inner, _) => {
            push(out, "^");
            type_text(inner, out);
        },
        TypeExpr::Arrow(a, b, _) => {
            type_text(a, out);
            push(out, " -> ");
            type_text(b, out);
        },
    }
}

fn pattern_text(p: &Pattern, out: &mut String)
    ensures
        final(out)@ == old(out)@ + pattern_text_m(*p),
{
    match p {
        Pattern::Zero(_) => push(out, "0"),
        Pattern::Bind(name) => push(out, name.node.as_str()),
        Pattern::Wildcard(_) => push(out, "_"),
    }
}

fn expr_text(e: &Expr, out: &mut String)
    ensures
        final(out)@ == old(out)@ + expr_text_m(*e),
    decreases size_m(*e), 1nat,
{
    let ghost start = out@;
    match &e.kind {
        ExprKind::Unit => push(out, "()"),
        ExprKind::Nat(v) => {
            let digits = decimal(*v);
            push(out, digits.as_str());
        },
        ExprKind::Var(name) => push(out, name.as_str()),
        ExprKind::Call { callee, args } => {
            expr_text(callee, out);
            push(out, "(");
            exprs_text(args, out);
            push(out, ")");
        },
        ExprKind::QualifiedCall { effect, op, args } => {
            push(out, effect.as_str());
            push(out, ".");
            push(out, op.as_str());
            push(out, "(");
            exprs_text(args, out);
            push(out, ")");
        },
        ExprKind::Binary { op, lhs, rhs } => {
            push(out, "(");
            expr_text(lhs, out);
            push(out, " ");
            match op {
                BinaryOp::Add => push(out, "+"),
                BinaryOp::Sub => push(out, "-"),
                BinaryOp::Mul => push(out, "*"),
            }
            push(out, " ");
            expr_text(rhs, out);
            push(out, ")");
        },
        ExprKind::Pipe { lhs, rhs } => {
            expr_text(lhs, out);
            push(out, " |> ");
            expr_text(rhs, out);
        },
        ExprKind::Block { bindings, result } => {
            push(out, "{ ");
            if bindings.len() > 0 {
                bindings_text(bindings, out);
                push(out, "; ");
            }
            expr_text(result, out);
            push(out, " }");
        },
        ExprKind::CaseNat { scrutinee, arms } => {
            push(out, "case ");
            expr_text(scrutinee, out);
            push(out, " { ");
            arms_text(arms, out);
            push(out, " }");
        },
        ExprKind::Handle { body, clauses } => {
            push(out, "handle ");
            expr_text(body, out);
            push(out, " { ");
            clauses_text(clauses, out);
            push(out, " }");
        },
        ExprKind::Prefix { op, expr: inner } => {
            match op {
                PrefixOp::Move => push(out, "move"),
                PrefixOp::Inplace => push(out, "inplace"),
                PrefixOp::Freeze => push(out, "freeze"),
            }
            push(out, " ");
            match &inner.kind {
                ExprKind::Pipe { .. } | ExprKind::Binary { .. } => {
                    push(out, "(");
                    expr_text(inner, out);
                    push(out, ")");
                },
                _ => expr_text(inner, out),
            }
        },
    }
    proof {
        assert(out@ =~= start + expr_text_m(*e));
    }
}

fn exprs_text(s: &Vec<Expr>, out: &mut String)
    ensures
        final(out)@ == old(out)@ + exprs_text_m(s@),
    decreases sizes_m(s@), 2nat,
{
    let ghost start = out@;
    let mut i: usize = 0;
    proof {
        assert(s@.subrange(0, 0) =~= Seq::<Expr>::empty());
    }
    while i < s.len()
        invariant
            i <= s@.len(),
            out@ == start + exprs_text_m(s@.subrange(0, i as int)),
        decreases s@.len() - i,
    {
        proof {
            lemma_sizes_elem(s@, i as int);
            let next = s@.subrange(0, i as int + 1);
            assert(next.drop_last() =~= s@.subrange(0, i as int));
            assert(next.last() == s@[i as int]);
        }
        if i > 0 {
            push(out, ", ");
        }
        expr_text(&s[i], out);
        proof {
            let next = s@.subrange(0, i as int + 1);
            if i == 0 {
                assert(next[0] == s@[0]);
            }
            assert(out@ =~= start + exprs_text_m(next));
        }
        i += 1;
    }
    proof {
        assert(s@.subrange(0, s@.len() as int) =~= s@);
    }
}

fn bindings_text(s: &Vec<Binding>, out: &mut String)
    ensures
        final(out)@ == old(out)@ + bindings_text_m(s@),
    decreases binding_sizes_m(s@), 2nat,
{
    let ghost start = out@;
    let mut i: usize = 0;
    proof {
        assert(s@.subrange(0, 0) =~= Seq::<Binding>::empty());
    }
    while i < s.len()
        invariant
            i <= s@.len(),
            out@ == start + bindings_text_m(s@.subrange(0, i as int)),
        decreases s@.len() - i,
    {
        proof {
            lemma_binding_sizes_elem(s@, i as int);
            let next = s@.subrange(0, i as int + 1);
            assert(next.drop_last() =~= s@.subrange(0, i as int));
            assert(next.last() == s@[i as int]);
        }
        if i > 0 {
            push(out, "; ");
        }
        push(out, s[i].name.node.as_str());
        push(out, " = ");
        expr_text(&s[i].expr, out);
        proof {
            let next = s@.subrange(0, i as int + 1);
            if i == 0 {
                assert(next[0] == s@[0]);
            }
            assert(out@ =~= start + bindings_text_m(next));
        }
        i += 1;
    }
    proof {
        assert(s@.subrange(0, s@.len() as int) =~= s@);
    }
}

fn arms_text(s: &Vec<CaseArm>, out: &mut String)
    ensures
        final(out)@ == old(out)@ + arms_text_m(s@),
    decreases arm_sizes_m(s@), 2nat,
{
    let ghost start = out@;
    let mut i: usize = 0;
    proof {
        assert(s@.subrange(0, 0) =~= Seq::<CaseArm>::empty());
    }
    while i < s.len()
        invariant
            i <= s@.len(),
            out@ == start + arms_text_m(s@.subrange(0, i as int)),
        decreases s@.len() - i,
    {
        proof {
            lemma_arm_sizes_elem(s@, i as int);
            let next = s@.subrange(0, i as int + 1);
            assert(next.drop_last() =~= s@.subrange(0, i as int));
            assert(next.last() == s@[i as int]);
        }
        if i > 0 {
            push(out, "; ");
        }
        pattern_text(&s[i].pattern, out);
        push(out, " -> ");
        expr_text(&s[i].body, out);
        proof {
            let next = s@.subrange(0, i as int + 1);
            if i == 0 {
                assert(next[0] == s@[0]);
            }
            assert(out@ =~= start + arms_text_m(next));
        }
        i += 1;
    }
    proof {
        assert(s@.subrange(0, s@.len() as int) =~= s@);
    }
}

fn clause_text(c: &HandleClause, out: &mut String)
    ensures
        final(out)@ == old(out)@ + clause_text_m(*c),
    decreases size_m(clause_body_m(*c)), 2nat,
{
    let ghost start = out@;
    match c {
        HandleClause::Return { var, body, .. } => {
            push(out, "return(");
            push(out, var.node.as_str());
            push(out, ") -> ");
            expr_text(body, out);
        },
        HandleClause::Operation { effect, op, param, kont, body, .. } => {
            push(out, effect.node.as_str());
            push(out, ".");
            push(out, op.node.as_str());
            push(out, "(");
            pattern_text(param, out);
            push(out, "), ");
            pattern_text(kont, out);
            push(out, " -> ");
            expr_text(body, out);
        },
    }
    proof {
        assert(out@ =~= start + clause_text_m(*c));
    }
}

fn clauses_text(s: &Vec<HandleClause>, out: &mut String)
    ensures
        final(out)@ == old(out)@ + clauses_text_m(s@),
    decreases clause_sizes_m(s@), 3nat,
{
    let ghost start = out@;
    let mut i: usize = 0;
    proof {
        assert(s@.subrange(0, 0) =~= Seq::<HandleClause>::empty());
    }
    while i < s.len()
        invariant
            i <= s@.len(),
            out@ == start + clauses_text_m(s@.subrange(0, i as int)),
        decreases s@.len() - i,
    {
        proof {
            lemma_clause_sizes_elem(s@, i as int);
            let next = s@.subrange(0, i as int + 1);
            assert(next.drop_last() =~= s@.subrange(0, i as int));
            assert(next.last() == s@[i as int]);
        }
        if i > 0 {
            push(out, "; ");
        }
        clause_text(&s[i], out);
        proof {
            let next = s@.subrange(0, i as int + 1);
            if i == 0 {
                assert(next[0] == s@[0]);
            }
            assert(out@ =~= start + clauses_text_m(next));
        }
        i += 1;
    }
    proof {
        assert(s@.subrange(0, s@.len() as int) =~= s@);
    }
}

fn params_text(s: &Vec<Param>, out: &mut String)
    ensures
        final(out)@ == old(out)@ + params_text_m(s@),
{
    let ghost start = out@;
    let mut i: usize = 0;
    proof {
        assert(s@.subrange(0, 0) =~= Seq::<Param>::empty());
    }
    while i < s.len()
        invariant
            i <= s@.len(),
            out@ == start + params_text_m(s@.subrange(0, i as int)),
        decreases s@.len() - i,
    {
        proof {
            let next = s@.subrange(0, i as int + 1);
            assert(next.drop_last() =~= s@.subrange(0, i as int));
            assert(next.last() == s@[i as int]);
        }
        if i > 0 {
            push(out, ", ");
        }
        push(out, s[i].name.node.as_str());
        push(out, ": ");
        type_text(&s[i].ty, out);
        proof {
            let next = s@.subrange(0, i as int + 1);
            if i == 0 {
                assert(next[0] == s@[0]);
            }
            assert(out@ =~= start + params_text_m(next));
        }
        i += 1;
    }
    proof {
        assert(s@.subrange(0, s@.len() as int) =~= s@);
    }
}

fn effect_text(e: &EffectDecl, out: &mut String)
    ensures
        final(out)@ == old(out)@ + effect_text_m(*e),
{
    let ghost start = out@;
    push(out, "effect ");
    push(out, e.name.node.as_str());
    push(out, " { ");
    push(out, e.op.node.as_str());
    push(out, "(");
    push(out, e.param.name.node.as_str());
    push(out, ": ");
    type_text(&e.param.ty, out);
    push(out, ") -> ");
    type_text(&e.ret, out);
    push(out, " }");
    proof {
        assert(out@ =~= start + effect_text_m(*e));
    }
}

fn bound_text(b: &Boundedness, out: &mut String)
    ensures
        final(out)@ == old(out)@ + bound_text_m(*b),
{
    match b {
        Boundedness::StructuralDescent => {
            proof {
                assert(out@ =~= out@ + Seq::<char>::empty());
            }
        },
        Boundedness::Measure(e) => {
            let ghost start = out@;
            push(out, " measure ");
            expr_text(e, out);
            proof {
                assert(out@ =~= start + bound_text_m(*b));
            }
        },
        Boundedness::Div(_) => push(out, " div"),
    }
}

fn fn_text(f: &FnDecl, out: &mut String)
    ensures
        final(out)@ == old(out)@ + fn_text_m(*f),
{
    let ghost start = out@;
    if f.public {
        push(out, "pub ");
    }
    let ghost a = out@;
    push(out, "fn ");
    push(out, f.name.node.as_str());
    push(out, "(");
    params_text(&f.params, out);
    push(out, ") -> ");
    type_text(&f.ret, out);
    let ghost b = out@;
    if f.effects.is_some() {
        push(out, " ! {L}");
    }
    let ghost c = out@;
    bound_text(&f.boundedness, out);
    push(out, " = ");
    expr_text(&f.body, out);
    proof {
        assert(out@ =~= start + fn_text_m(*f));
    }
}

fn decl_text(d: &Decl, out: &mut String)
    ensures
        final(out)@ == old(out)@ + decl_text_m(*d),
{
    match d {
        Decl::Effect(e) => effect_text(e, out),
        Decl::Fn(f) => fn_text(f, out),
    }
}

/// The source text of a program: each declaration followed by a blank line.
pub fn pretty_program(program: &Program) -> (r: String)
    ensures
        r@ == program_text_m(program.decls@),
{
    let mut out = owned("");
    proof {
        reveal_strlit("");
        assert(program.decls@.subrange(0, 0) =~= Seq::<Decl>::empty());
    }
    let mut i: usize = 0;
    while i < program.decls.len()
        invariant
            i <= program.decls@.len(),
            out@ == program_text_m(program.decls@.subrange(0, i as int)),
        decreases program.decls@.len() - i,
    {
        proof {
            let next = program.decls@.subrange(0, i as int + 1);
            assert(next.drop_last() =~= program.decls@.subrange(0, i as int));
            assert(next.last() == program.decls@[i as int]);
        }
        decl_text(&program.decls[i], &mut out);
        push(&mut out, "\n\n");
        i += 1;
    }
    proof {
        assert(program.decls@.subrange(0, program.decls@.len() as int) =~= program.decls@);
    }
    out
}

} // verus!
