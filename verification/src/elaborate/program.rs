//! Elaboration of whole programs: declaration order, recursive groups, the prelude.

use vstd::prelude::*;
use vstd::string::StringSliceAdditionalSpecFns;

use crate::elaborate::lower::{
    arm_sizes_m, binding_sizes_m, clause_body_m, clause_sizes_m, lemma_arm_sizes_elem,
    lemma_binding_sizes_elem, lemma_clause_sizes_elem, lemma_size_pos, lemma_sizes_elem, size_m,
    sizes_m,
};
use crate::check::solve::{in_component, tarjan_order, UnknownId};
use crate::core_ast::{bindings_view, FixBinding, FixBindingM, RecursionTag, Term, TermM, Type};
use crate::elaborate::error::{ElabErrM, ElaborateError};
use crate::elaborate::lower::{
    agree, err_m, join_ops, lemma_lower_agree, lower_m, lower_type_m, no_ops, ops_m, wrap_lets_m,
    LEnvM, OpsM,
};
use crate::elaborate::lowering::{
    grew, lower_expr, lower_type, lowered, name_set, LEnv, PreludeSet, SpanTable,
};
use crate::elaborate::uniqueness::{check_surface_uniqueness, program_sigs_m, surface_unique_m};
use crate::surface::ast::{
    Binding, Boundedness, CaseArm, Decl, EffectDecl, Expr, ExprKind, FnDecl, HandleClause, Param,
    Program, Span,
};
use crate::text::{owned, str_eq};

verus! {

broadcast use vstd::std_specs::vec::group_vec_axioms, vstd::seq::group_seq_axioms;

// ---------------------------------------------------------------------------------------
// Which names an expression mentions.
/// `e` mentions `name` as a variable somewhere (binders are not looked at).
pub open spec fn mentions_m(e: Expr, name: Seq<char>) -> bool
    decreases size_m(e), 1nat,
{
    match e.kind {
        ExprKind::Var(x) => x@ == name,
        ExprKind::Unit | ExprKind::Nat(_) => false,
        ExprKind::Call { callee, args } => mentions_m(*callee, name) || mentions_seq_m(args@, name),
        ExprKind::QualifiedCall { args, .. } => mentions_seq_m(args@, name),
        ExprKind::Binary { lhs, rhs, .. } => mentions_m(*lhs, name) || mentions_m(*rhs, name),
        ExprKind::Pipe { lhs, rhs } => mentions_m(*lhs, name) || mentions_m(*rhs, name),
        ExprKind::Block { bindings, result } => mentions_bindings_m(bindings@, name) || mentions_m(
            *result,
            name,
        ),
        ExprKind::CaseNat { scrutinee, arms } => mentions_m(*scrutinee, name) || mentions_arms_m(
            arms@,
            name,
        ),
        ExprKind::Handle { body, clauses } => mentions_m(*body, name) || mentions_clauses_m(
            clauses@,
            name,
        ),
        ExprKind::Prefix { expr, .. } => mentions_m(*expr, name),
    }
}

pub open spec fn mentions_seq_m(s: Seq<Expr>, name: Seq<char>) -> bool
    decreases sizes_m(s), 2nat,
{
    if s.len() == 0 {
        false
    } else {
        proof {
            lemma_size_pos(s.last());
        }
        mentions_seq_m(s.drop_last(), name) || mentions_m(s.last(), name)
    }
}

pub open spec fn mentions_bindings_m(s: Seq<Binding>, name: Seq<char>) -> bool
    decreases binding_sizes_m(s), 2nat,
{
    if s.len() == 0 {
        false
    } else {
        proof {
            lemma_size_pos(s.last().expr);
        }
        mentions_bindings_m(s.drop_last(), name) || mentions_m(s.last().expr, name)
    }
}

pub open spec fn mentions_arms_m(s: Seq<CaseArm>, name: Seq<char>) -> bool
    decreases arm_sizes_m(s), 2nat,
{
    if s.len() == 0 {
        false
    } else {
        proof {
            lemma_size_pos(s.last().body);
        }
        mentions_arms_m(s.drop_last(), name) || mentions_m(s.last().body, name)
    }
}

pub open spec fn mentions_clauses_m(s: Seq<HandleClause>, name: Seq<char>) -> bool
    decreases clause_sizes_m(s), 2nat,
{
    if s.len() == 0 {
        false
    } else {
        proof {
            lemma_size_pos(clause_body_m(s.last()));
        }
        mentions_clauses_m(s.drop_last(), name) || mentions_m(clause_body_m(s.last()), name)
    }
}

/// Whether `expr` mentions `name`.
pub fn expr_mentions(expr: &Expr, name: &str) -> (r: bool)
    ensures
        r == mentions_m(*expr, name@),
    decreases size_m(*expr), 1nat,
{
    match &expr.kind {
        ExprKind::Var(found) => str_eq(found.as_str(), name),
        ExprKind::Unit | ExprKind::Nat(_) => false,
        ExprKind::Call { callee, args } => {
            let a = expr_mentions(callee, name);
            let b = seq_mentions(args, name);
            a || b
        },
        ExprKind::QualifiedCall { args, .. } => seq_mentions(args, name),
        ExprKind::Binary { lhs, rhs, .. } => {
            let a = expr_mentions(lhs, name);
            let b = expr_mentions(rhs, name);
            a || b
        },
        ExprKind::Pipe { lhs, rhs } => {
            let a = expr_mentions(lhs, name);
            let b = expr_mentions(rhs, name);
            a || b
        },
        ExprKind::Block { bindings, result } => {
            let a = bindings_mention(bindings, name);
            let b = expr_mentions(result, name);
            a || b
        },
        ExprKind::CaseNat { scrutinee, arms } => {
            let a = expr_mentions(scrutinee, name);
            let b = arms_mention(arms, name);
            a || b
        },
        ExprKind::Handle { body, clauses } => {
            let a = expr_mentions(body, name);
            let b = clauses_mention(clauses, name);
            a || b
        },
        ExprKind::Prefix { expr: inner, .. } => expr_mentions(inner, name),
    }
}

fn seq_mentions(args: &Vec<Expr>, name: &str) -> (r: bool)
    ensures
        r == mentions_seq_m(args@, name@),
    decreases sizes_m(args@), 2nat,
{
    let mut found = false;
    let mut i: usize = 0;
    while i < args.len()
        invariant
            i <= args@.len(),
            found == mentions_seq_m(args@.subrange(0, i as int), name@),
        decreases args@.len() - i,
    {
        proof {
            lemma_sizes_elem(args@, i as int);
        }
        let m = expr_mentions(&args[i], name);
        proof {
            let next = args@.subrange(0, i as int + 1);
            assert(next.drop_last() =~= args@.subrange(0, i as int));
            assert(next.last() == args@[i as int]);
        }
        found = found || m;
        i += 1;
    }
    proof {
        assert(args@.subrange(0, args@.len() as int) =~= args@);
    }
    found
}

fn bindings_mention(bs: &Vec<Binding>, name: &str) -> (r: bool)
    ensures
        r == mentions_bindings_m(bs@, name@),
    decreases binding_sizes_m(bs@), 2nat,
{
    let mut found = false;
    let mut i: usize = 0;
    while i < bs.len()
        invariant
            i <= bs@.len(),
            found == mentions_bindings_m(bs@.subrange(0, i as int), name@),
        decreases bs@.len() - i,
    {
        proof {
            lemma_binding_sizes_elem(bs@, i as int);
        }
        let m = expr_mentions(&bs[i].expr, name);
        proof {
            let next = bs@.subrange(0, i as int + 1);
            assert(next.drop_last() =~= bs@.subrange(0, i as int));
            assert(next.last() == bs@[i as int]);
        }
        found = found || m;
        i += 1;
    }
    proof {
        assert(bs@.subrange(0, bs@.len() as int) =~= bs@);
    }
    found
}

fn arms_mention(arms: &Vec<CaseArm>, name: &str) -> (r: bool)
    ensures
        r == mentions_arms_m(arms@, name@),
    decreases arm_sizes_m(arms@), 2nat,
{
    let mut found = false;
    let mut i: usize = 0;
    while i < arms.len()
        invariant
            i <= arms@.len(),
            found == mentions_arms_m(arms@.subrange(0, i as int), name@),
        decreases arms@.len() - i,
    {
        proof {
            lemma_arm_sizes_elem(arms@, i as int);
        }
        let m = expr_mentions(&arms[i].body, name);
        proof {
            let next = arms@.subrange(0, i as int + 1);
            assert(next.drop_last() =~= arms@.subrange(0, i as int));
            assert(next.last() == arms@[i as int]);
        }
        found = found || m;
        i += 1;
    }
    proof {
        assert(arms@.subrange(0, arms@.len() as int) =~= arms@);
    }
    found
}

fn clauses_mention(clauses: &Vec<HandleClause>, name: &str) -> (r: bool)
    ensures
        r == mentions_clauses_m(clauses@, name@),
    decreases clause_sizes_m(clauses@), 2nat,
{
    let mut found = false;
    let mut i: usize = 0;
    while i < clauses.len()
        invariant
            i <= clauses@.len(),
            found == mentions_clauses_m(clauses@.subrange(0, i as int), name@),
        decreases clauses@.len() - i,
    {
        proof {
            lemma_clause_sizes_elem(clauses@, i as int);
        }
        let body = match &clauses[i] {
            HandleClause::Return { body, .. } => body,
            HandleClause::Operation { body, .. } => body,
        };
        let m = expr_mentions(body, name);
        proof {
            let next = clauses@.subrange(0, i as int + 1);
            assert(next.drop_last() =~= clauses@.subrange(0, i as int));
            assert(next.last() == clauses@[i as int]);
        }
        found = found || m;
        i += 1;
    }
    proof {
        assert(clauses@.subrange(0, clauses@.len() as int) =~= clauses@);
    }
    found
}

// ---------------------------------------------------------------------------------------
// The order in which declarations are elaborated.
/// Byte-wise lexicographic order, the order of `String`.
pub open spec fn bytes_lt(a: Seq<u8>, b: Seq<u8>) -> bool
    decreases a.len(),
{
    if b.len() == 0 {
        false
    } else if a.len() == 0 {
        true
    } else if a[0] != b[0] {
        a[0] < b[0]
    } else {
        bytes_lt(a.drop_first(), b.drop_first())
    }
}

/// Whether `a` sorts before `b` as a `String` does.
fn name_lt(a: &str, b: &str) -> (r: bool)
    ensures
        r == bytes_lt(a.spec_bytes(), b.spec_bytes()),
{
    let x = a.as_bytes();
    let y = b.as_bytes();
    let mut i: usize = 0;
    proof {
        assert(x@.subrange(0, x@.len() as int) =~= x@);
        assert(y@.subrange(0, y@.len() as int) =~= y@);
    }
    while i < x.len() && i < y.len()
        invariant
            i <= x@.len(),
            i <= y@.len(),
            x@ == a.spec_bytes(),
            y@ == b.spec_bytes(),
            forall|j: int| 0 <= j < i ==> x@[j] == y@[j],
            bytes_lt(x@, y@) == bytes_lt(x@.subrange(i as int, x@.len() as int), y@.subrange(
                i as int,
                y@.len() as int,
            )),
        decreases x@.len() - i,
    {
        if x[i] != y[i] {
            proof {
                let xs = x@.subrange(i as int, x@.len() as int);
                let ys = y@.subrange(i as int, y@.len() as int);
                assert(xs[0] == x@[i as int]);
                assert(ys[0] == y@[i as int]);
            }
            return x[i] < y[i];
        }
        proof {
            let xs = x@.subrange(i as int, x@.len() as int);
            let ys = y@.subrange(i as int, y@.len() as int);
            assert(xs.drop_first() =~= x@.subrange(i as int + 1, x@.len() as int));
            assert(ys.drop_first() =~= y@.subrange(i as int + 1, y@.len() as int));
        }
        i += 1;
    }
    proof {
        let xs = x@.subrange(i as int, x@.len() as int);
        let ys = y@.subrange(i as int, y@.len() as int);
        if i == y@.len() {
            assert(ys.len() == 0);
        } else {
            assert(xs.len() == 0);
        }
    }
    i == x.len() && i < y.len()
}

/// The values of `c`, ascending.
fn sorted_ids(c: &Vec<UnknownId>) -> (r: Vec<usize>)
    ensures
        r@.len() == c@.len(),
        forall|a: int, b: int| 0 <= a < b < r@.len() ==> r@[a] <= r@[b],
        forall|x: usize| r@.contains(x) <==> c@.contains(UnknownId(x)),
{
    let mut out: Vec<usize> = Vec::new();
    let mut i: usize = 0;
    while i < c.len()
        invariant
            i <= c@.len(),
            out@.len() == i,
            forall|a: int, b: int| 0 <= a < b < out@.len() ==> out@[a] <= out@[b],
            forall|x: usize| out@.contains(x) <==> c@.subrange(0, i as int).contains(UnknownId(x)),
        decreases c@.len() - i,
    {
        let x = c[i].0;
        let mut pos: usize = 0;
        while pos < out.len() && out[pos] <= x
            invariant
                pos <= out@.len(),
                forall|a: int| 0 <= a < pos ==> out@[a] <= x,
            decreases out@.len() - pos,
        {
            pos += 1;
        }
        let ghost before = out@;
        out.insert(pos, x);
        proof {
            assert(out@ =~= before.subrange(0, pos as int).push(x) + before.subrange(
                pos as int,
                before.len() as int,
            ));
            assert forall|a: int, b: int| 0 <= a < b < out@.len() implies out@[a] <= out@[b] by {
                if b == pos as int {
                    assert(out@[a] == before[a]);
                } else if a == pos as int {
                    assert(out@[b] == before[b - 1]);
                    assert(before[pos as int] > x || pos == before.len());
                    assert(before[pos as int] <= before[b - 1] || b - 1 == pos as int);
                } else if a < pos as int && b > pos as int {
                    assert(out@[a] == before[a]);
                    assert(out@[b] == before[b - 1]);
                } else if b < pos as int {
                    assert(out@[a] == before[a]);
                    assert(out@[b] == before[b]);
                } else {
                    assert(out@[a] == before[a - 1]);
                    assert(out@[b] == before[b - 1]);
                }
            }
            let pre = c@.subrange(0, i as int);
            assert(c@.subrange(0, i as int + 1) =~= pre.push(UnknownId(x)));
            assert forall|y: usize| out@.contains(y) <==> pre.push(UnknownId(x)).contains(
                UnknownId(y),
            ) by {
                if out@.contains(y) {
                    let j = choose|j: int| 0 <= j < out@.len() && out@[j] == y;
                    if j == pos as int {
                        assert(pre.push(UnknownId(x))[pre.len() as int] == UnknownId(y));
                    } else if j < pos as int {
                        assert(before[j] == y);
                        assert(before.contains(y));
                        let k = choose|k: int| 0 <= k < pre.len() && pre[k] == UnknownId(y);
                        assert(pre.push(UnknownId(x))[k] == UnknownId(y));
                    } else {
                        assert(before[j - 1] == y);
                        assert(before.contains(y));
                        let k = choose|k: int| 0 <= k < pre.len() && pre[k] == UnknownId(y);
                        assert(pre.push(UnknownId(x))[k] == UnknownId(y));
                    }
                }
                if pre.push(UnknownId(x)).contains(UnknownId(y)) {
                    let k = choose|k: int| 0 <= k < pre.len() + 1 && pre.push(UnknownId(x))[k] == UnknownId(y);
                    if k == pre.len() {
                        assert(out@[pos as int] == y);
                    } else {
                        assert(pre.contains(UnknownId(y)));
                        assert(before.contains(y));
                        let j = choose|j: int| 0 <= j < before.len() && before[j] == y;
                        if j < pos as int {
                            assert(out@[j] == y);
                        } else {
                            assert(out@[j + 1] == y);
                        }
                    }
                }
            }
        }
        i += 1;
    }
    proof {
        assert(c@.subrange(0, c@.len() as int) =~= c@);
    }
    out
}

/// The positions of `funcs` in the order of their names, one for each name: the last
/// function of that name.
fn name_index(funcs: &Vec<&FnDecl>) -> (r: Vec<usize>)
    ensures
        forall|k: int| 0 <= k < r@.len() ==> #[trigger] r@[k] < funcs@.len(),
{
    let mut keys: Vec<usize> = Vec::new();
    let mut p: usize = 0;
    while p < funcs.len()
        invariant
            p <= funcs@.len(),
            forall|k: int| 0 <= k < keys@.len() ==> #[trigger] keys@[k] < p,
        decreases funcs@.len() - p,
    {
        let mut later = false;
        let mut q: usize = p + 1;
        while q < funcs.len()
            invariant
                p < q <= funcs@.len() || q == p + 1,
            decreases funcs@.len() - q,
        {
            if str_eq(funcs[q].name.node.as_str(), funcs[p].name.node.as_str()) {
                later = true;
            }
            q += 1;
        }
        if !later {
            let mut pos: usize = 0;
            while pos < keys.len() && name_lt(
                funcs[keys[pos]].name.node.as_str(),
                funcs[p].name.node.as_str(),
            )
                invariant
                    pos <= keys@.len(),
                    p < funcs@.len(),
                    forall|k: int| 0 <= k < keys@.len() ==> #[trigger] keys@[k] < p,
                decreases keys@.len() - pos,
            {
                pos += 1;
            }
            let ghost before = keys@;
            keys.insert(pos, p);
            proof {
                assert forall|k: int| 0 <= k < keys@.len() implies #[trigger] keys@[k] < p + 1 by {
                    if k < pos {
                        assert(keys@[k] == before[k]);
                    } else if k > pos {
                        assert(keys@[k] == before[k - 1]);
                    }
                }
            }
        }
        p += 1;
    }
    keys
}

/// For each function, the functions it mentions (other than by its own name), in name
/// order.
fn mention_graph(funcs: &Vec<&FnDecl>) -> (r: Vec<Vec<usize>>)
    ensures
        r@.len() == funcs@.len(),
        forall|v: int, k: int|
            0 <= v < r@.len() && 0 <= k < r@[v]@.len() ==> #[trigger] r@[v]@[k] < funcs@.len(),
{
    let keys = name_index(funcs);
    let mut graph: Vec<Vec<usize>> = Vec::new();
    let mut i: usize = 0;
    while i < funcs.len()
        invariant
            i <= funcs@.len(),
            graph@.len() == i,
            forall|k: int| 0 <= k < keys@.len() ==> #[trigger] keys@[k] < funcs@.len(),
            forall|v: int, k: int|
                0 <= v < graph@.len() && 0 <= k < graph@[v]@.len() ==> #[trigger] graph@[v]@[k]
                    < funcs@.len(),
        decreases funcs@.len() - i,
    {
        let mut succ: Vec<usize> = Vec::new();
        let mut j: usize = 0;
        while j < keys.len()
            invariant
                j <= keys@.len(),
                i < funcs@.len(),
                forall|k: int| 0 <= k < keys@.len() ==> #[trigger] keys@[k] < funcs@.len(),
                forall|k: int| 0 <= k < succ@.len() ==> #[trigger] succ@[k] < funcs@.len(),
            decreases keys@.len() - j,
        {
            let k = keys[j];
            let other = funcs[k].name.node.as_str();
            if !str_eq(other, funcs[i].name.node.as_str()) && expr_mentions(&funcs[i].body, other) {
                succ.push(k);
            }
            j += 1;
        }
        graph.push(succ);
        i += 1;
    }
    graph
}

/// Number of components not yet visited.
pub open spec fn unseen(s: Seq<bool>) -> nat
    decreases s.len(),
{
    if s.len() == 0 {
        0
    } else {
        unseen(s.drop_last()) + if s.last() {
            0nat
        } else {
            1nat
        }
    }
}

proof fn lemma_unseen_mark(s: Seq<bool>, i: int)
    requires
        0 <= i < s.len(),
        !s[i],
    ensures
        unseen(s.update(i, true)) + 1 == unseen(s),
    decreases s.len(),
{
    if i < s.len() - 1 {
        lemma_unseen_mark(s.drop_last(), i);
        assert(s.update(i, true).drop_last() =~= s.drop_last().update(i, true));
    } else {
        assert(s.update(i, true).drop_last() =~= s.drop_last());
    }
}

proof fn lemma_unseen_mono(a: Seq<bool>, b: Seq<bool>)
    requires
        a.len() == b.len(),
        forall|i: int| 0 <= i < a.len() && a[i] ==> b[i],
    ensures
        unseen(b) <= unseen(a),
    decreases a.len(),
{
    if a.len() > 0 {
        lemma_unseen_mono(a.drop_last(), b.drop_last());
    }
}

/// Visits component `comp` after the components it depends on, appending each component
/// to `out` once all those it depends on are there or in progress.
fn visit(comp: usize, deps: &Vec<Vec<usize>>, seen: &mut Vec<bool>, out: &mut Vec<usize>)
    requires
        comp < deps@.len(),
        old(seen)@.len() == deps@.len(),
        forall|c: int, k: int|
            0 <= c < deps@.len() && 0 <= k < deps@[c]@.len() ==> #[trigger] deps@[c]@[k]
                < deps@.len(),
        forall|k: int| 0 <= k < old(out)@.len() ==> #[trigger] old(out)@[k] < deps@.len(),
    ensures
        forall|k: int| 0 <= k < final(out)@.len() ==> #[trigger] final(out)@[k] < deps@.len(),
        final(seen)@.len() == deps@.len(),
        final(seen)@[comp as int],
        forall|c: int| 0 <= c < deps@.len() && old(seen)@[c] ==> final(seen)@[c],
        forall|c: int|
            0 <= c < deps@.len() && final(seen)@[c] && !old(seen)@[c] ==> final(out)@.contains(
                c as usize,
            ),
        final(out)@.len() >= old(out)@.len(),
        final(out)@.subrange(0, old(out)@.len() as int) == old(out)@,
    decreases unseen(old(seen)@),
{
    if seen[comp] {
        proof {
            assert(out@.subrange(0, out@.len() as int) =~= out@);
        }
        return;
    }
    let ghost entry_seen = seen@;
    let ghost entry_out = out@;
    proof {
        lemma_unseen_mark(seen@, comp as int);
    }
    seen.set(comp, true);
    let mut j: usize = 0;
    while j < deps[comp].len()
        invariant
            comp < deps@.len(),
            seen@.len() == deps@.len(),
            seen@[comp as int],
            j <= deps@[comp as int]@.len(),
            forall|c: int, k: int|
                0 <= c < deps@.len() && 0 <= k < deps@[c]@.len() ==> #[trigger] deps@[c]@[k]
                    < deps@.len(),
            forall|c: int| 0 <= c < deps@.len() && entry_seen[c] ==> seen@[c],
            unseen(seen@) < unseen(entry_seen),
            entry_seen == old(seen)@,
            forall|c: int|
                0 <= c < deps@.len() && seen@[c] && !entry_seen[c] && c != comp ==> out@.contains(
                    c as usize,
                ),
            out@.len() >= entry_out.len(),
            out@.subrange(0, entry_out.len() as int) == entry_out,
            forall|k: int| 0 <= k < out@.len() ==> #[trigger] out@[k] < deps@.len(),
        decreases deps@[comp as int]@.len() - j,
    {
        let dep = deps[comp][j];
        let ghost mid_seen = seen@;
        let ghost mid_out = out@;
        visit(dep, deps, seen, out);
        proof {
            lemma_unseen_mono(mid_seen, seen@);
            assert forall|c: int|
                0 <= c < deps@.len() && seen@[c] && !entry_seen[c] && c != comp implies out@.contains(
                c as usize,
            ) by {
                if mid_seen[c] {
                    let i = choose|i: int| 0 <= i < mid_out.len() && mid_out[i] == c as usize;
                    assert(out@.subrange(0, mid_out.len() as int)[i] == c as usize);
                }
            }
            assert(out@.subrange(0, entry_out.len() as int) =~= entry_out) by {
                assert forall|i: int| 0 <= i < entry_out.len() implies out@[i] == entry_out[i] by {
                    assert(out@.subrange(0, mid_out.len() as int)[i] == mid_out[i]);
                    assert(mid_out.subrange(0, entry_out.len() as int)[i] == entry_out[i]);
                }
            }
        }
        j += 1;
    }
    let ghost last_out = out@;
    out.push(comp);
    proof {
        assert(out@[last_out.len() as int] == comp);
        assert forall|c: int|
            0 <= c < deps@.len() && seen@[c] && !entry_seen[c] implies out@.contains(c as usize) by {
            if c != comp {
                let i = choose|i: int| 0 <= i < last_out.len() && last_out[i] == c as usize;
                assert(out@[i] == c as usize);
            }
        }
        assert(out@.subrange(0, entry_out.len() as int) =~= entry_out) by {
            assert forall|i: int| 0 <= i < entry_out.len() implies out@[i] == entry_out[i] by {
                assert(last_out.subrange(0, entry_out.len() as int)[i] == entry_out[i]);
            }
        }
    }
}

/// Vertex `u` lies in one of the components `r`.
pub open spec fn placed(r: Seq<Vec<usize>>, u: usize) -> bool {
    exists|c: int, k: int| 0 <= c < r.len() && 0 <= k < r[c]@.len() && #[trigger] r[c]@[k] == u
}

fn copy_usizes(v: &Vec<usize>) -> (r: Vec<usize>)
    ensures
        r@ == v@,
{
    let mut out: Vec<usize> = Vec::new();
    let mut i: usize = 0;
    while i < v.len()
        invariant
            i <= v@.len(),
            out@ == v@.subrange(0, i as int),
        decreases v@.len() - i,
    {
        out.push(v[i]);
        proof {
            assert(out@ =~= v@.subrange(0, i as int + 1));
        }
        i += 1;
    }
    proof {
        assert(v@.subrange(0, v@.len() as int) =~= v@);
    }
    out
}

/// The functions in groups of mutual recursion (each group ascending), every group after
/// the groups it depends on: strongly connected components of the "mentions" graph,
/// visited depth first from the first component Tarjan's algorithm completes.
fn declaration_scc_order(funcs: &Vec<&FnDecl>) -> (r: Vec<Vec<usize>>)
    requires
        funcs@.len() < usize::MAX,
    ensures
        forall|c: int, k: int|
            0 <= c < r@.len() && 0 <= k < r@[c]@.len() ==> #[trigger] r@[c]@[k] < funcs@.len(),
        forall|u: usize| u < funcs@.len() ==> #[trigger] placed(r@, u),
        forall|c: int, a: int, b: int|
            0 <= c < r@.len() && 0 <= a < b < r@[c]@.len() ==> #[trigger] r@[c]@[a]
                <= #[trigger] r@[c]@[b],
{
    let n = funcs.len();
    let graph = mention_graph(funcs);
    let mut edges: Vec<Vec<usize>> = Vec::new();
    let mut g: usize = 0;
    while g < graph.len()
        invariant
            g <= graph@.len(),
            edges@.len() == g,
            forall|v: int| 0 <= v < g ==> #[trigger] edges@[v]@ == graph@[v]@,
        decreases graph@.len() - g,
    {
        edges.push(copy_usizes(&graph[g]));
        g += 1;
    }
    let raw = tarjan_order(edges);
    let m = raw.len();
    let mut sccs: Vec<Vec<usize>> = Vec::new();
    let mut c: usize = 0;
    while c < m
        invariant
            c <= m,
            m == raw@.len(),
            sccs@.len() == c,
            forall|i: int, k: int|
                0 <= i < raw@.len() && 0 <= k < raw@[i]@.len() ==> (#[trigger] raw@[i]@[k]).0 < n,
            forall|i: int, x: usize|
                0 <= i < c ==> (#[trigger] sccs@[i]@.contains(x) <==> raw@[i]@.contains(UnknownId(x))),
            forall|i: int, a: int, b: int|
                0 <= i < c && 0 <= a < b < sccs@[i]@.len() ==> #[trigger] sccs@[i]@[a]
                    <= #[trigger] sccs@[i]@[b],
        decreases m - c,
    {
        sccs.push(sorted_ids(&raw[c]));
        c += 1;
    }
    proof {
        assert forall|i: int, k: int| 0 <= i < m && 0 <= k < sccs@[i]@.len() implies #[trigger] sccs@[i]@[k]
            < n by {
            let x = sccs@[i]@[k];
            assert(sccs@[i]@.contains(x));
            let j = choose|j: int| 0 <= j < raw@[i]@.len() && raw@[i]@[j] == UnknownId(x);
        }
        if n > 0 {
            assert(in_component(raw@, 0));
        }
    }
    // The component of each function.
    let mut comp_of: Vec<usize> = Vec::new();
    let mut v: usize = 0;
    while v < n
        invariant
            v <= n,
            comp_of@.len() == v,
            forall|i: int| 0 <= i < v ==> #[trigger] comp_of@[i] < m,
            n > 0 ==> m > 0,
        decreases n - v,
    {
        comp_of.push(0);
        v += 1;
    }
    c = 0;
    while c < m
        invariant
            c <= m,
            m == sccs@.len(),
            comp_of@.len() == n,
            forall|i: int| 0 <= i < n ==> #[trigger] comp_of@[i] < m,
            forall|i: int, k: int| 0 <= i < m && 0 <= k < sccs@[i]@.len() ==> #[trigger] sccs@[i]@[k] < n,
        decreases m - c,
    {
        let mut k: usize = 0;
        while k < sccs[c].len()
            invariant
                c < m,
                m == sccs@.len(),
                comp_of@.len() == n,
                forall|i: int| 0 <= i < n ==> #[trigger] comp_of@[i] < m,
                forall|i: int, k: int|
                    0 <= i < m && 0 <= k < sccs@[i]@.len() ==> #[trigger] sccs@[i]@[k] < n,
            decreases sccs@[c as int]@.len() - k,
        {
            comp_of.set(sccs[c][k], c);
            k += 1;
        }
        c += 1;
    }
    // The components each component depends on, ascending.
    let mut deps: Vec<Vec<usize>> = Vec::new();
    c = 0;
    while c < m
        invariant
            c <= m,
            deps@.len() == c,
            comp_of@.len() == n,
            graph@.len() == n,
            forall|i: int| 0 <= i < n ==> #[trigger] comp_of@[i] < m,
            forall|a: int, k: int|
                0 <= a < graph@.len() && 0 <= k < graph@[a]@.len() ==> #[trigger] graph@[a]@[k] < n,
            forall|a: int, k: int|
                0 <= a < deps@.len() && 0 <= k < deps@[a]@.len() ==> #[trigger] deps@[a]@[k] < m,
        decreases m - c,
    {
        let mut marks: Vec<bool> = Vec::new();
        let mut b: usize = 0;
        while b < m
            invariant
                b <= m,
                marks@.len() == b,
            decreases m - b,
        {
            marks.push(false);
            b += 1;
        }
        let mut node: usize = 0;
        while node < n
            invariant
                node <= n,
                c < m,
                marks@.len() == m,
                comp_of@.len() == n,
                graph@.len() == n,
                forall|i: int| 0 <= i < n ==> #[trigger] comp_of@[i] < m,
                forall|a: int, k: int|
                    0 <= a < graph@.len() && 0 <= k < graph@[a]@.len() ==> #[trigger] graph@[a]@[k] < n,
            decreases n - node,
        {
            if comp_of[node] == c {
                let mut e: usize = 0;
                while e < graph[node].len()
                    invariant
                        node < n,
                        c < m,
                        marks@.len() == m,
                        comp_of@.len() == n,
                        graph@.len() == n,
                        forall|i: int| 0 <= i < n ==> #[trigger] comp_of@[i] < m,
                        forall|a: int, k: int|
                            0 <= a < graph@.len() && 0 <= k < graph@[a]@.len() ==> #[trigger] graph@[a]@[k]
                                < n,
                    decreases graph@[node as int]@.len() - e,
                {
                    let target = comp_of[graph[node][e]];
                    if target != c {
                        marks.set(target, true);
                    }
                    e += 1;
                }
            }
            node += 1;
        }
        let mut row: Vec<usize> = Vec::new();
        b = 0;
        while b < m
            invariant
                b <= m,
                marks@.len() == m,
                forall|k: int| 0 <= k < row@.len() ==> #[trigger] row@[k] < m,
            decreases m - b,
        {
            if marks[b] {
                row.push(b);
            }
            b += 1;
        }
        deps.push(row);
        c += 1;
    }
    // Depth-first, dependencies first.
    let mut seen: Vec<bool> = Vec::new();
    c = 0;
    while c < m
        invariant
            c <= m,
            seen@.len() == c,
            forall|i: int| 0 <= i < c ==> !seen@[i],
        decreases m - c,
    {
        seen.push(false);
        c += 1;
    }
    let mut order: Vec<usize> = Vec::new();
    c = 0;
    while c < m
        invariant
            c <= m,
            m == deps@.len(),
            seen@.len() == m,
            forall|a: int, k: int|
                0 <= a < deps@.len() && 0 <= k < deps@[a]@.len() ==> #[trigger] deps@[a]@[k] < m,
            forall|k: int| 0 <= k < order@.len() ==> #[trigger] order@[k] < m,
            forall|i: int| 0 <= i < c ==> seen@[i],
            forall|i: int| 0 <= i < m && seen@[i] ==> order@.contains(i as usize),
        decreases m - c,
    {
        let ghost before_seen = seen@;
        let ghost before_order = order@;
        visit(c, &deps, &mut seen, &mut order);
        proof {
            assert forall|i: int| 0 <= i < m && seen@[i] implies order@.contains(i as usize) by {
                if before_seen[i] {
                    let j = choose|j: int| 0 <= j < before_order.len() && before_order[j] == i as usize;
                    assert(order@.subrange(0, before_order.len() as int)[j] == i as usize);
                }
            }
        }
        c += 1;
    }
    let mut out: Vec<Vec<usize>> = Vec::new();
    let mut i: usize = 0;
    while i < order.len()
        invariant
            i <= order@.len(),
            out@.len() == i,
            m == sccs@.len(),
            forall|k: int| 0 <= k < order@.len() ==> #[trigger] order@[k] < m,
            forall|j: int| 0 <= j < i ==> #[trigger] out@[j]@ == sccs@[order@[j] as int]@,
        decreases order@.len() - i,
    {
        out.push(copy_usizes(&sccs[order[i]]));
        i += 1;
    }
    proof {
        assert forall|u: usize| u < n implies #[trigger] placed(out@, u) by {
            assert(in_component(raw@, u));
            let (ci, k) = choose|ci: int, k: int|
                0 <= ci < raw@.len() && 0 <= k < raw@[ci]@.len() && raw@[ci]@[k] == UnknownId(u);
            assert(raw@[ci]@.contains(UnknownId(u)));
            assert(sccs@[ci]@.contains(u));
            let kk = choose|kk: int| 0 <= kk < sccs@[ci]@.len() && sccs@[ci]@[kk] == u;
            assert(seen@[ci]);
            let j = choose|j: int| 0 <= j < order@.len() && order@[j] == ci as usize;
            assert(out@[j]@[kk] == u);
        }
    }
    out
}

// ---------------------------------------------------------------------------------------
// Function declarations as core values.
/// The recursion tag a boundedness annotation gives; a measure must be a literal or the
/// parameter itself.
pub open spec fn recursion_tag_m(b: Boundedness, param: Seq<char>) -> Result<RecursionTag, ElabErrM> {
    match b {
        Boundedness::StructuralDescent => Ok(RecursionTag::StructuralDescent),
        Boundedness::Div(_) => Ok(RecursionTag::Div),
        Boundedness::Measure(e) => match e.kind {
            ExprKind::Nat(_) => Ok(RecursionTag::Measure),
            ExprKind::Var(n) => if n@ == param {
                Ok(RecursionTag::Measure)
            } else {
                Err(measure_error_m(e.span))
            },
            _ => Err(measure_error_m(e.span)),
        },
    }
}

pub open spec fn measure_error_m(span: Span) -> ElabErrM {
    err_m(span, "measure expression must be a Nat literal or the Nat parameter in the reduced surface"@)
}

/// The scope of a function body: its parameters.
pub open spec fn params_env_m(ps: Seq<Param>) -> LEnvM {
    LEnvM {
        vars: Set::new(|n: Seq<char>| exists|i: int| 0 <= i < ps.len() && #[trigger] ps[i].name.node@ == n),
        conts: Set::empty(),
    }
}

/// `body` under one abstraction per parameter, the first outermost.
pub open spec fn lams_m(ps: Seq<Param>, body: TermM) -> TermM
    decreases ps.len(),
{
    if ps.len() == 0 {
        body
    } else {
        lams_m(
            ps.drop_last(),
            TermM::Lam {
                param: ps.last().name.node@,
                param_ty: lower_type_m(ps.last().ty),
                body: Box::new(body),
            },
        )
    }
}

/// Whether `ps` is exactly one `Nat` parameter.
pub open spec fn unary_nat_m(ps: Seq<Param>) -> bool {
    ps.len() == 1 && lower_type_m(ps[0].ty) == Type::Nat
}

/// The core value of a function on its own (with parameters `ps`): a `fix` when its body
/// mentions its own name, which then must take one `Nat`; otherwise abstractions.
pub open spec fn function_value_m(f: FnDecl, ps: Seq<Param>, fns: Set<Seq<char>>) -> Result<TermM, ElabErrM> {
    if mentions_m(f.body, f.name.node@) {
        if !unary_nat_m(ps) {
            Err(err_m(f.name.span, "recursive reduced-core functions must be unary `Nat -> ...`"@))
        } else {
            match recursion_tag_m(f.boundedness, ps[0].name.node@) {
                Err(x) => Err(x),
                Ok(tag) => match lower_m(f.body, params_env_m(ps), fns) {
                    Ok(b) => Ok(
                        TermM::Fix {
                            func: f.name.node@,
                            param: ps[0].name.node@,
                            param_ty: Type::Nat,
                            body: Box::new(b),
                            tag,
                        },
                    ),
                    Err(x) => Err(x),
                },
            }
        }
    } else {
        match lower_m(f.body, params_env_m(ps), fns) {
            Ok(b) => Ok(lams_m(ps, b)),
            Err(x) => Err(x),
        }
    }
}

/// The binding of a member of a group of mutually recursive functions, which must take
/// one `Nat`.
pub open spec fn fix_binding_m(f: FnDecl, ps: Seq<Param>, fns: Set<Seq<char>>) -> Result<FixBindingM, ElabErrM> {
    if !unary_nat_m(ps) {
        Err(err_m(f.name.span, "recursive binding groups must contain unary `Nat -> ...` members"@))
    } else {
        match recursion_tag_m(f.boundedness, ps[0].name.node@) {
            Err(x) => Err(x),
            Ok(tag) => match lower_m(f.body, params_env_m(ps), fns) {
                Ok(b) => Ok(
                    FixBindingM {
                        func: f.name.node@,
                        param: ps[0].name.node@,
                        param_ty: Type::Nat,
                        body: Box::new(b),
                        tag,
                    },
                ),
                Err(x) => Err(x),
            },
        }
    }
}

/// The recursion tag that a boundedness annotation asks for: `div` gives `Div`, a measure
/// gives `Measure`, and no annotation gives structural descent.
pub open spec fn tag_of_annotation(b: Boundedness, tag: RecursionTag) -> bool {
    &&& (b is Div <==> tag == RecursionTag::Div)
    &&& (b is Measure <==> tag == RecursionTag::Measure)
    &&& (b is StructuralDescent <==> tag == RecursionTag::StructuralDescent)
}

/// A function that mentions itself becomes a fix binder whose tag is the one its annotation asks for,
/// alone or in a group; and a `div` or unannotated unary `Nat` function whose body lowers
/// always becomes one: those annotations never fail.
pub proof fn lemma_recursion_tag_follows_annotation(f: FnDecl, ps: Seq<Param>, fns: Set<Seq<char>>)
    ensures
        mentions_m(f.body, f.name.node@) ==> (function_value_m(f, ps, fns) matches Ok(v) ==> (
        v matches TermM::Fix { tag, .. } && tag_of_annotation(f.boundedness, tag))),
        fix_binding_m(f, ps, fns) matches Ok(b) ==> tag_of_annotation(f.boundedness, b.tag),
        ({
            &&& mentions_m(f.body, f.name.node@)
            &&& unary_nat_m(ps)
            &&& !(f.boundedness is Measure)
            &&& lower_m(f.body, params_env_m(ps), fns) is Ok
        }) ==> (function_value_m(f, ps, fns) matches Ok(TermM::Fix { tag, .. }) && tag_of_annotation(
            f.boundedness,
            tag,
        )) && (fix_binding_m(f, ps, fns) matches Ok(b) && tag_of_annotation(f.boundedness, b.tag)),
{
}

fn measure_error(span: Span) -> (r: ElaborateError)
    ensures
        r@ == measure_error_m(span),
{
    ElaborateError::new(
        span,
        "measure expression must be a Nat literal or the Nat parameter in the reduced surface",
    )
}

fn recursion_tag(b: &Boundedness, param: &str) -> (r: Result<RecursionTag, ElaborateError>)
    ensures
        r matches Ok(t) ==> tag_of_annotation(*b, t),
        !(*b is Measure) ==> r is Ok,
        match recursion_tag_m(*b, param@) {
            Ok(t) => r == Ok::<RecursionTag, ElaborateError>(t),
            Err(x) => r matches Err(y) && y@ == x,
        },
{
    match b {
        Boundedness::StructuralDescent => Ok(RecursionTag::StructuralDescent),
        Boundedness::Div(_) => Ok(RecursionTag::Div),
        Boundedness::Measure(e) => match &e.kind {
            ExprKind::Nat(_) => Ok(RecursionTag::Measure),
            ExprKind::Var(n) => {
                if str_eq(n.as_str(), param) {
                    Ok(RecursionTag::Measure)
                } else {
                    Err(measure_error(e.span))
                }
            },
            _ => Err(measure_error(e.span)),
        },
    }
}

/// Whether `ps` is exactly one `Nat` parameter.
fn unary_nat(ps: &Vec<Param>) -> (r: bool)
    ensures
        r == unary_nat_m(ps@),
{
    if ps.len() != 1 {
        return false;
    }
    let ty = lower_type(&ps[0].ty);
    match ty {
        Ok(Type::Nat) => true,
        _ => false,
    }
}

/// `env` extended with the parameters `ps`.
fn with_params(env: &LEnv, ps: &Vec<Param>) -> (r: LEnv)
    ensures
        r@.conts == env@.conts,
        forall|x: Seq<char>| #[trigger] r@.vars.contains(x) == (env@.vars.contains(x)
            || params_env_m(ps@).vars.contains(x)),
{
    let mut out = env.duplicate();
    let mut i: usize = 0;
    while i < ps.len()
        invariant
            i <= ps@.len(),
            out@.conts == env@.conts,
            forall|x: Seq<char>| #[trigger] out@.vars.contains(x) == (env@.vars.contains(x)
                || params_env_m(ps@.subrange(0, i as int)).vars.contains(x)),
        decreases ps@.len() - i,
    {
        out.add_var(ps[i].name.node.as_str());
        proof {
            assert forall|x: Seq<char>| #[trigger] out@.vars.contains(x) == (env@.vars.contains(x)
                || params_env_m(ps@.subrange(0, i as int + 1)).vars.contains(x)) by {
                let pre = ps@.subrange(0, i as int);
                let next = ps@.subrange(0, i as int + 1);
                if params_env_m(pre).vars.contains(x) {
                    let j = choose|j: int| 0 <= j < pre.len() && #[trigger] pre[j].name.node@ == x;
                    assert(next[j].name.node@ == x);
                }
                if x == ps@[i as int].name.node@ {
                    assert(next[i as int].name.node@ == x);
                }
                if params_env_m(next).vars.contains(x) {
                    let j = choose|j: int| 0 <= j < next.len() && #[trigger] next[j].name.node@ == x;
                    if j < i {
                        assert(pre[j].name.node@ == x);
                    }
                }
            }
        }
        i += 1;
    }
    proof {
        assert(ps@.subrange(0, ps@.len() as int) =~= ps@);
    }
    out
}

/// The abstractions over `ps` around `body`, each recorded at `span`.
fn lams(ps: &Vec<Param>, body: Term, span: Span, spans: &mut SpanTable) -> (r: Term)
    ensures
        r@ == lams_m(ps@, body@),
{
    let mut term = body;
    let mut k: usize = ps.len();
    proof {
        assert(ps@.subrange(0, k as int) =~= ps@);
    }
    while k > 0
        invariant
            k <= ps@.len(),
            lams_m(ps@, body@) == lams_m(ps@.subrange(0, k as int), term@),
        decreases k,
    {
        let p = &ps[k - 1];
        let ty = match lower_type(&p.ty) {
            Ok(t) => t,
            Err(_) => Type::Unit,
        };
        proof {
            let sub = ps@.subrange(0, k as int);
            assert(sub.drop_last() =~= ps@.subrange(0, k - 1));
            assert(sub.last() == ps@[k - 1]);
        }
        term = Term::Lam { param: owned(p.name.node.as_str()), param_ty: ty, body: Box::new(term) };
        spans.record(&term, span);
        k -= 1;
    }
    term
}

/// The core value of a function on its own; `env` holds only names of functions.
fn function_value(
    f: &FnDecl,
    ps: &Vec<Param>,
    env: &LEnv,
    fns: &Vec<String>,
    spans: &mut SpanTable,
    prelude: &mut PreludeSet,
) -> (r: Result<Term, ElaborateError>)
    requires
        agree(env@, LEnvM { vars: Set::empty(), conts: Set::empty() }, name_set(fns@)),
        name_set(fns@).contains(f.name.node@),
    ensures
        r is Ok ==> grew(*old(prelude), *final(prelude), ops_m(f.body)),
        lowered(r, function_value_m(*f, ps@, name_set(fns@))),
{
    let ghost fm = name_set(fns@);
    if expr_mentions(&f.body, f.name.node.as_str()) {
        if !unary_nat(ps) {
            return Err(
                ElaborateError::new(
                    f.name.span,
                    "recursive reduced-core functions must be unary `Nat -> ...`",
                ),
            );
        }
        let param = ps[0].name.node.as_str();
        let tag = match recursion_tag(&f.boundedness, param) {
            Ok(t) => t,
            Err(x) => {
                return Err(x);
            },
        };
        let mut body_env = env.duplicate();
        body_env.add_var(f.name.node.as_str());
        body_env.add_var(param);
        proof {
            assert(agree(body_env@, params_env_m(ps@), fm)) by {
                assert forall|x: Seq<char>|
                    (body_env@.vars.contains(x) || fm.contains(x)) == (params_env_m(ps@).vars.contains(x)
                        || fm.contains(x)) by {
                    if x == param@ {
                        assert(ps@[0].name.node@ == x);
                    }
                    if params_env_m(ps@).vars.contains(x) {
                        let j = choose|j: int| 0 <= j < ps@.len() && #[trigger] ps@[j].name.node@ == x;
                        assert(j == 0);
                    }
                    assert(env@.vars.contains(x) ==> fm.contains(x));
                }
                assert(params_env_m(ps@).conts =~= Set::<Seq<char>>::empty());
            }
            lemma_lower_agree(f.body, body_env@, params_env_m(ps@), fm);
        }
        let body = match lower_expr(&f.body, &body_env, fns, spans, prelude) {
            Ok(b) => b,
            Err(x) => {
                return Err(x);
            },
        };
        let term = Term::Fix {
            func: owned(f.name.node.as_str()),
            param: owned(param),
            param_ty: Type::Nat,
            body: Box::new(body),
            tag,
        };
        spans.record(&term, f.span);
        return Ok(term);
    }
    let body_env = with_params(env, ps);
    proof {
        assert(agree(body_env@, params_env_m(ps@), fm)) by {
            assert forall|x: Seq<char>|
                (body_env@.vars.contains(x) || fm.contains(x)) == (params_env_m(ps@).vars.contains(x)
                    || fm.contains(x)) by {
                assert(env@.vars.contains(x) ==> fm.contains(x));
            }
            assert(params_env_m(ps@).conts =~= Set::<Seq<char>>::empty());
        }
        lemma_lower_agree(f.body, body_env@, params_env_m(ps@), fm);
    }
    let body = match lower_expr(&f.body, &body_env, fns, spans, prelude) {
        Ok(b) => b,
        Err(x) => {
            return Err(x);
        },
    };
    Ok(lams(ps, body, f.span, spans))
}

/// The bindings of the members of a group, in order, or the first error.
pub open spec fn group_bindings_m(ms: Seq<FnDecl>, ds: Seq<Decl>, fns: Set<Seq<char>>) -> Result<
    Seq<FixBindingM>,
    ElabErrM,
>
    decreases ms.len(),
{
    if ms.len() == 0 {
        Ok(Seq::empty())
    } else {
        match group_bindings_m(ms.drop_last(), ds, fns) {
            Err(x) => Err(x),
            Ok(bs) => match params_of_m(ds, ms.last().name.node@) {
                None => Err(missing_sig_m(ms.last().name.span)),
                Some(ps) => match fix_binding_m(ms.last(), ps, fns) {
                    Ok(b) => Ok(bs.push(b)),
                    Err(x) => Err(x),
                },
            },
        }
    }
}

/// The parameters of the last function named `name`: the signature elaboration uses.
pub open spec fn params_of_m(ds: Seq<Decl>, name: Seq<char>) -> Option<Seq<Param>>
    decreases ds.len(),
{
    if ds.len() == 0 {
        None
    } else {
        match ds.last() {
            Decl::Fn(f) => if f.name.node@ == name {
                Some(f.params@)
            } else {
                params_of_m(ds.drop_last(), name)
            },
            Decl::Effect(_) => params_of_m(ds.drop_last(), name),
        }
    }
}

/// The names of all functions.
pub open spec fn fn_names_m(ds: Seq<Decl>) -> Set<Seq<char>> {
    Set::new(|n: Seq<char>| exists|i: int| 0 <= i < ds.len() && #[trigger] fn_name_of(ds[i]) == Some(n))
}

pub open spec fn fn_name_of(d: Decl) -> Option<Seq<char>> {
    match d {
        Decl::Fn(f) => Some(f.name.node@),
        Decl::Effect(_) => None,
    }
}

pub open spec fn missing_sig_m(span: Span) -> ElabErrM {
    err_m(span, "internal missing function signature"@)
}

/// The value of a function on its own, with the parameters of its signature.
pub open spec fn value_of_m(ds: Seq<Decl>, f: FnDecl, fns: Set<Seq<char>>) -> Result<TermM, ElabErrM> {
    match params_of_m(ds, f.name.node@) {
        None => Err(missing_sig_m(f.name.span)),
        Some(ps) => function_value_m(f, ps, fns),
    }
}

/// The parameters of the last function named `name`.
fn params_of<'a>(program: &'a Program, name: &str) -> (r: Option<&'a Vec<Param>>)
    ensures
        match params_of_m(program.decls@, name@) {
            None => r is None,
            Some(ps) => r matches Some(v) && v@ == ps,
        },
{
    let mut i: usize = program.decls.len();
    proof {
        assert(program.decls@.subrange(0, i as int) =~= program.decls@);
    }
    while i > 0
        invariant
            i <= program.decls@.len(),
            params_of_m(program.decls@, name@) == params_of_m(program.decls@.subrange(0, i as int), name@),
        decreases i,
    {
        proof {
            let sub = program.decls@.subrange(0, i as int);
            assert(sub.drop_last() =~= program.decls@.subrange(0, i - 1));
            assert(sub.last() == program.decls@[i - 1]);
        }
        match &program.decls[i - 1] {
            Decl::Fn(f) => {
                if str_eq(f.name.node.as_str(), name) {
                    return Some(&f.params);
                }
            },
            Decl::Effect(_) => {},
        }
        i -= 1;
    }
    None
}

proof fn lemma_group_err(ms: Seq<FnDecl>, ds: Seq<Decl>, fns: Set<Seq<char>>, i: int)
    requires
        0 <= i <= ms.len(),
        group_bindings_m(ms.subrange(0, i), ds, fns) is Err,
    ensures
        group_bindings_m(ms, ds, fns) == group_bindings_m(ms.subrange(0, i), ds, fns),
    decreases ms.len() - i,
{
    if i == ms.len() {
        assert(ms.subrange(0, i) =~= ms);
    } else {
        let next = ms.subrange(0, i + 1);
        assert(next.drop_last() =~= ms.subrange(0, i));
        lemma_group_err(ms, ds, fns, i + 1);
    }
}

/// The operators in the bodies of `fs`.
pub open spec fn bodies_ops_m(fs: Seq<FnDecl>) -> OpsM
    decreases fs.len(),
{
    if fs.len() == 0 {
        no_ops()
    } else {
        join_ops(bodies_ops_m(fs.drop_last()), ops_m(fs.last().body))
    }
}

proof fn lemma_bodies_ops(fs: Seq<FnDecl>)
    ensures
        bodies_ops_m(fs).add == exists|k: int| 0 <= k < fs.len() && #[trigger] ops_m(fs[k].body).add,
        bodies_ops_m(fs).sub == exists|k: int| 0 <= k < fs.len() && #[trigger] ops_m(fs[k].body).sub,
        bodies_ops_m(fs).mul == exists|k: int| 0 <= k < fs.len() && #[trigger] ops_m(fs[k].body).mul,
    decreases fs.len(),
{
    if fs.len() > 0 {
        let pre = fs.drop_last();
        lemma_bodies_ops(pre);
        assert forall|k: int| 0 <= k < pre.len() implies pre[k] == fs[k] by {}
        if bodies_ops_m(pre).add {
            let k = choose|k: int| 0 <= k < pre.len() && #[trigger] ops_m(pre[k].body).add;
            assert(ops_m(fs[k].body).add);
        }
        if bodies_ops_m(pre).sub {
            let k = choose|k: int| 0 <= k < pre.len() && #[trigger] ops_m(pre[k].body).sub;
            assert(ops_m(fs[k].body).sub);
        }
        if bodies_ops_m(pre).mul {
            let k = choose|k: int| 0 <= k < pre.len() && #[trigger] ops_m(pre[k].body).mul;
            assert(ops_m(fs[k].body).mul);
        }
        if ops_m(fs.last().body).add {
            assert(ops_m(fs[fs.len() - 1].body).add);
        }
        if ops_m(fs.last().body).sub {
            assert(ops_m(fs[fs.len() - 1].body).sub);
        }
        if ops_m(fs.last().body).mul {
            assert(ops_m(fs[fs.len() - 1].body).mul);
        }
        assert forall|k: int| 0 <= k < fs.len() && ops_m(fs[k].body).add implies bodies_ops_m(fs).add by {
            if k < pre.len() {
                assert(ops_m(pre[k].body).add);
            }
        }
        assert forall|k: int| 0 <= k < fs.len() && ops_m(fs[k].body).sub implies bodies_ops_m(fs).sub by {
            if k < pre.len() {
                assert(ops_m(pre[k].body).sub);
            }
        }
        assert forall|k: int| 0 <= k < fs.len() && ops_m(fs[k].body).mul implies bodies_ops_m(fs).mul by {
            if k < pre.len() {
                assert(ops_m(pre[k].body).mul);
            }
        }
    }
}

/// The members of a group: the functions at the positions `comp`.
pub open spec fn members_m(others: Seq<&FnDecl>, comp: Seq<usize>) -> Seq<FnDecl> {
    Seq::new(comp.len(), |i: int| *others[comp[i] as int])
}

fn copy_bindings(v: &Vec<FixBinding>) -> (r: Vec<FixBinding>)
    ensures
        bindings_view(r@) == bindings_view(v@),
{
    let mut out: Vec<FixBinding> = Vec::new();
    let mut i: usize = 0;
    while i < v.len()
        invariant
            i <= v@.len(),
            bindings_view(out@) == bindings_view(v@.subrange(0, i as int)),
        decreases v@.len() - i,
    {
        let b = v[i].duplicate();
        let ghost before = out@;
        out.push(b);
        proof {
            assert(out@.drop_last() =~= before);
            let next = v@.subrange(0, i as int + 1);
            assert(next.drop_last() =~= v@.subrange(0, i as int));
            assert(next.last() == v@[i as int]);
        }
        i += 1;
    }
    proof {
        assert(v@.subrange(0, v@.len() as int) =~= v@);
    }
    out
}

/// The values of a group of mutually recursive functions: for each member, the whole group
/// entered at that member.
fn function_group_values(
    program: &Program,
    others: &Vec<&FnDecl>,
    comp: &Vec<usize>,
    env: &LEnv,
    fns: &Vec<String>,
    spans: &mut SpanTable,
    prelude: &mut PreludeSet,
) -> (r: Result<Vec<(String, Term, Span)>, ElaborateError>)
    requires
        forall|k: int| 0 <= k < comp@.len() ==> #[trigger] comp@[k] < others@.len(),
        agree(env@, LEnvM { vars: Set::empty(), conts: Set::empty() }, name_set(fns@)),
        forall|j: int| 0 <= j < others@.len() ==> name_set(fns@).contains(#[trigger] others@[j].name.node@),
    ensures
        r is Ok ==> grew(*old(prelude), *final(prelude), bodies_ops_m(members_m(others@, comp@))),
        match group_bindings_m(members_m(others@, comp@), program.decls@, name_set(fns@)) {
            Err(x) => r matches Err(y) && y@ == x,
            Ok(bs) => r matches Ok(v) && v@.len() == comp@.len() && forall|i: int|
                0 <= i < v@.len() ==> {
                    &&& (#[trigger] v@[i]).0@ == members_m(others@, comp@)[i].name.node@
                    &&& v@[i].1@ == (TermM::FixGroup { bindings: bs, entry: v@[i].0@ })
                    &&& v@[i].2 == members_m(others@, comp@)[i].span
                },
        },
{
    let ghost fm = name_set(fns@);
    let ghost ms = members_m(others@, comp@);
    let mut base_env = env.duplicate();
    let mut k: usize = 0;
    while k < comp.len()
        invariant
            k <= comp@.len(),
            forall|k: int| 0 <= k < comp@.len() ==> #[trigger] comp@[k] < others@.len(),
            forall|j: int| 0 <= j < others@.len() ==> fm.contains(#[trigger] others@[j].name.node@),
            fm == name_set(fns@),
            agree(base_env@, LEnvM { vars: Set::empty(), conts: Set::empty() }, fm),
        decreases comp@.len() - k,
    {
        base_env.add_var(others[comp[k]].name.node.as_str());
        proof {
            assert(fm.contains(others@[comp@[k as int] as int].name.node@));
        }
        k += 1;
    }
    let mut recs: Vec<FixBinding> = Vec::new();
    let mut i: usize = 0;
    let ghost p0 = *prelude;
    proof {
        assert(ms.subrange(0, 0) =~= Seq::<FnDecl>::empty());
    }
    while i < comp.len()
        invariant
            i <= comp@.len(),
            ms == members_m(others@, comp@),
            fm == name_set(fns@),
            forall|k: int| 0 <= k < comp@.len() ==> #[trigger] comp@[k] < others@.len(),
            agree(base_env@, LEnvM { vars: Set::empty(), conts: Set::empty() }, fm),
            group_bindings_m(ms.subrange(0, i as int), program.decls@, fm) == Ok::<
                Seq<FixBindingM>,
                ElabErrM,
            >(bindings_view(recs@)),
            p0 == *old(prelude),
            grew(p0, *prelude, bodies_ops_m(ms.subrange(0, i as int))),
        decreases comp@.len() - i,
    {
        let f = others[comp[i]];
        proof {
            let sub = ms.subrange(0, i as int + 1);
            assert(sub.drop_last() =~= ms.subrange(0, i as int));
            assert(sub.last() == *f);
            assert(bodies_ops_m(sub) == join_ops(bodies_ops_m(ms.subrange(0, i as int)), ops_m(f.body)));
        }
        let ps = match params_of(program, f.name.node.as_str()) {
            None => {
                proof {
                    lemma_group_err(ms, program.decls@, fm, i + 1);
                }
                return Err(ElaborateError::new(f.name.span, "internal missing function signature"));
            },
            Some(p) => p,
        };
        if !unary_nat(ps) {
            proof {
                lemma_group_err(ms, program.decls@, fm, i + 1);
            }
            return Err(
                ElaborateError::new(
                    f.name.span,
                    "recursive binding groups must contain unary `Nat -> ...` members",
                ),
            );
        }
        let param = ps[0].name.node.as_str();
        let tag = match recursion_tag(&f.boundedness, param) {
            Ok(t) => t,
            Err(x) => {
                proof {
                    lemma_group_err(ms, program.decls@, fm, i + 1);
                }
                return Err(x);
            },
        };
        let mut body_env = base_env.duplicate();
        body_env.add_var(param);
        proof {
            assert(agree(body_env@, params_env_m(ps@), fm)) by {
                assert forall|x: Seq<char>|
                    (body_env@.vars.contains(x) || fm.contains(x)) == (params_env_m(ps@).vars.contains(x)
                        || fm.contains(x)) by {
                    if x == param@ {
                        assert(ps@[0].name.node@ == x);
                    }
                    if params_env_m(ps@).vars.contains(x) {
                        let j = choose|j: int| 0 <= j < ps@.len() && #[trigger] ps@[j].name.node@ == x;
                        assert(j == 0);
                    }
                    assert(base_env@.vars.contains(x) ==> fm.contains(x));
                }
                assert(params_env_m(ps@).conts =~= Set::<Seq<char>>::empty());
            }
            lemma_lower_agree(f.body, body_env@, params_env_m(ps@), fm);
        }
        let body = match lower_expr(&f.body, &body_env, fns, spans, prelude) {
            Ok(b) => b,
            Err(x) => {
                proof {
                    lemma_group_err(ms, program.decls@, fm, i + 1);
                }
                return Err(x);
            },
        };
        let ghost before = recs@;
        let ghost bv = body@;
        let b = FixBinding {
            func: owned(f.name.node.as_str()),
            param: owned(param),
            param_ty: Type::Nat,
            body: Box::new(body),
            tag,
        };
        let ghost want = FixBindingM {
            func: f.name.node@,
            param: ps@[0].name.node@,
            param_ty: Type::Nat,
            body: Box::new(bv),
            tag,
        };
        assert(b@ == want);
        recs.push(b);
        proof {
            assert(recs@.drop_last() =~= before);
            assert(recs@.last() == b);
            assert(bindings_view(recs@) == bindings_view(before).push(want));
            assert(lower_m(f.body, params_env_m(ps@), fm) == Ok::<TermM, ElabErrM>(bv));
            assert(fix_binding_m(*f, ps@, fm) == Ok::<FixBindingM, ElabErrM>(want));
            let sub = ms.subrange(0, i as int + 1);
            assert(group_bindings_m(sub, program.decls@, fm) == Ok::<Seq<FixBindingM>, ElabErrM>(
                bindings_view(before).push(want),
            ));
        }
        i += 1;
    }
    proof {
        assert(ms.subrange(0, comp@.len() as int) =~= ms);
    }
    let ghost bs = bindings_view(recs@);
    let mut out: Vec<(String, Term, Span)> = Vec::new();
    let mut j: usize = 0;
    while j < comp.len()
        invariant
            j <= comp@.len(),
            ms == members_m(others@, comp@),
            bs == bindings_view(recs@),
            forall|k: int| 0 <= k < comp@.len() ==> #[trigger] comp@[k] < others@.len(),
            p0 == *old(prelude),
            grew(p0, *prelude, bodies_ops_m(ms)),
            out@.len() == j,
            forall|i: int|
                0 <= i < out@.len() ==> {
                    &&& (#[trigger] out@[i]).0@ == ms[i].name.node@
                    &&& out@[i].1@ == (TermM::FixGroup { bindings: bs, entry: out@[i].0@ })
                    &&& out@[i].2 == ms[i].span
                },
        decreases comp@.len() - j,
    {
        let f = others[comp[j]];
        let term = Term::FixGroup { bindings: copy_bindings(&recs), entry: owned(f.name.node.as_str()) };
        spans.record(&term, f.span);
        out.push((owned(f.name.node.as_str()), term, f.span));
        j += 1;
    }
    Ok(out)
}

// ---------------------------------------------------------------------------------------
// The prelude of arithmetic functions.
/// A prelude function: the core definitions that arithmetic operators are lowered to.
#[derive(Debug, Clone, Copy, PartialEq, Eq, Structural)]
pub enum PreludeFn {
    Pred,
    Add,
    Sub,
    Mul,
}

pub open spec fn prelude_name_m(p: PreludeFn) -> Seq<char> {
    match p {
        PreludeFn::Pred => "__atli_pred"@,
        PreludeFn::Add => "__atli_add"@,
        PreludeFn::Sub => "__atli_sub"@,
        PreludeFn::Mul => "__atli_mul"@,
    }
}

pub open spec fn var_m(x: Seq<char>) -> TermM {
    TermM::Var(x)
}

pub open spec fn app_m(f: TermM, a: TermM) -> TermM {
    TermM::App(Box::new(f), Box::new(a))
}

pub open spec fn lam_nat_m(x: Seq<char>, body: TermM) -> TermM {
    TermM::Lam { param: x, param_ty: Type::Nat, body: Box::new(body) }
}

/// `fix loop(b: Nat) = case b { 0 -> zero; q -> succ }`, structurally.
pub open spec fn loop_m(name: Seq<char>, zero: TermM, succ: TermM) -> TermM {
    TermM::Fix {
        func: name,
        param: "b"@,
        param_ty: Type::Nat,
        body: Box::new(
            TermM::CaseNat {
                scrutinee: Box::new(var_m("b"@)),
                zero_body: Box::new(zero),
                succ_var: "q"@,
                succ_body: Box::new(succ),
            },
        ),
        tag: RecursionTag::StructuralDescent,
    }
}

/// The definitions: predecessor, and addition, truncated subtraction and multiplication by
/// structural recursion on the second argument.
pub open spec fn prelude_term_m(p: PreludeFn) -> TermM {
    match p {
        PreludeFn::Pred => lam_nat_m(
            "n"@,
            TermM::CaseNat {
                scrutinee: Box::new(var_m("n"@)),
                zero_body: Box::new(TermM::Zero),
                succ_var: "p"@,
                succ_body: Box::new(var_m("p"@)),
            },
        ),
        PreludeFn::Add => lam_nat_m(
            "a"@,
            loop_m(
                "__atli_add_loop"@,
                var_m("a"@),
                TermM::Succ(Box::new(app_m(var_m("__atli_add_loop"@), var_m("q"@)))),
            ),
        ),
        PreludeFn::Sub => lam_nat_m(
            "a"@,
            loop_m(
                "__atli_sub_loop"@,
                var_m("a"@),
                app_m(var_m("__atli_pred"@), app_m(var_m("__atli_sub_loop"@), var_m("q"@))),
            ),
        ),
        PreludeFn::Mul => lam_nat_m(
            "a"@,
            loop_m(
                "__atli_mul_loop"@,
                TermM::Zero,
                app_m(
                    app_m(var_m("__atli_add"@), var_m("a"@)),
                    app_m(var_m("__atli_mul_loop"@), var_m("q"@)),
                ),
            ),
        ),
    }
}

/// The prelude functions to inject for the operators used, with what they depend on
/// (subtraction on the predecessor, multiplication on addition), in a fixed order.
pub open spec fn prelude_fns_m(add: bool, sub: bool, mul: bool) -> Seq<PreludeFn> {
    (if sub {
        seq![PreludeFn::Pred]
    } else {
        Seq::empty()
    }) + (if add || mul {
        seq![PreludeFn::Add]
    } else {
        Seq::empty()
    }) + (if sub {
        seq![PreludeFn::Sub]
    } else {
        Seq::empty()
    }) + (if mul {
        seq![PreludeFn::Mul]
    } else {
        Seq::empty()
    })
}

pub open spec fn prelude_lets_m(fs: Seq<PreludeFn>) -> Seq<(Seq<char>, TermM)> {
    fs.map_values(|f: PreludeFn| (prelude_name_m(f), prelude_term_m(f)))
}

fn prelude_name(p: PreludeFn) -> (r: &'static str)
    ensures
        r@ == prelude_name_m(p),
{
    match p {
        PreludeFn::Pred => {
            proof {
                reveal_strlit("__atli_pred");
            }
            "__atli_pred"
        },
        PreludeFn::Add => {
            proof {
                reveal_strlit("__atli_add");
            }
            "__atli_add"
        },
        PreludeFn::Sub => {
            proof {
                reveal_strlit("__atli_sub");
            }
            "__atli_sub"
        },
        PreludeFn::Mul => {
            proof {
                reveal_strlit("__atli_mul");
            }
            "__atli_mul"
        },
    }
}

fn app(f: Term, a: Term) -> (r: Term)
    ensures
        r@ == app_m(f@, a@),
{
    Term::App(Box::new(f), Box::new(a))
}

fn lam_nat(x: &str, body: Term) -> (r: Term)
    ensures
        r@ == lam_nat_m(x@, body@),
{
    Term::Lam { param: owned(x), param_ty: Type::Nat, body: Box::new(body) }
}

fn structural_loop(name: &str, zero: Term, succ: Term) -> (r: Term)
    ensures
        r@ == loop_m(name@, zero@, succ@),
{
    let case = Term::CaseNat {
        scrutinee: Box::new(Term::var("b")),
        zero_body: Box::new(zero),
        succ_var: owned("q"),
        succ_body: Box::new(succ),
    };
    assert(case@ == TermM::CaseNat {
        scrutinee: Box::new(var_m("b"@)),
        zero_body: Box::new(zero@),
        succ_var: "q"@,
        succ_body: Box::new(succ@),
    });
    Term::Fix {
        func: owned(name),
        param: owned("b"),
        param_ty: Type::Nat,
        body: Box::new(case),
        tag: RecursionTag::StructuralDescent,
    }
}

fn prelude_term(p: PreludeFn) -> (r: Term)
    ensures
        r@ == prelude_term_m(p),
{
    match p {
        PreludeFn::Pred => {
            let case = Term::CaseNat {
                scrutinee: Box::new(Term::var("n")),
                zero_body: Box::new(Term::zero()),
                succ_var: owned("p"),
                succ_body: Box::new(Term::var("p")),
            };
            lam_nat("n", case)
        },
        PreludeFn::Add => {
            let step = Term::succ(app(Term::var("__atli_add_loop"), Term::var("q")));
            lam_nat("a", structural_loop("__atli_add_loop", Term::var("a"), step))
        },
        PreludeFn::Sub => {
            let step = app(Term::var("__atli_pred"), app(Term::var("__atli_sub_loop"), Term::var("q")));
            lam_nat("a", structural_loop("__atli_sub_loop", Term::var("a"), step))
        },
        PreludeFn::Mul => {
            let step = app(
                app(Term::var("__atli_add"), Term::var("a")),
                app(Term::var("__atli_mul_loop"), Term::var("q")),
            );
            lam_nat("a", structural_loop("__atli_mul_loop", Term::zero(), step))
        },
    }
}

/// The prelude functions to inject for the operators in `used`.
fn prelude_with_dependencies(used: &PreludeSet) -> (r: Vec<PreludeFn>)
    ensures
        r@ == prelude_fns_m(used.add, used.sub, used.mul),
{
    let mut out: Vec<PreludeFn> = Vec::new();
    if used.sub {
        out.push(PreludeFn::Pred);
    }
    if used.add || used.mul {
        out.push(PreludeFn::Add);
    }
    if used.sub {
        out.push(PreludeFn::Sub);
    }
    if used.mul {
        out.push(PreludeFn::Mul);
    }
    proof {
        let a = if used.sub {
            seq![PreludeFn::Pred]
        } else {
            Seq::empty()
        };
        let b = if used.add || used.mul {
            seq![PreludeFn::Add]
        } else {
            Seq::empty()
        };
        let c = if used.sub {
            seq![PreludeFn::Sub]
        } else {
            Seq::empty()
        };
        let d = if used.mul {
            seq![PreludeFn::Mul]
        } else {
            Seq::empty()
        };
        assert(out@ =~= a + b + c + d);
    }
    out
}

// ---------------------------------------------------------------------------------------
// Declarations.
/// An effect declaration must give one operation, `op`, from `Nat` to `Nat`.
pub open spec fn effect_decl_m(e: EffectDecl) -> Result<(), ElabErrM> {
    if e.op.node@ != "op"@ {
        Err(err_m(e.op.span, "reduced core supports only operation name `op`"@))
    } else if lower_type_m(e.param.ty) != Type::Nat || lower_type_m(e.ret) != Type::Nat {
        Err(err_m(e.span, "reduced core operation must be `Nat -> Nat`"@))
    } else {
        Ok(())
    }
}

/// The first effect declaration that is not of that form.
pub open spec fn effects_m(ds: Seq<Decl>) -> Result<(), ElabErrM>
    decreases ds.len(),
{
    if ds.len() == 0 {
        Ok(())
    } else {
        match effects_m(ds.drop_last()) {
            Err(x) => Err(x),
            Ok(_) => match ds.last() {
                Decl::Effect(e) => effect_decl_m(e),
                Decl::Fn(_) => Ok(()),
            },
        }
    }
}

proof fn lemma_effects_err(ds: Seq<Decl>, i: int)
    requires
        0 <= i <= ds.len(),
        effects_m(ds.subrange(0, i)) is Err,
    ensures
        effects_m(ds) == effects_m(ds.subrange(0, i)),
    decreases ds.len() - i,
{
    if i == ds.len() {
        assert(ds.subrange(0, i) =~= ds);
    } else {
        assert(ds.subrange(0, i + 1).drop_last() =~= ds.subrange(0, i));
        lemma_effects_err(ds, i + 1);
    }
}

fn is_nat(ty: &crate::surface::ast::TypeExpr) -> (r: bool)
    ensures
        r == (lower_type_m(*ty) == Type::Nat),
{
    match lower_type(ty) {
        Ok(Type::Nat) => true,
        _ => false,
    }
}

fn check_effects(program: &Program) -> (r: Result<(), ElaborateError>)
    ensures
        match effects_m(program.decls@) {
            Ok(_) => r is Ok,
            Err(x) => r matches Err(y) && y@ == x,
        },
{
    let ghost ds = program.decls@;
    let mut i: usize = 0;
    proof {
        assert(ds.subrange(0, 0) =~= Seq::<Decl>::empty());
    }
    while i < program.decls.len()
        invariant
            i <= ds.len(),
            ds == program.decls@,
            effects_m(ds.subrange(0, i as int)) is Ok,
        decreases ds.len() - i,
    {
        proof {
            assert(ds.subrange(0, i as int + 1).drop_last() =~= ds.subrange(0, i as int));
            assert(ds.subrange(0, i as int + 1).last() == ds[i as int]);
        }
        match &program.decls[i] {
            Decl::Effect(e) => {
                if !str_eq(e.op.node.as_str(), "op") {
                    proof {
                        lemma_effects_err(ds, i as int + 1);
                    }
                    return Err(
                        ElaborateError::new(e.op.span, "reduced core supports only operation name `op`"),
                    );
                }
                if !is_nat(&e.param.ty) || !is_nat(&e.ret) {
                    proof {
                        lemma_effects_err(ds, i as int + 1);
                    }
                    return Err(ElaborateError::new(e.span, "reduced core operation must be `Nat -> Nat`"));
                }
            },
            Decl::Fn(_) => {},
        }
        i += 1;
    }
    proof {
        assert(ds.subrange(0, ds.len() as int) =~= ds);
    }
    Ok(())
}

pub open spec fn is_main_m(d: Decl) -> bool {
    fn_name_of(d) == Some("main"@)
}

/// The first function named `main`.
pub open spec fn main_index_m(ds: Seq<Decl>) -> Option<int>
    decreases ds.len(),
{
    if ds.len() == 0 {
        None
    } else {
        match main_index_m(ds.drop_last()) {
            Some(i) => Some(i),
            None => if is_main_m(ds.last()) {
                Some(ds.len() - 1)
            } else {
                None
            },
        }
    }
}

proof fn lemma_main_found(ds: Seq<Decl>, i: int)
    requires
        0 <= i <= ds.len(),
        main_index_m(ds.subrange(0, i)) is Some,
    ensures
        main_index_m(ds) == main_index_m(ds.subrange(0, i)),
        main_index_m(ds) matches Some(k) && 0 <= k < ds.len() && is_main_m(ds[k]),
    decreases ds.len() - i,
{
    if i == ds.len() {
        assert(ds.subrange(0, i) =~= ds);
        lemma_main_index_valid(ds);
    } else {
        assert(ds.subrange(0, i + 1).drop_last() =~= ds.subrange(0, i));
        lemma_main_found(ds, i + 1);
    }
}

proof fn lemma_main_index_valid(ds: Seq<Decl>)
    ensures
        main_index_m(ds) matches Some(k) ==> 0 <= k < ds.len() && is_main_m(ds[k]),
    decreases ds.len(),
{
    if ds.len() > 0 {
        lemma_main_index_valid(ds.drop_last());
    }
}

fn find_main(program: &Program) -> (r: Option<usize>)
    ensures
        match main_index_m(program.decls@) {
            None => r is None,
            Some(k) => r == Some(k as usize) && 0 <= k < program.decls@.len() && program.decls@[k] is Fn,
        },
{
    let ghost ds = program.decls@;
    let mut i: usize = 0;
    proof {
        assert(ds.subrange(0, 0) =~= Seq::<Decl>::empty());
    }
    while i < program.decls.len()
        invariant
            i <= ds.len(),
            ds == program.decls@,
            main_index_m(ds.subrange(0, i as int)) is None,
        decreases ds.len() - i,
    {
        proof {
            assert(ds.subrange(0, i as int + 1).drop_last() =~= ds.subrange(0, i as int));
            assert(ds.subrange(0, i as int + 1).last() == ds[i as int]);
        }
        match &program.decls[i] {
            Decl::Fn(f) => {
                if str_eq(f.name.node.as_str(), "main") {
                    proof {
                        lemma_main_found(ds, i as int + 1);
                    }
                    return Some(i);
                }
            },
            Decl::Effect(_) => {},
        }
        i += 1;
    }
    proof {
        assert(ds.subrange(0, ds.len() as int) =~= ds);
    }
    None
}

/// The functions other than `main`, in order.
pub open spec fn others_m(ds: Seq<Decl>) -> Seq<FnDecl>
    decreases ds.len(),
{
    if ds.len() == 0 {
        Seq::empty()
    } else {
        let before = others_m(ds.drop_last());
        match ds.last() {
            Decl::Fn(f) => if f.name.node@ != "main"@ {
                before.push(f)
            } else {
                before
            },
            Decl::Effect(_) => before,
        }
    }
}

/// The functions other than `main`, and the names of all functions.
fn collect_functions(program: &Program) -> (r: (Vec<&FnDecl>, Vec<String>))
    ensures
        r.0@.len() == others_m(program.decls@).len(),
        forall|j: int| 0 <= j < r.0@.len() ==> *#[trigger] r.0@[j] == others_m(program.decls@)[j],
        name_set(r.1@) == fn_names_m(program.decls@),
{
    let ghost ds = program.decls@;
    let mut others: Vec<&FnDecl> = Vec::new();
    let mut names: Vec<String> = Vec::new();
    let mut i: usize = 0;
    proof {
        assert(ds.subrange(0, 0) =~= Seq::<Decl>::empty());
        assert(name_set(names@) =~= fn_names_m(ds.subrange(0, 0)));
    }
    while i < program.decls.len()
        invariant
            i <= ds.len(),
            ds == program.decls@,
            others@.len() == others_m(ds.subrange(0, i as int)).len(),
            forall|j: int| 0 <= j < others@.len() ==> *#[trigger] others@[j] == others_m(ds.subrange(0, i as int))[j],
            name_set(names@) == fn_names_m(ds.subrange(0, i as int)),
        decreases ds.len() - i,
    {
        let ghost pre = ds.subrange(0, i as int);
        let ghost next = ds.subrange(0, i as int + 1);
        proof {
            assert(next.drop_last() =~= pre);
            assert(next.last() == ds[i as int]);
        }
        match &program.decls[i] {
            Decl::Fn(f) => {
                if !str_eq(f.name.node.as_str(), "main") {
                    others.push(f);
                }
                let ghost before = names@;
                names.push(owned(f.name.node.as_str()));
                proof {
                    assert(name_set(names@) =~= fn_names_m(next)) by {
                        assert forall|n: Seq<char>| name_set(names@).contains(n) implies fn_names_m(next).contains(n) by {
                            let j = choose|j: int| 0 <= j < names@.len() && #[trigger] names@[j]@ == n;
                            if j == before.len() {
                                assert(fn_name_of(next[i as int]) == Some(n));
                            } else {
                                assert(before[j]@ == n);
                                assert(name_set(before).contains(n));
                                assert(fn_names_m(pre).contains(n));
                                let k = choose|k: int| 0 <= k < pre.len() && #[trigger] fn_name_of(pre[k]) == Some(n);
                                assert(next[k] == pre[k]);
                            }
                        }
                        assert forall|n: Seq<char>| fn_names_m(next).contains(n) implies name_set(names@).contains(n) by {
                            let k = choose|k: int| 0 <= k < next.len() && #[trigger] fn_name_of(next[k]) == Some(n);
                            if k == i as int {
                                assert(names@[before.len() as int]@ == n);
                            } else {
                                assert(pre[k] == next[k]);
                                assert(fn_names_m(pre).contains(n));
                                assert(name_set(before).contains(n));
                                let j = choose|j: int| 0 <= j < before.len() && #[trigger] before[j]@ == n;
                                assert(names@[j]@ == n);
                            }
                        }
                    }
                }
            },
            Decl::Effect(_) => {
                proof {
                    assert(fn_names_m(next) =~= fn_names_m(pre)) by {
                        assert forall|n: Seq<char>| fn_names_m(next).contains(n) implies fn_names_m(pre).contains(n) by {
                            let k = choose|k: int| 0 <= k < next.len() && #[trigger] fn_name_of(next[k]) == Some(n);
                            assert(k != i as int);
                            assert(pre[k] == next[k]);
                        }
                        assert forall|n: Seq<char>| fn_names_m(pre).contains(n) implies fn_names_m(next).contains(n) by {
                            let k = choose|k: int| 0 <= k < pre.len() && #[trigger] fn_name_of(pre[k]) == Some(n);
                            assert(pre[k] == next[k]);
                        }
                    }
                }
            },
        }
        i += 1;
    }
    proof {
        assert(ds.subrange(0, ds.len() as int) =~= ds);
    }
    (others, names)
}

// ---------------------------------------------------------------------------------------
// Whole programs.
/// A program elaborated to one core term: the prelude and the functions let-bound around
/// `main`'s body.
pub struct ElaboratedProgram {
    pub term: Term,
    pub main: Term,
    pub spans: SpanTable,
    pub prelude: Vec<&'static str>,
}

/// `lets` holds a binding named `n`.
pub open spec fn named_in(lets: Seq<(Seq<char>, TermM)>, n: Seq<char>) -> bool {
    exists|i: int| 0 <= i < lets.len() && #[trigger] lets[i].0 == n
}

/// A let-bound function: a function on its own, or a group of mutually recursive functions
/// entered at one of its members.
pub open spec fn let_ok_m(ds: Seq<Decl>, l: (Seq<char>, TermM)) -> bool {
    let fm = fn_names_m(ds);
    let os = others_m(ds);
    ||| exists|j: int|
        0 <= j < os.len() && #[trigger] os[j].name.node@ == l.0 && value_of_m(ds, os[j], fm) == Ok::<
            TermM,
            ElabErrM,
        >(l.1)
    ||| exists|ms: Seq<FnDecl>|
        #[trigger] group_bindings_m(ms, ds, fm) matches Ok(bs) && l.1 == (TermM::FixGroup {
            bindings: bs,
            entry: l.0,
        }) && (forall|k: int| 0 <= k < ms.len() ==> os.contains(#[trigger] ms[k])) && (exists|k: int|
            0 <= k < ms.len() && #[trigger] ms[k].name.node@ == l.0)
}

/// The operators that a program's functions and `main` (`m`) use.
pub open spec fn used_ops_m(ds: Seq<Decl>, m: FnDecl) -> OpsM {
    join_ops(bodies_ops_m(others_m(ds)), ops_m(m.body))
}

/// The shape of an elaborated program: the prelude for the operators `used`, then the
/// functions, around `main`.
pub open spec fn shape_m(
    ds: Seq<Decl>,
    term: TermM,
    main: TermM,
    prelude: Seq<Seq<char>>,
    used: OpsM,
    lets: Seq<(Seq<char>, TermM)>,
) -> bool {
    &&& prelude == prelude_fns_m(used.add, used.sub, used.mul).map_values(|f: PreludeFn| prelude_name_m(f))
    &&& term == wrap_lets_m(prelude_lets_m(prelude_fns_m(used.add, used.sub, used.mul)) + lets, main)
    &&& forall|i: int| 0 <= i < lets.len() ==> let_ok_m(ds, #[trigger] lets[i])
    &&& forall|j: int| 0 <= j < others_m(ds).len() ==> named_in(lets, #[trigger] others_m(ds)[j].name.node@)
}

pub open spec fn prelude_view(v: Seq<&str>) -> Seq<Seq<char>> {
    v.map_values(|s: &str| s@)
}

pub open spec fn empty_env_m() -> LEnvM {
    LEnvM { vars: Set::empty(), conts: Set::empty() }
}

/// What elaboration of a program with a parameterless `main` (`m`) gives: on success `main`
/// as lowered in the empty scope, the body of every other function lowered under its
/// parameters, and the program of that shape with the prelude for the operators used;
/// failure when `main` or the body of any function fails to lower, and then with the error
/// of `main` or of one of the functions.
pub open spec fn main_outcome_m(ds: Seq<Decl>, m: FnDecl, r: Result<ElaboratedProgram, ElaborateError>) -> bool {
    let fm = fn_names_m(ds);
    let os = others_m(ds);
    &&& r matches Ok(p) ==> {
        &&& lower_m(m.body, empty_env_m(), fm) == Ok::<TermM, ElabErrM>(p.main@)
        &&& forall|j: int| 0 <= j < os.len() ==> body_lowers_m(ds, #[trigger] os[j])
        &&& exists|lets: Seq<(Seq<char>, TermM)>|
            #[trigger] shape_m(ds, p.term@, p.main@, prelude_view(p.prelude@), used_ops_m(ds, m), lets)
    }
    &&& lower_m(m.body, empty_env_m(), fm) is Err ==> r is Err
    &&& r matches Err(y) ==> lower_m(m.body, empty_env_m(), fm) == Err::<TermM, ElabErrM>(y@)
        || function_error_m(ds, y@)
}

/// The outcome of elaborating a program, by the first check that fails: uniqueness, the
/// effect declarations, a `main` function without parameters, then the functions.
pub open spec fn elaborate_outcome_m(ds: Seq<Decl>, r: Result<ElaboratedProgram, ElaborateError>) -> bool {
    match surface_unique_m(ds, program_sigs_m(ds)) {
        Err(x) => r matches Err(y) && y@ == x,
        Ok(_) => match effects_m(ds) {
            Err(x) => r matches Err(y) && y@ == x,
            Ok(_) => match main_index_m(ds) {
                None => r matches Err(y) && y@ == err_m(Span { start: 0, end: 0 }, "expected `fn main`"@),
                Some(i) => match ds[i] {
                    Decl::Fn(m) => if m.params@.len() > 0 {
                        r matches Err(y) && y@ == err_m(m.name.span, "`main` must take no parameters"@)
                    } else {
                        main_outcome_m(ds, m, r)
                    },
                    Decl::Effect(_) => false,
                },
            },
        },
    }
}

proof fn lemma_wrap_concat(a: Seq<(Seq<char>, TermM)>, b: Seq<(Seq<char>, TermM)>, body: TermM)
    ensures
        wrap_lets_m(a + b, body) == wrap_lets_m(a, wrap_lets_m(b, body)),
    decreases b.len(),
{
    if b.len() == 0 {
        assert(a + b =~= a);
    } else {
        let l = b.last();
        let inner = TermM::Let { var: l.0, expr: Box::new(l.1), body: Box::new(body) };
        assert((a + b).drop_last() =~= a + b.drop_last());
        assert((a + b).last() == l);
        lemma_wrap_concat(a, b.drop_last(), inner);
    }
}

pub open spec fn lets_view(v: Seq<(String, Term, Span)>) -> Seq<(Seq<char>, TermM)> {
    v.map_values(|l: (String, Term, Span)| (l.0@, l.1@))
}

/// The error of one of the functions on its own, or of a group of them.
pub open spec fn function_error_m(ds: Seq<Decl>, e: ElabErrM) -> bool {
    let fm = fn_names_m(ds);
    let os = others_m(ds);
    ||| exists|j: int| 0 <= j < os.len() && #[trigger] value_of_m(ds, os[j], fm) == Err::<TermM, ElabErrM>(e)
    ||| exists|ms: Seq<FnDecl>|
        #[trigger] group_bindings_m(ms, ds, fm) == Err::<Seq<FixBindingM>, ElabErrM>(e) && (forall|k: int|
            0 <= k < ms.len() ==> os.contains(#[trigger] ms[k]))
}

/// The body of `f` lowers, under the parameters of its signature.
pub open spec fn body_lowers_m(ds: Seq<Decl>, f: FnDecl) -> bool {
    match params_of_m(ds, f.name.node@) {
        None => false,
        Some(ps) => lower_m(f.body, params_env_m(ps), fn_names_m(ds)) is Ok,
    }
}

proof fn lemma_value_lowers(ds: Seq<Decl>, f: FnDecl)
    requires
        value_of_m(ds, f, fn_names_m(ds)) is Ok,
    ensures
        body_lowers_m(ds, f),
{
}

proof fn lemma_group_lowers(ms: Seq<FnDecl>, ds: Seq<Decl>)
    requires
        group_bindings_m(ms, ds, fn_names_m(ds)) is Ok,
    ensures
        forall|k: int| 0 <= k < ms.len() ==> body_lowers_m(ds, #[trigger] ms[k]),
    decreases ms.len(),
{
    if ms.len() > 0 {
        lemma_group_lowers(ms.drop_last(), ds);
        assert forall|k: int| 0 <= k < ms.len() implies body_lowers_m(ds, #[trigger] ms[k]) by {
            if k < ms.len() - 1 {
                assert(ms[k] == ms.drop_last()[k]);
            }
        }
    }
}

/// One of the three operator flags: `+`, `-` or `*` for `w` 0, 1 or 2.
pub open spec fn ops_flag(o: OpsM, w: int) -> bool {
    if w == 0 {
        o.add
    } else if w == 1 {
        o.sub
    } else {
        o.mul
    }
}

pub open spec fn prelude_flag(p: PreludeSet, w: int) -> bool {
    if w == 0 {
        p.add
    } else if w == 1 {
        p.sub
    } else {
        p.mul
    }
}

/// Some function of the first `c` components of `order` uses operator `w`.
pub open spec fn done_use(os: Seq<FnDecl>, order: Seq<Vec<usize>>, c: int, w: int) -> bool {
    exists|cc: int, k: int|
        0 <= cc < c && 0 <= k < order[cc]@.len() && #[trigger] ops_flag(
            ops_m(os[order[cc]@[k] as int].body),
            w,
        )
}

proof fn lemma_done_step(os: Seq<FnDecl>, order: Seq<Vec<usize>>, c: int, w: int, extra: bool)
    requires
        0 <= c < order.len(),
        extra == exists|k: int| 0 <= k < order[c]@.len() && #[trigger] ops_flag(ops_m(os[order[c]@[k] as int].body), w),
    ensures
        done_use(os, order, c + 1, w) == (done_use(os, order, c, w) || extra),
{
    if done_use(os, order, c + 1, w) {
        let (cc, k) = choose|cc: int, k: int|
            0 <= cc < c + 1 && 0 <= k < order[cc]@.len() && #[trigger] ops_flag(
                ops_m(os[order[cc]@[k] as int].body),
                w,
            );
        if cc < c {
            assert(done_use(os, order, c, w));
        } else {
            assert(ops_flag(ops_m(os[order[c]@[k] as int].body), w));
        }
    }
    if done_use(os, order, c, w) {
        let (cc, k) = choose|cc: int, k: int|
            0 <= cc < c && 0 <= k < order[cc]@.len() && #[trigger] ops_flag(
                ops_m(os[order[cc]@[k] as int].body),
                w,
            );
        assert(done_use(os, order, c + 1, w));
    }
    if extra {
        let k = choose|k: int| 0 <= k < order[c]@.len() && #[trigger] ops_flag(ops_m(os[order[c]@[k] as int].body), w);
        assert(ops_flag(ops_m(os[order[c]@[k] as int].body), w));
        assert(done_use(os, order, c + 1, w));
    }
}

proof fn lemma_bodies_flag(fs: Seq<FnDecl>, w: int)
    ensures
        ops_flag(bodies_ops_m(fs), w) == exists|k: int| 0 <= k < fs.len() && #[trigger] ops_flag(ops_m(fs[k].body), w),
{
    lemma_bodies_ops(fs);
    if ops_flag(bodies_ops_m(fs), w) {
        if w == 0 {
            let k = choose|k: int| 0 <= k < fs.len() && #[trigger] ops_m(fs[k].body).add;
            assert(ops_flag(ops_m(fs[k].body), w));
        } else if w == 1 {
            let k = choose|k: int| 0 <= k < fs.len() && #[trigger] ops_m(fs[k].body).sub;
            assert(ops_flag(ops_m(fs[k].body), w));
        } else {
            let k = choose|k: int| 0 <= k < fs.len() && #[trigger] ops_m(fs[k].body).mul;
            assert(ops_flag(ops_m(fs[k].body), w));
        }
    }
    if exists|k: int| 0 <= k < fs.len() && #[trigger] ops_flag(ops_m(fs[k].body), w) {
        let k = choose|k: int| 0 <= k < fs.len() && #[trigger] ops_flag(ops_m(fs[k].body), w);
        if w == 0 {
            assert(ops_m(fs[k].body).add);
        } else if w == 1 {
            assert(ops_m(fs[k].body).sub);
        } else {
            assert(ops_m(fs[k].body).mul);
        }
    }
}

/// Every function's index is placed in `order` and every placed index is a function's:
/// the functions of `order` that use `w` are those of `os` that do.
proof fn lemma_done_all(os: Seq<FnDecl>, order: Seq<Vec<usize>>, w: int)
    requires
        forall|cc: int, k: int| 0 <= cc < order.len() && 0 <= k < order[cc]@.len() ==> #[trigger] order[cc]@[k] < os.len(),
        forall|u: usize| u < os.len() ==> #[trigger] placed(order, u),
        os.len() < usize::MAX,
    ensures
        done_use(os, order, order.len() as int, w) == ops_flag(bodies_ops_m(os), w),
{
    lemma_bodies_flag(os, w);
    if done_use(os, order, order.len() as int, w) {
        let (cc, k) = choose|cc: int, k: int|
            0 <= cc < order.len() && 0 <= k < order[cc]@.len() && #[trigger] ops_flag(
                ops_m(os[order[cc]@[k] as int].body),
                w,
            );
        let j = order[cc]@[k] as int;
        assert(order[cc]@[k] < os.len());
        assert(ops_flag(ops_m(os[j].body), w));
    }
    if ops_flag(bodies_ops_m(os), w) {
        let j = choose|j: int| 0 <= j < os.len() && #[trigger] ops_flag(ops_m(os[j].body), w);
        assert(placed(order, j as usize));
        let (cc, k) = choose|cc: int, k: int| 0 <= cc < order.len() && 0 <= k < order[cc]@.len() && #[trigger] order[cc]@[k] == j as usize;
        assert(order[cc]@[k] as int == j);
        assert(ops_flag(ops_m(os[order[cc]@[k] as int].body), w));
        assert(done_use(os, order, order.len() as int, w));
    }
}

/// The functions other than `main`, elaborated group by group in `order`: the scope after
/// them and their bindings.
fn bind_functions(
    program: &Program,
    others: &Vec<&FnDecl>,
    order: &Vec<Vec<usize>>,
    fns: &Vec<String>,
    spans: &mut SpanTable,
    prelude: &mut PreludeSet,
) -> (r: Result<(LEnv, Vec<(String, Term, Span)>), ElaborateError>)
    requires
        name_set(fns@) == fn_names_m(program.decls@),
        others@.len() < usize::MAX,
        others@.len() == others_m(program.decls@).len(),
        forall|j: int| 0 <= j < others@.len() ==> *#[trigger] others@[j] == others_m(program.decls@)[j],
        forall|j: int|
            0 <= j < others@.len() ==> name_set(fns@).contains(#[trigger] others@[j].name.node@),
        forall|cc: int, k: int|
            0 <= cc < order@.len() && 0 <= k < order@[cc]@.len() ==> #[trigger] order@[cc]@[k]
                < others@.len(),
        forall|u: usize| u < others@.len() ==> #[trigger] placed(order@, u),
    ensures
        match r {
            Ok((env, lets)) => {
                &&& forall|j: int|
                    0 <= j < others_m(program.decls@).len() ==> body_lowers_m(
                        program.decls@,
                        #[trigger] others_m(program.decls@)[j],
                    )
                &&& grew(*old(prelude), *final(prelude), bodies_ops_m(others_m(program.decls@)))
                &&& agree(env@, empty_env_m(), fn_names_m(program.decls@))
                &&& forall|i: int| 0 <= i < lets@.len() ==> let_ok_m(program.decls@, #[trigger] lets_view(lets@)[i])
                &&& forall|j: int|
                    0 <= j < others_m(program.decls@).len() ==> named_in(
                        lets_view(lets@),
                        #[trigger] others_m(program.decls@)[j].name.node@,
                    )
            },
            Err(y) => function_error_m(program.decls@, y@),
        },
{
    let ghost ds = program.decls@;
    let ghost fm = fn_names_m(ds);
    let ghost os = others_m(ds);
    let mut env = LEnv::new();
    let mut lets: Vec<(String, Term, Span)> = Vec::new();
    let mut c: usize = 0;
    let ghost p0 = *prelude;
    proof {
        assert(agree(env@, empty_env_m(), fm));
    }
    while c < order.len()
        invariant
            c <= order@.len(),
            forall|w: int| 0 <= w < 3 ==> #[trigger] prelude_flag(*prelude, w) == (prelude_flag(p0, w) || done_use(os, order@, c as int, w)),
            ds == program.decls@,
            fm == fn_names_m(ds),
            os == others_m(ds),
            fm == name_set(fns@),
            others@.len() == os.len(),
            forall|j: int| 0 <= j < others@.len() ==> *#[trigger] others@[j] == os[j],
            forall|j: int| 0 <= j < others@.len() ==> fm.contains(#[trigger] others@[j].name.node@),
            forall|cc: int, k: int|
                0 <= cc < order@.len() && 0 <= k < order@[cc]@.len() ==> #[trigger] order@[cc]@[k]
                    < others@.len(),
            agree(env@, empty_env_m(), fm),
            forall|u: usize| u < others@.len() ==> #[trigger] placed(order@, u),
            others@.len() < usize::MAX,
            forall|i: int| 0 <= i < lets@.len() ==> let_ok_m(ds, #[trigger] lets_view(lets@)[i]),
            forall|cc: int, k: int|
                0 <= cc < c && 0 <= k < order@[cc]@.len() ==> named_in(
                    lets_view(lets@),
                    #[trigger] os[order@[cc]@[k] as int].name.node@,
                ),
            forall|cc: int, k: int|
                0 <= cc < c && 0 <= k < order@[cc]@.len() ==> body_lowers_m(ds, #[trigger] os[order@[cc]@[k] as int]),
        decreases order@.len() - c,
    {
        let comp = &order[c];
        let ghost before = lets_view(lets@);
        let ghost pre = *prelude;
        if comp.len() == 1 {
            let f = others[comp[0]];
            let ghost j = comp@[0] as int;
            let ps = match params_of(program, f.name.node.as_str()) {
                None => {
                    proof {
                        assert(value_of_m(ds, os[j], fm) == Err::<TermM, ElabErrM>(missing_sig_m(f.name.span)));
                    }
                    return Err(ElaborateError::new(f.name.span, "internal missing function signature"));
                },
                Some(p) => p,
            };
            let value = match function_value(f, ps, &env, fns, spans, prelude) {
                Ok(v) => v,
                Err(x) => {
                    proof {
                        assert(value_of_m(ds, os[j], fm) == Err::<TermM, ElabErrM>(x@));
                    }
                    return Err(x);
                },
            };
            env.add_var(f.name.node.as_str());
            proof {
                assert(*f == os[j]);
                assert(j == order@[c as int]@[0] as int);
                assert forall|w: int| 0 <= w < 3 implies #[trigger] prelude_flag(*prelude, w) == (prelude_flag(p0, w) || done_use(os, order@, c + 1, w)) by {
                    assert(prelude_flag(pre, w) == (prelude_flag(p0, w) || done_use(os, order@, c as int, w)));
                    assert(prelude_flag(*prelude, w) == (prelude_flag(pre, w) || ops_flag(ops_m(f.body), w)));
                    let extra = exists|k: int| 0 <= k < order@[c as int]@.len() && #[trigger] ops_flag(ops_m(os[order@[c as int]@[k] as int].body), w);
                    if extra {
                        let k = choose|k: int| 0 <= k < order@[c as int]@.len() && #[trigger] ops_flag(ops_m(os[order@[c as int]@[k] as int].body), w);
                        assert(k == 0);
                    }
                    assert(ops_flag(ops_m(os[order@[c as int]@[0] as int].body), w) ==> extra);
                    lemma_done_step(os, order@, c as int, w, extra);
                }
                assert(value_of_m(ds, os[j], fm) == Ok::<TermM, ElabErrM>(value@));
                lemma_value_lowers(ds, os[j]);
                assert(let_ok_m(ds, (f.name.node@, value@)));
                assert(agree(env@, empty_env_m(), fm)) by {
                    assert forall|x: Seq<char>| (env@.vars.contains(x) || fm.contains(x)) == (
                    empty_env_m().vars.contains(x) || fm.contains(x)) by {
                        if x == f.name.node@ {
                            assert(fm.contains(others@[j].name.node@));
                        }
                    }
                }
            }
            let ghost old_lets = lets@;
            lets.push((owned(f.name.node.as_str()), value, f.span));
            proof {
                assert(lets_view(lets@) =~= before.push((f.name.node@, value@)));
            }
        } else {
            let group = match function_group_values(program, others, comp, &env, fns, spans, prelude) {
                Ok(g) => g,
                Err(x) => {
                    proof {
                        let ms = members_m(others@, comp@);
                        assert forall|k: int| 0 <= k < ms.len() implies os.contains(#[trigger] ms[k]) by {
                            assert(ms[k] == os[comp@[k] as int]);
                        }
                    }
                    return Err(x);
                },
            };
            let ghost ms = members_m(others@, comp@);
            proof {
                assert forall|w: int| 0 <= w < 3 implies #[trigger] prelude_flag(*prelude, w) == (prelude_flag(p0, w) || done_use(os, order@, c + 1, w)) by {
                    assert(prelude_flag(pre, w) == (prelude_flag(p0, w) || done_use(os, order@, c as int, w)));
                    assert(prelude_flag(*prelude, w) == (prelude_flag(pre, w) || ops_flag(bodies_ops_m(ms), w)));
                    lemma_bodies_flag(ms, w);
                    let extra = exists|k: int| 0 <= k < order@[c as int]@.len() && #[trigger] ops_flag(ops_m(os[order@[c as int]@[k] as int].body), w);
                    if extra {
                        let k = choose|k: int| 0 <= k < order@[c as int]@.len() && #[trigger] ops_flag(ops_m(os[order@[c as int]@[k] as int].body), w);
                        assert(ms[k] == os[comp@[k] as int]);
                        assert(ops_flag(ops_m(ms[k].body), w));
                    }
                    if ops_flag(bodies_ops_m(ms), w) {
                        let k = choose|k: int| 0 <= k < ms.len() && #[trigger] ops_flag(ops_m(ms[k].body), w);
                        assert(ms[k] == os[comp@[k] as int]);
                        assert(ops_flag(ops_m(os[order@[c as int]@[k] as int].body), w));
                    }
                    lemma_done_step(os, order@, c as int, w, extra);
                }
            }
            let ghost bs = match group_bindings_m(ms, ds, fm) {
                Ok(b) => b,
                Err(_) => Seq::empty(),
            };
            proof {
                assert forall|k: int| 0 <= k < ms.len() implies os.contains(#[trigger] ms[k]) by {
                    assert(ms[k] == os[comp@[k] as int]);
                }
            }
            let mut g: usize = 0;
            while g < group.len()
                invariant
                    g <= group@.len(),
                    group@.len() == comp@.len(),
                    ds == program.decls@,
                    fm == fn_names_m(ds),
                    os == others_m(ds),
                    ms == members_m(others@, comp@),
                    group_bindings_m(ms, ds, fm) == Ok::<Seq<FixBindingM>, ElabErrM>(bs),
                    forall|k: int| 0 <= k < ms.len() ==> os.contains(#[trigger] ms[k]),
                    forall|i: int|
                        0 <= i < group@.len() ==> {
                            &&& (#[trigger] group@[i]).0@ == ms[i].name.node@
                            &&& group@[i].1@ == (TermM::FixGroup { bindings: bs, entry: group@[i].0@ })
                        },
                    forall|j: int| 0 <= j < others@.len() ==> *#[trigger] others@[j] == os[j],
                    forall|j: int| 0 <= j < others@.len() ==> fm.contains(#[trigger] others@[j].name.node@),
                    forall|k: int| 0 <= k < comp@.len() ==> #[trigger] comp@[k] < others@.len(),
                    agree(env@, empty_env_m(), fm),
                    lets@.len() == before.len() + g,
                    lets_view(lets@).subrange(0, before.len() as int) == before,
                    forall|i: int| 0 <= i < lets@.len() ==> let_ok_m(ds, #[trigger] lets_view(lets@)[i]),
                    forall|i: int|
                        0 <= i < g ==> #[trigger] lets_view(lets@)[before.len() + i].0 == ms[i].name.node@,
                decreases group@.len() - g,
            {
                let name = owned(group[g].0.as_str());
                let value = group[g].1.duplicate();
                let span = group[g].2;
                env.add_var(name.as_str());
                let ghost old_view = lets_view(lets@);
                proof {
                    assert(ms[g as int] == os[comp@[g as int] as int]);
                    assert(agree(env@, empty_env_m(), fm)) by {
                        assert forall|x: Seq<char>| (env@.vars.contains(x) || fm.contains(x)) == (
                        empty_env_m().vars.contains(x) || fm.contains(x)) by {
                            if x == name@ {
                                assert(fm.contains(others@[comp@[g as int] as int].name.node@));
                            }
                        }
                    }
                    assert(ms[g as int].name.node@ == name@);
                    assert(let_ok_m(ds, (name@, value@)));
                }
                lets.push((name, value, span));
                proof {
                    assert(lets_view(lets@) =~= old_view.push((name@, value@)));
                    assert(lets_view(lets@).subrange(0, before.len() as int) =~= old_view.subrange(
                        0,
                        before.len() as int,
                    ));
                }
                g += 1;
            }
            proof {
                lemma_group_lowers(ms, ds);
                assert forall|k: int| 0 <= k < comp@.len() implies body_lowers_m(ds, #[trigger] os[comp@[k] as int]) by {
                    assert(ms[k] == os[comp@[k] as int]);
                }
            }
        }
        proof {
            assert forall|cc: int, k: int|
                0 <= cc < c + 1 && 0 <= k < order@[cc]@.len() implies body_lowers_m(ds, #[trigger] os[order@[cc]@[k] as int]) by {
                if cc == c && comp@.len() == 1 {
                    assert(k == 0);
                }
            }
            let now = lets_view(lets@);
            assert forall|cc: int, k: int|
                0 <= cc < c + 1 && 0 <= k < order@[cc]@.len() implies named_in(
                now,
                #[trigger] os[order@[cc]@[k] as int].name.node@,
            ) by {
                let n = os[order@[cc]@[k] as int].name.node@;
                if cc < c {
                    assert(named_in(before, n));
                    let i = choose|i: int| 0 <= i < before.len() && #[trigger] before[i].0 == n;
                    assert(now.subrange(0, before.len() as int)[i] == before[i]);
                    assert(now[i].0 == n);
                } else if comp@.len() == 1 {
                    assert(now[before.len() as int].0 == n);
                } else {
                    assert(members_m(others@, comp@)[k].name.node@ == n);
                    assert(now[before.len() + k].0 == n);
                }
            }
        }
        c += 1;
    }
    proof {
        assert forall|w: int| 0 <= w < 3 implies #[trigger] prelude_flag(*prelude, w) == (prelude_flag(p0, w) || ops_flag(bodies_ops_m(os), w)) by {
            lemma_done_all(os, order@, w);
        }
        assert(prelude_flag(*prelude, 0) == (prelude_flag(p0, 0) || ops_flag(bodies_ops_m(os), 0)));
        assert(prelude_flag(*prelude, 1) == (prelude_flag(p0, 1) || ops_flag(bodies_ops_m(os), 1)));
        assert(prelude_flag(*prelude, 2) == (prelude_flag(p0, 2) || ops_flag(bodies_ops_m(os), 2)));
        assert forall|j: int| 0 <= j < os.len() implies body_lowers_m(ds, #[trigger] os[j]) by {
            assert(placed(order@, j as usize));
            let (cc, kk) = choose|cc: int, kk: int|
                0 <= cc < order@.len() && 0 <= kk < order@[cc]@.len() && #[trigger] order@[cc]@[kk] == j as usize;
            assert(body_lowers_m(ds, os[order@[cc]@[kk] as int]));
        }
        assert forall|j: int| 0 <= j < os.len() implies named_in(lets_view(lets@), #[trigger] os[j].name.node@) by {
            assert(placed(order@, j as usize));
            let (cc, kk) = choose|cc: int, kk: int|
                0 <= cc < order@.len() && 0 <= kk < order@[cc]@.len() && #[trigger] order@[cc]@[kk] == j as usize;
            assert(named_in(lets_view(lets@), os[order@[cc]@[kk] as int].name.node@));
        }
    }
    Ok((env, lets))
}

/// `lets` and then the prelude let-bound around `main`, and the prelude's names.
fn assemble(
    main: &Term,
    lets: Vec<(String, Term, Span)>,
    used: &PreludeSet,
    main_span: Span,
    spans: &mut SpanTable,
) -> (r: (Term, Vec<&'static str>))
    ensures
        prelude_view(r.1@) == prelude_fns_m(used.add, used.sub, used.mul).map_values(
            |f: PreludeFn| prelude_name_m(f),
        ),
        r.0@ == wrap_lets_m(prelude_lets_m(prelude_fns_m(used.add, used.sub, used.mul)) + lets_view(lets@), main@),
{
    let ghost all = lets_view(lets@);
    let mut lets = lets;
    let mut term = main.duplicate();
    proof {
        assert(all.subrange(0, lets@.len() as int) =~= all);
    }
    while lets.len() > 0
        invariant
            lets@.len() <= all.len(),
            forall|i: int| 0 <= i < lets@.len() ==> #[trigger] lets_view(lets@)[i] == all[i],
            wrap_lets_m(all, main@) == wrap_lets_m(all.subrange(0, lets@.len() as int), term@),
        decreases lets@.len(),
    {
        let ghost k = lets@.len();
        let ghost pre = lets@;
        let (name, value, span) = lets.pop().unwrap();
        proof {
            let sub = all.subrange(0, k as int);
            assert(sub.drop_last() =~= all.subrange(0, k - 1));
            assert(lets_view(pre)[k - 1] == all[k - 1]);
            assert(sub.last() == all[k - 1]);
            assert forall|i: int| 0 <= i < lets@.len() implies #[trigger] lets_view(lets@)[i] == all[i] by {
                assert(lets@[i] == pre[i]);
                assert(lets_view(pre)[i] == all[i]);
            }
        }
        term = Term::Let { var: name, expr: Box::new(value), body: Box::new(term) };
        spans.record(&term, span.join(main_span));
    }
    let injected = prelude_with_dependencies(used);
    let ghost pl = prelude_lets_m(injected@);
    let ghost inner = term@;
    let mut k: usize = injected.len();
    proof {
        assert(pl.subrange(0, k as int) =~= pl);
    }
    while k > 0
        invariant
            k <= injected@.len(),
            pl == prelude_lets_m(injected@),
            wrap_lets_m(pl, inner) == wrap_lets_m(pl.subrange(0, k as int), term@),
        decreases k,
    {
        let pf = injected[k - 1];
        proof {
            let sub = pl.subrange(0, k as int);
            assert(sub.drop_last() =~= pl.subrange(0, k - 1));
            assert(sub.last() == pl[k - 1]);
        }
        term = Term::Let {
            var: owned(prelude_name(pf)),
            expr: Box::new(prelude_term(pf)),
            body: Box::new(term),
        };
        spans.record(&term, main_span);
        k -= 1;
    }
    let mut names: Vec<&'static str> = Vec::new();
    let mut i: usize = 0;
    while i < injected.len()
        invariant
            i <= injected@.len(),
            names@.len() == i,
            forall|j: int| 0 <= j < i ==> (#[trigger] names@[j])@ == prelude_name_m(injected@[j]),
        decreases injected@.len() - i,
    {
        names.push(prelude_name(injected[i]));
        i += 1;
    }
    proof {
        lemma_wrap_concat(pl, all, main@);
        assert(prelude_view(names@) =~= injected@.map_values(|f: PreludeFn| prelude_name_m(f)));
    }
    (term, names)
}

/// Elaborates a parsed program to one core term.
pub fn elaborate_program(program: &Program) -> (r: Result<ElaboratedProgram, ElaborateError>)
    requires
        program.decls@.len() < usize::MAX,
    ensures
        elaborate_outcome_m(program.decls@, r),
{
    let ghost ds = program.decls@;
    match check_surface_uniqueness(program) {
        Err(x) => {
            return Err(x);
        },
        Ok(()) => {},
    }
    match check_effects(program) {
        Err(x) => {
            return Err(x);
        },
        Ok(()) => {},
    }
    let main_at = match find_main(program) {
        None => {
            return Err(ElaborateError::new(Span::new(0, 0), "expected `fn main`"));
        },
        Some(i) => i,
    };
    let main_decl = match &program.decls[main_at] {
        Decl::Fn(f) => f,
        Decl::Effect(_) => {
            return Err(ElaborateError::new(Span::new(0, 0), "expected `fn main`"));
        },
    };
    if main_decl.params.len() > 0 {
        return Err(ElaborateError::new(main_decl.name.span, "`main` must take no parameters"));
    }
    let ghost md = *main_decl;
    let (others, fns) = collect_functions(program);
    let ghost fm = fn_names_m(ds);
    let ghost os = others_m(ds);
    proof {
        lemma_others_len(ds);
        lemma_others_named(ds);
        assert forall|j: int| 0 <= j < others@.len() implies fm.contains(#[trigger] others@[j].name.node@) by {
            assert(*others@[j] == os[j]);
        }
        assert(forall|r: Result<ElaboratedProgram, ElaborateError>|
            #[trigger] elaborate_outcome_m(ds, r) == main_outcome_m(ds, md, r));
    }
    let order = declaration_scc_order(&others);
    let mut spans = SpanTable::new();
    let mut prelude = PreludeSet::new();
    proof {
        lemma_others_len(ds);
    }
    let (env, lets) = match bind_functions(program, &others, &order, &fns, &mut spans, &mut prelude) {
        Ok(b) => b,
        Err(x) => {
            return Err(x);
        },
    };
    proof {
        lemma_lower_agree(main_decl.body, env@, empty_env_m(), fm);
    }
    let main_t = match lower_expr(&main_decl.body, &env, &fns, &mut spans, &mut prelude) {
        Ok(t) => t,
        Err(x) => {
            return Err(x);
        },
    };
    let ghost all = lets_view(lets@);
    let (term, names) = assemble(&main_t, lets, &prelude, main_decl.span, &mut spans);
    let out = ElaboratedProgram { term, main: main_t, spans, prelude: names };
    proof {
        let used = used_ops_m(ds, md);
        assert(prelude.add == used.add && prelude.sub == used.sub && prelude.mul == used.mul);
        assert(shape_m(ds, out.term@, out.main@, prelude_view(out.prelude@), used, all));
    }
    Ok(out)
}

proof fn lemma_others_len(ds: Seq<Decl>)
    ensures
        others_m(ds).len() <= ds.len(),
    decreases ds.len(),
{
    if ds.len() > 0 {
        lemma_others_len(ds.drop_last());
    }
}

proof fn lemma_others_named(ds: Seq<Decl>)
    ensures
        forall|j: int| 0 <= j < others_m(ds).len() ==> fn_names_m(ds).contains(#[trigger] others_m(ds)[j].name.node@),
    decreases ds.len(),
{
    if ds.len() > 0 {
        let pre = ds.drop_last();
        lemma_others_named(pre);
        assert forall|j: int| 0 <= j < others_m(ds).len() implies fn_names_m(ds).contains(
            #[trigger] others_m(ds)[j].name.node@,
        ) by {
            let n = others_m(ds)[j].name.node@;
            if j < others_m(pre).len() {
                assert(others_m(ds)[j] == others_m(pre)[j]);
                assert(fn_names_m(pre).contains(others_m(pre)[j].name.node@));
                assert(fn_names_m(pre).contains(n));
                let k = choose|k: int| 0 <= k < pre.len() && #[trigger] fn_name_of(pre[k]) == Some(n);
                assert(ds[k] == pre[k]);
            } else {
                assert(fn_name_of(ds[ds.len() - 1]) == Some(n));
            }
        }
    }
}

} // verus!