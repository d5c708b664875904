//! Lowering of surface expressions to core terms.

use vstd::prelude::*;

use crate::core_ast::{nat_m, HandlerM, OpClauseM, TermM, Type};
use crate::elaborate::error::ElabErrM;
use crate::surface::ast::{
    BinaryOp, Binding, CaseArm, Expr, ExprKind, HandleClause, Pattern, PrefixOp, Span, TypeExpr,
};

verus! {

broadcast use vstd::seq::group_seq_axioms;

// ---------------------------------------------------------------------------------------
// Sizes, for termination.
pub open spec fn size_m(e: Expr) -> nat
    decreases e, 0nat,
{
    match e.kind {
        ExprKind::Unit | ExprKind::Nat(_) | ExprKind::Var(_) => 1,
        ExprKind::Call { callee, args } => 1 + size_m(*callee) + sizes_m(args@),
        ExprKind::Binary { lhs, rhs, .. } => 1 + size_m(*lhs) + size_m(*rhs),
        ExprKind::Prefix { expr, .. } => 1 + size_m(*expr),
        ExprKind::QualifiedCall { args, .. } => 1 + sizes_m(args@),
        ExprKind::Pipe { lhs, rhs } => 2 + size_m(*lhs) + size_m(*rhs),
        ExprKind::Block { bindings, result } => 1 + binding_sizes_m(bindings@) + size_m(*result),
        ExprKind::CaseNat { scrutinee, arms } => 1 + size_m(*scrutinee) + arm_sizes_m(arms@),
        ExprKind::Handle { body, clauses } => 1 + size_m(*body) + clause_sizes_m(clauses@),
    }
}

pub open spec fn sizes_m(s: Seq<Expr>) -> nat
    decreases s, 0nat,
{
    if s.len() == 0 {
        0
    } else {
        sizes_m(s.drop_last()) + size_m(s.last())
    }
}

pub open spec fn binding_sizes_m(s: Seq<Binding>) -> nat
    decreases s, 0nat,
{
    if s.len() == 0 {
        0
    } else {
        binding_sizes_m(s.drop_last()) + size_m(s.last().expr)
    }
}

pub open spec fn arm_sizes_m(s: Seq<CaseArm>) -> nat
    decreases s, 0nat,
{
    if s.len() == 0 {
        0
    } else {
        arm_sizes_m(s.drop_last()) + size_m(s.last().body)
    }
}

pub open spec fn clause_body_m(c: HandleClause) -> Expr {
    match c {
        HandleClause::Return { body, .. } => body,
        HandleClause::Operation { body, .. } => body,
    }
}

pub open spec fn clause_sizes_m(s: Seq<HandleClause>) -> nat
    decreases s, 0nat,
{
    if s.len() == 0 {
        0
    } else {
        clause_sizes_m(s.drop_last()) + size_m(clause_body_m(s.last()))
    }
}

pub proof fn lemma_size_pos(e: Expr)
    ensures
        size_m(e) >= 1,
{
}

pub proof fn lemma_sizes_elem(s: Seq<Expr>, i: int)
    requires
        0 <= i < s.len(),
    ensures
        size_m(s[i]) <= sizes_m(s),
        sizes_m(s.subrange(0, i)) + size_m(s[i]) <= sizes_m(s),
    decreases s.len(),
{
    if i < s.len() - 1 {
        lemma_sizes_elem(s.drop_last(), i);
        assert(s.drop_last().subrange(0, i) =~= s.subrange(0, i));
    } else {
        assert(s.drop_last() =~= s.subrange(0, i));
    }
}

pub proof fn lemma_sizes_concat(a: Seq<Expr>, b: Seq<Expr>)
    ensures
        sizes_m(a + b) == sizes_m(a) + sizes_m(b),
    decreases b.len(),
{
    if b.len() == 0 {
        assert(a + b =~= a);
    } else {
        lemma_sizes_concat(a, b.drop_last());
        assert((a + b).drop_last() =~= a + b.drop_last());
        assert((a + b).last() == b.last());
    }
}

pub proof fn lemma_sizes_one(e: Expr)
    ensures
        sizes_m(seq![e]) == size_m(e),
{
    assert(seq![e].drop_last() =~= Seq::<Expr>::empty());
    assert(seq![e].last() == e);
    assert(sizes_m(Seq::<Expr>::empty()) == 0);
}

pub proof fn lemma_binding_sizes_elem(s: Seq<Binding>, i: int)
    requires
        0 <= i < s.len(),
    ensures
        size_m(s[i].expr) <= binding_sizes_m(s),
    decreases s.len(),
{
    if i < s.len() - 1 {
        lemma_binding_sizes_elem(s.drop_last(), i);
    }
}

pub proof fn lemma_arm_sizes_elem(s: Seq<CaseArm>, i: int)
    requires
        0 <= i < s.len(),
    ensures
        size_m(s[i].body) <= arm_sizes_m(s),
    decreases s.len(),
{
    if i < s.len() - 1 {
        lemma_arm_sizes_elem(s.drop_last(), i);
    }
}

pub proof fn lemma_clause_sizes_elem(s: Seq<HandleClause>, i: int)
    requires
        0 <= i < s.len(),
    ensures
        size_m(clause_body_m(s[i])) <= clause_sizes_m(s),
    decreases s.len(),
{
    if i < s.len() - 1 {
        lemma_clause_sizes_elem(s.drop_last(), i);
    }
}


// ---------------------------------------------------------------------------------------
// The lowering rules.
/// The names in scope while lowering: variables, and among them the continuations.
pub struct LEnvM {
    pub vars: Set<Seq<char>>,
    pub conts: Set<Seq<char>>,
}

pub open spec fn with_var_m(env: LEnvM, x: Seq<char>) -> LEnvM {
    LEnvM { vars: env.vars.insert(x), conts: env.conts }
}

pub open spec fn with_cont_m(env: LEnvM, k: Seq<char>) -> LEnvM {
    LEnvM { vars: env.vars.insert(k), conts: env.conts.insert(k) }
}

/// The prelude function that implements an arithmetic operator.
pub open spec fn binop_name(op: BinaryOp) -> Seq<char> {
    match op {
        BinaryOp::Add => "__atli_add"@,
        BinaryOp::Sub => "__atli_sub"@,
        BinaryOp::Mul => "__atli_mul"@,
    }
}

pub open spec fn err_m(span: Span, message: Seq<char>) -> ElabErrM {
    ElabErrM { span, message }
}

/// The core type of a surface type; uniqueness is erased.
pub open spec fn lower_type_m(ty: TypeExpr) -> Type
    decreases ty,
{
    match ty {
        TypeExpr::Unit(_) => Type::Unit,
        TypeExpr::Nat(_) => Type::Nat,
        TypeExpr::Array(_) => Type::Array,
        TypeExpr::Unique(inner, _) => lower_type_m(*inner),
        TypeExpr::Arrow(a, b, _) => Type::Arrow(Box::new(lower_type_m(*a)), Box::new(lower_type_m(*b))),
    }
}

/// The name a handler-clause pattern binds; `_` binds `fallback`.
pub open spec fn binder_m(p: Pattern, fallback: Seq<char>) -> Result<Seq<char>, ElabErrM> {
    match p {
        Pattern::Bind(name) => Ok(name.node@),
        Pattern::Wildcard(_) => Ok(fallback),
        Pattern::Zero(span) => Err(err_m(span, "operation clause binders must be names or `_`"@)),
    }
}

pub open spec fn is_builtin(name: Seq<char>) -> bool {
    name == "mkarray"@ || name == "get"@ || name == "set"@ || name == "len"@
}

pub open spec fn builtin_arity(name: Seq<char>) -> int {
    if name == "mkarray"@ || name == "get"@ {
        2
    } else if name == "set"@ {
        3
    } else {
        1
    }
}

/// The core term of a surface expression in scope `env`, where `fns` are the functions
/// of the program, or the first error.
pub open spec fn lower_m(e: Expr, env: LEnvM, fns: Set<Seq<char>>) -> Result<TermM, ElabErrM>
    decreases size_m(e), 1nat,
{
    match e.kind {
        ExprKind::Unit => Ok(TermM::Unit),
        ExprKind::Nat(v) => Ok(nat_m(v as nat)),
        ExprKind::Var(name) => if name@ != "_"@ && !env.vars.contains(name@) && !fns.contains(
            name@,
        ) {
            Err(err_m(e.span, "unbound surface variable `"@ + name@ + "`"@))
        } else {
            Ok(TermM::Var(name@))
        },
        ExprKind::Call { callee, args } => lower_call_m(*callee, args@, env, fns, e.span),
        ExprKind::Prefix { op, expr: inner } => match lower_m(*inner, env, fns) {
            Ok(t) => Ok(
                match op {
                    PrefixOp::Move => TermM::Move(Box::new(t)),
                    PrefixOp::Freeze => TermM::Freeze(Box::new(t)),
                    PrefixOp::Inplace => TermM::Inplace(Box::new(t)),
                },
            ),
            Err(x) => Err(x),
        },
        ExprKind::Binary { op, lhs, rhs } => match lower_m(*lhs, env, fns) {
            Ok(l) => match lower_m(*rhs, env, fns) {
                Ok(r) => Ok(
                    TermM::App(
                        Box::new(TermM::App(Box::new(TermM::Var(binop_name(op))), Box::new(l))),
                        Box::new(r),
                    ),
                ),
                Err(x) => Err(x),
            },
            Err(x) => Err(x),
        },
        ExprKind::QualifiedCall { effect, op, args } => if op@ != "op"@ {
            Err(err_m(e.span, "reduced core supports only operation name `op`"@))
        } else if args@.len() != 1 {
            Err(err_m(e.span, "effect operation `op` expects exactly one argument"@))
        } else {
            proof {
                lemma_sizes_elem(args@, 0);
            }
            match lower_m(args@[0], env, fns) {
                Ok(a) => Ok(TermM::Perform(effect@, Box::new(a))),
                Err(x) => Err(x),
            }
        },
        ExprKind::Pipe { lhs, rhs } => match rhs.kind {
            ExprKind::Call { callee, args } => {
                proof {
                    lemma_sizes_concat(seq![*lhs], args@);
                    lemma_sizes_one(*lhs);
                    assert(size_m(*rhs) == 1 + size_m(*callee) + sizes_m(args@));
                }
                lower_call_m(*callee, seq![*lhs] + args@, env, fns, e.span)
            },
            ExprKind::Var(_) => {
                proof {
                    lemma_sizes_one(*lhs);
                }
                lower_call_m(*rhs, seq![*lhs], env, fns, e.span)
            },
            _ => Err(
                err_m(
                    rhs.span,
                    "pipe RHS must be a function call or function name in the reduced surface"@,
                ),
            ),
        },
        ExprKind::Block { bindings, result } => match lower_bindings_m(bindings@, env, fns) {
            Ok((local, done)) => match lower_m(*result, local, fns) {
                Ok(r) => Ok(wrap_lets_m(done, r)),
                Err(x) => Err(x),
            },
            Err(x) => Err(x),
        },
        ExprKind::CaseNat { scrutinee, arms } => if arms@.len() != 2 {
            Err(
                err_m(
                    e.span,
                    "reduced Nat case requires exactly two arms: `0` and predecessor binder"@,
                ),
            )
        } else if !(arms@[0].pattern is Zero) {
            Err(err_m(arms@[0].span, "first reduced Nat case arm must be `0`"@))
        } else {
            match arms@[1].pattern {
                Pattern::Bind(name) => {
                    proof {
                        lemma_arm_sizes_elem(arms@, 0);
                        lemma_arm_sizes_elem(arms@, 1);
                    }
                    match lower_m(*scrutinee, env, fns) {
                        Ok(s) => match lower_m(arms@[0].body, env, fns) {
                            Ok(z) => match lower_m(arms@[1].body, with_var_m(env, name.node@), fns) {
                                Ok(b) => Ok(
                                    TermM::CaseNat {
                                        scrutinee: Box::new(s),
                                        zero_body: Box::new(z),
                                        succ_var: name.node@,
                                        succ_body: Box::new(b),
                                    },
                                ),
                                Err(x) => Err(x),
                            },
                            Err(x) => Err(x),
                        },
                        Err(x) => Err(x),
                    }
                },
                _ => Err(err_m(arms@[1].span, "second reduced Nat case arm must bind the predecessor"@)),
            }
        },
        ExprKind::Handle { body, clauses } => match last_return_m(clauses@) {
            None => Err(err_m(e.span, "handler requires a return clause in the reduced surface"@)),
            Some(k) => if !has_op_clause_m(clauses@) {
                Err(
                    err_m(
                        e.span,
                        "handler requires at least one operation clause in the reduced surface"@,
                    ),
                )
            } else {
                proof {
                    lemma_last_return(clauses@);
                    lemma_clause_sizes_elem(clauses@, k);
                }
                match lower_op_clauses_m(clauses@, env, fns) {
                    Ok(ops) => match lower_m(*body, env, fns) {
                        Ok(b) => match clauses@[k] {
                            HandleClause::Return { var, body: ret_body, .. } => match lower_m(
                                ret_body,
                                with_var_m(env, var.node@),
                                fns,
                            ) {
                                Ok(r) => Ok(
                                    TermM::Handle {
                                        body: Box::new(b),
                                        handler: HandlerM {
                                            return_var: var.node@,
                                            return_body: Box::new(r),
                                            clauses: ops,
                                        },
                                    },
                                ),
                                Err(x) => Err(x),
                            },
                            _ => Err(err_m(e.span, Seq::empty())),
                        },
                        Err(x) => Err(x),
                    },
                    Err(x) => Err(x),
                }
            },
        },
    }
}

/// The position of the last return clause.
pub open spec fn last_return_m(cs: Seq<HandleClause>) -> Option<int>
    decreases cs.len(),
{
    if cs.len() == 0 {
        None
    } else if cs.last() is Return {
        Some(cs.len() - 1)
    } else {
        last_return_m(cs.drop_last())
    }
}

pub proof fn lemma_last_return(cs: Seq<HandleClause>)
    ensures
        last_return_m(cs) matches Some(k) ==> 0 <= k < cs.len() && cs[k] is Return,
    decreases cs.len(),
{
    if cs.len() > 0 {
        lemma_last_return(cs.drop_last());
    }
}

pub open spec fn has_op_clause_m(cs: Seq<HandleClause>) -> bool {
    exists|i: int| 0 <= i < cs.len() && cs[i] is Operation
}

/// `lets` wrapped around `body`, the first outermost.
pub open spec fn wrap_lets_m(lets: Seq<(Seq<char>, TermM)>, body: TermM) -> TermM
    decreases lets.len(),
{
    if lets.len() == 0 {
        body
    } else {
        wrap_lets_m(
            lets.drop_last(),
            TermM::Let { var: lets.last().0, expr: Box::new(lets.last().1), body: Box::new(body) },
        )
    }
}

/// The bindings of a block, each in the scope of those before it: the scope after them and
/// their lowered values.
pub open spec fn lower_bindings_m(bs: Seq<Binding>, env: LEnvM, fns: Set<Seq<char>>) -> Result<
    (LEnvM, Seq<(Seq<char>, TermM)>),
    ElabErrM,
>
    decreases binding_sizes_m(bs), 2nat,
{
    if bs.len() == 0 {
        Ok((env, Seq::empty()))
    } else {
        proof {
            lemma_size_pos(bs.last().expr);
        }
        match lower_bindings_m(bs.drop_last(), env, fns) {
            Ok((local, done)) => match lower_m(bs.last().expr, local, fns) {
                Ok(v) => Ok(
                    (with_var_m(local, bs.last().name.node@), done.push((bs.last().name.node@, v))),
                ),
                Err(x) => Err(x),
            },
            Err(x) => Err(x),
        }
    }
}

/// One operation clause: its operation must be `op`; its parameter and continuation
/// patterns bind names (`_p` and `_k` for `_`), and a named continuation is in scope as one.
pub open spec fn op_clause_m(c: HandleClause, env: LEnvM, fns: Set<Seq<char>>) -> Result<
    OpClauseM,
    ElabErrM,
>
    decreases size_m(clause_body_m(c)), 2nat,
{
    match c {
        HandleClause::Return { span, .. } => Err(err_m(span, Seq::empty())),
        HandleClause::Operation { effect, op, param, kont, body, .. } => if op.node@ != "op"@ {
            Err(err_m(op.span, "reduced core supports only operation name `op`"@))
        } else {
            match binder_m(param, "_p"@) {
                Ok(p) => match binder_m(kont, "_k"@) {
                    Ok(k) => {
                        let op_env = if k != "_k"@ {
                            with_cont_m(with_var_m(env, p), k)
                        } else {
                            with_var_m(env, p)
                        };
                        match lower_m(body, op_env, fns) {
                            Ok(b) => Ok(
                                OpClauseM {
                                    op_label: effect.node@,
                                    op_param: p,
                                    op_k: k,
                                    op_body: Box::new(b),
                                },
                            ),
                            Err(x) => Err(x),
                        }
                    },
                    Err(x) => Err(x),
                },
                Err(x) => Err(x),
            }
        },
    }
}

/// The operation clauses of a handler, in order; return clauses are skipped.
pub open spec fn lower_op_clauses_m(cs: Seq<HandleClause>, env: LEnvM, fns: Set<Seq<char>>) -> Result<
    Seq<OpClauseM>,
    ElabErrM,
>
    decreases clause_sizes_m(cs), 3nat,
{
    if cs.len() == 0 {
        Ok(Seq::empty())
    } else {
        proof {
            lemma_size_pos(clause_body_m(cs.last()));
        }
        match lower_op_clauses_m(cs.drop_last(), env, fns) {
            Ok(done) => if cs.last() is Return {
                Ok(done)
            } else {
                match op_clause_m(cs.last(), env, fns) {
                    Ok(c) => Ok(done.push(c)),
                    Err(x) => Err(x),
                }
            },
            Err(x) => Err(x),
        }
    }
}

/// `callee` applied to `args`: a continuation is resumed, the array builtins check their
/// arity, anything else is applied one argument at a time.
pub open spec fn lower_call_m(
    callee: Expr,
    args: Seq<Expr>,
    env: LEnvM,
    fns: Set<Seq<char>>,
    span: Span,
) -> Result<TermM, ElabErrM>
    decreases size_m(callee) + sizes_m(args), 3nat,
{
    match callee.kind {
        ExprKind::Var(name) => if env.conts.contains(name@) {
            if args.len() != 1 {
                Err(err_m(span, "continuation resume expects exactly one argument"@))
            } else {
                proof {
                    lemma_sizes_elem(args, 0);
                }
                match lower_m(callee, env, fns) {
                    Ok(k) => match lower_m(args[0], env, fns) {
                        Ok(a) => Ok(TermM::Resume { kont: Box::new(k), arg: Box::new(a) }),
                        Err(x) => Err(x),
                    },
                    Err(x) => Err(x),
                }
            }
        } else if is_builtin(name@) {
            if args.len() != builtin_arity(name@) {
                Err(err_m(span, "builtin `"@ + name@ + "` called with wrong arity"@))
            } else {
                lower_builtin_m(name@, args, env, fns)
            }
        } else {
            match lower_m(callee, env, fns) {
                Ok(head) => lower_apps_m(head, args, env, fns),
                Err(x) => Err(x),
            }
        },
        _ => match lower_m(callee, env, fns) {
            Ok(head) => lower_apps_m(head, args, env, fns),
            Err(x) => Err(x),
        },
    }
}

/// The arguments of an array builtin of the right arity, left to right.
pub open spec fn lower_builtin_m(name: Seq<char>, args: Seq<Expr>, env: LEnvM, fns: Set<Seq<char>>) -> Result<
    TermM,
    ElabErrM,
>
    decreases sizes_m(args), 2nat,
{
    if args.len() < builtin_arity(name) || args.len() == 0 {
        Err(err_m(Span { start: 0, end: 0 }, Seq::empty()))
    } else {
        proof {
            lemma_sizes_elem(args, 0);
        }
        match lower_m(args[0], env, fns) {
            Ok(a) => if name == "len"@ {
                Ok(TermM::ArrayLen(Box::new(a)))
            } else if args.len() < 2 {
                Err(err_m(Span { start: 0, end: 0 }, Seq::empty()))
            } else {
                proof {
                    lemma_sizes_elem(args, 1);
                }
                match lower_m(args[1], env, fns) {
                    Ok(b) => if name == "mkarray"@ {
                        Ok(TermM::MkArray(Box::new(a), Box::new(b)))
                    } else if name == "get"@ {
                        Ok(TermM::ArrayGet(Box::new(a), Box::new(b)))
                    } else if args.len() < 3 {
                        Err(err_m(Span { start: 0, end: 0 }, Seq::empty()))
                    } else {
                        proof {
                            lemma_sizes_elem(args, 2);
                        }
                        match lower_m(args[2], env, fns) {
                            Ok(c) => Ok(TermM::ArraySet(Box::new(a), Box::new(b), Box::new(c))),
                            Err(x) => Err(x),
                        }
                    },
                    Err(x) => Err(x),
                }
            },
            Err(x) => Err(x),
        }
    }
}

/// `head` applied to the lowered `args`, one at a time, left to right.
pub open spec fn lower_apps_m(head: TermM, args: Seq<Expr>, env: LEnvM, fns: Set<Seq<char>>) -> Result<
    TermM,
    ElabErrM,
>
    decreases sizes_m(args), 2nat,
{
    if args.len() == 0 {
        Ok(head)
    } else {
        proof {
            lemma_sizes_elem(args, args.len() - 1);
            assert(args.drop_last() =~= args.subrange(0, args.len() - 1));
        }
        match lower_apps_m(head, args.drop_last(), env, fns) {
            Ok(f) => match lower_m(args.last(), env, fns) {
                Ok(a) => Ok(TermM::App(Box::new(f), Box::new(a))),
                Err(x) => Err(x),
            },
            Err(x) => Err(x),
        }
    }
}

// ---------------------------------------------------------------------------------------
// The arithmetic operators a lowering uses.
/// Which of `+`, `-`, `*` occur.
pub struct OpsM {
    pub add: bool,
    pub sub: bool,
    pub mul: bool,
}

pub open spec fn no_ops() -> OpsM {
    OpsM { add: false, sub: false, mul: false }
}

pub open spec fn op_ops(op: BinaryOp) -> OpsM {
    OpsM { add: op == BinaryOp::Add, sub: op == BinaryOp::Sub, mul: op == BinaryOp::Mul }
}

pub open spec fn join_ops(a: OpsM, b: OpsM) -> OpsM {
    OpsM { add: a.add || b.add, sub: a.sub || b.sub, mul: a.mul || b.mul }
}

/// The operators in the parts of `e` that lowering visits: all of it but the return
/// clauses of a handler before its last one.
pub open spec fn ops_m(e: Expr) -> OpsM
    decreases size_m(e), 1nat,
{
    match e.kind {
        ExprKind::Unit | ExprKind::Nat(_) | ExprKind::Var(_) => no_ops(),
        ExprKind::Call { callee, args } => join_ops(ops_m(*callee), ops_seq_m(args@)),
        ExprKind::Prefix { expr: inner, .. } => ops_m(*inner),
        ExprKind::Binary { op, lhs, rhs } => join_ops(op_ops(op), join_ops(ops_m(*lhs), ops_m(*rhs))),
        ExprKind::QualifiedCall { args, .. } => ops_seq_m(args@),
        ExprKind::Pipe { lhs, rhs } => join_ops(ops_m(*lhs), ops_m(*rhs)),
        ExprKind::Block { bindings, result } => join_ops(ops_bindings_m(bindings@), ops_m(*result)),
        ExprKind::CaseNat { scrutinee, arms } => join_ops(ops_m(*scrutinee), ops_arms_m(arms@)),
        ExprKind::Handle { body, clauses } => join_ops(
            join_ops(ops_m(*body), ops_op_clauses_m(clauses@)),
            match last_return_m(clauses@) {
                Some(k) => {
                    proof {
                        lemma_last_return(clauses@);
                        lemma_clause_sizes_elem(clauses@, k);
                    }
                    ops_m(clause_body_m(clauses@[k]))
                },
                None => no_ops(),
            },
        ),
    }
}

pub open spec fn ops_seq_m(s: Seq<Expr>) -> OpsM
    decreases sizes_m(s), 2nat,
{
    if s.len() == 0 {
        no_ops()
    } else {
        proof {
            lemma_size_pos(s.last());
        }
        join_ops(ops_seq_m(s.drop_last()), ops_m(s.last()))
    }
}

pub open spec fn ops_bindings_m(s: Seq<Binding>) -> OpsM
    decreases binding_sizes_m(s), 2nat,
{
    if s.len() == 0 {
        no_ops()
    } else {
        proof {
            lemma_size_pos(s.last().expr);
        }
        join_ops(ops_bindings_m(s.drop_last()), ops_m(s.last().expr))
    }
}

pub open spec fn ops_arms_m(s: Seq<CaseArm>) -> OpsM
    decreases arm_sizes_m(s), 2nat,
{
    if s.len() == 0 {
        no_ops()
    } else {
        proof {
            lemma_size_pos(s.last().body);
        }
        join_ops(ops_arms_m(s.drop_last()), ops_m(s.last().body))
    }
}

/// The operators in the bodies of the operation clauses.
pub open spec fn ops_op_clauses_m(s: Seq<HandleClause>) -> OpsM
    decreases clause_sizes_m(s), 2nat,
{
    if s.len() == 0 {
        no_ops()
    } else {
        proof {
            lemma_size_pos(clause_body_m(s.last()));
        }
        join_ops(
            ops_op_clauses_m(s.drop_last()),
            if s.last() is Return {
                no_ops()
            } else {
                ops_m(clause_body_m(s.last()))
            },
        )
    }
}

pub proof fn lemma_ops_seq_cons(x: Expr, s: Seq<Expr>)
    ensures
        ops_seq_m(seq![x] + s) == join_ops(ops_m(x), ops_seq_m(s)),
    decreases s.len(),
{
    if s.len() == 0 {
        assert(seq![x] + s =~= seq![x]);
        assert(seq![x].drop_last() =~= Seq::<Expr>::empty());
        assert(ops_seq_m(Seq::<Expr>::empty()) == no_ops());
        assert(ops_seq_m(seq![x]) == join_ops(no_ops(), ops_m(x)));
    } else {
        let whole = seq![x] + s;
        assert(whole.drop_last() =~= seq![x] + s.drop_last());
        assert(whole.last() == s.last());
        lemma_ops_seq_cons(x, s.drop_last());
        lemma_size_pos(s.last());
        assert(ops_seq_m(whole) == join_ops(ops_seq_m(whole.drop_last()), ops_m(whole.last())));
        assert(ops_seq_m(s) == join_ops(ops_seq_m(s.drop_last()), ops_m(s.last())));
    }
}

// ---------------------------------------------------------------------------------------
// Function names in scope make no difference.
/// Two scopes that differ only in names of `fns`.
pub open spec fn agree(e1: LEnvM, e2: LEnvM, fns: Set<Seq<char>>) -> bool {
    &&& e1.conts == e2.conts
    &&& forall|x: Seq<char>|
        #![trigger e1.vars.contains(x)]
        #![trigger e2.vars.contains(x)]
        (e1.vars.contains(x) || fns.contains(x)) == (e2.vars.contains(x) || fns.contains(x))
}

proof fn lemma_agree_var(e1: LEnvM, e2: LEnvM, fns: Set<Seq<char>>, x: Seq<char>)
    requires
        agree(e1, e2, fns),
    ensures
        agree(with_var_m(e1, x), with_var_m(e2, x), fns),
        agree(with_cont_m(e1, x), with_cont_m(e2, x), fns),
{
    assert forall|y: Seq<char>|
        (with_var_m(e1, x).vars.contains(y) || fns.contains(y)) == (with_var_m(e2, x).vars.contains(y)
            || fns.contains(y)) by {
        if y != x {
            assert(e1.vars.contains(y) == with_var_m(e1, x).vars.contains(y));
            assert(e2.vars.contains(y) == with_var_m(e2, x).vars.contains(y));
        }
    }
}

/// Lowering gives the same result in scopes that differ only in function names.
pub proof fn lemma_lower_agree(e: Expr, env1: LEnvM, env2: LEnvM, fns: Set<Seq<char>>)
    requires
        agree(env1, env2, fns),
    ensures
        lower_m(e, env1, fns) == lower_m(e, env2, fns),
    decreases size_m(e), 1nat,
{
    match e.kind {
        ExprKind::Unit | ExprKind::Nat(_) => {},
        ExprKind::Var(name) => {
            assert((env1.vars.contains(name@) || fns.contains(name@)) == (env2.vars.contains(name@)
                || fns.contains(name@)));
        },
        ExprKind::Call { callee, args } => {
            lemma_call_agree(*callee, args@, env1, env2, fns, e.span);
        },
        ExprKind::Prefix { expr: inner, .. } => {
            lemma_lower_agree(*inner, env1, env2, fns);
        },
        ExprKind::Binary { lhs, rhs, .. } => {
            lemma_lower_agree(*lhs, env1, env2, fns);
            lemma_lower_agree(*rhs, env1, env2, fns);
        },
        ExprKind::QualifiedCall { args, .. } => {
            if args@.len() == 1 {
                lemma_sizes_elem(args@, 0);
                lemma_lower_agree(args@[0], env1, env2, fns);
            }
        },
        ExprKind::Pipe { lhs, rhs } => {
            match rhs.kind {
                ExprKind::Call { callee, args } => {
                    lemma_sizes_concat(seq![*lhs], args@);
                    lemma_sizes_one(*lhs);
                    assert(size_m(*rhs) == 1 + size_m(*callee) + sizes_m(args@));
                    lemma_call_agree(*callee, seq![*lhs] + args@, env1, env2, fns, e.span);
                },
                ExprKind::Var(_) => {
                    lemma_sizes_one(*lhs);
                    lemma_call_agree(*rhs, seq![*lhs], env1, env2, fns, e.span);
                },
                _ => {},
            }
        },
        ExprKind::Block { bindings, result } => {
            lemma_bindings_agree(bindings@, env1, env2, fns);
            match lower_bindings_m(bindings@, env1, fns) {
                Ok((l1, _)) => match lower_bindings_m(bindings@, env2, fns) {
                    Ok((l2, _)) => {
                        lemma_lower_agree(*result, l1, l2, fns);
                    },
                    Err(_) => {},
                },
                Err(_) => {},
            }
        },
        ExprKind::CaseNat { scrutinee, arms } => {
            if arms@.len() == 2 {
                lemma_arm_sizes_elem(arms@, 0);
                lemma_arm_sizes_elem(arms@, 1);
                lemma_lower_agree(*scrutinee, env1, env2, fns);
                lemma_lower_agree(arms@[0].body, env1, env2, fns);
                match arms@[1].pattern {
                    Pattern::Bind(name) => {
                        lemma_agree_var(env1, env2, fns, name.node@);
                        lemma_lower_agree(
                            arms@[1].body,
                            with_var_m(env1, name.node@),
                            with_var_m(env2, name.node@),
                            fns,
                        );
                    },
                    _ => {},
                }
            }
        },
        ExprKind::Handle { body, clauses } => {
            match last_return_m(clauses@) {
                None => {},
                Some(k) => {
                    lemma_last_return(clauses@);
                    lemma_clause_sizes_elem(clauses@, k);
                    lemma_op_clauses_agree(clauses@, env1, env2, fns);
                    lemma_lower_agree(*body, env1, env2, fns);
                    match clauses@[k] {
                        HandleClause::Return { var, body: ret_body, .. } => {
                            lemma_agree_var(env1, env2, fns, var.node@);
                            lemma_lower_agree(
                                ret_body,
                                with_var_m(env1, var.node@),
                                with_var_m(env2, var.node@),
                                fns,
                            );
                        },
                        _ => {},
                    }
                },
            }
        },
    }
}

proof fn lemma_call_agree(
    callee: Expr,
    args: Seq<Expr>,
    env1: LEnvM,
    env2: LEnvM,
    fns: Set<Seq<char>>,
    span: Span,
)
    requires
        agree(env1, env2, fns),
    ensures
        lower_call_m(callee, args, env1, fns, span) == lower_call_m(callee, args, env2, fns, span),
    decreases size_m(callee) + sizes_m(args), 3nat,
{
    lemma_size_pos(callee);
    lemma_lower_agree(callee, env1, env2, fns);
    let conts = match callee.kind {
        ExprKind::Var(name) => env1.conts.contains(name@),
        _ => false,
    };
    let builtin = match callee.kind {
        ExprKind::Var(name) => is_builtin(name@),
        _ => false,
    };
    if conts {
        if args.len() == 1 {
            lemma_sizes_elem(args, 0);
            lemma_lower_agree(args[0], env1, env2, fns);
        }
    } else if builtin {
        match callee.kind {
            ExprKind::Var(name) => {
                lemma_builtin_agree(name@, args, env1, env2, fns);
            },
            _ => {},
        }
    } else {
        match lower_m(callee, env1, fns) {
            Ok(head) => {
                lemma_apps_agree(head, args, env1, env2, fns);
            },
            Err(_) => {},
        }
    }
}

proof fn lemma_apps_agree(head: TermM, args: Seq<Expr>, env1: LEnvM, env2: LEnvM, fns: Set<Seq<char>>)
    requires
        agree(env1, env2, fns),
    ensures
        lower_apps_m(head, args, env1, fns) == lower_apps_m(head, args, env2, fns),
    decreases sizes_m(args), 2nat,
{
    if args.len() > 0 {
        lemma_sizes_elem(args, args.len() - 1);
        assert(args.drop_last() =~= args.subrange(0, args.len() - 1));
        lemma_sizes_elem_prefix(args);
        lemma_apps_agree(head, args.drop_last(), env1, env2, fns);
        lemma_lower_agree(args.last(), env1, env2, fns);
    }
}

proof fn lemma_sizes_elem_prefix(args: Seq<Expr>)
    requires
        args.len() > 0,
    ensures
        sizes_m(args.drop_last()) < sizes_m(args),
{
    lemma_size_pos(args.last());
}

proof fn lemma_builtin_agree(name: Seq<char>, args: Seq<Expr>, env1: LEnvM, env2: LEnvM, fns: Set<Seq<char>>)
    requires
        agree(env1, env2, fns),
    ensures
        lower_builtin_m(name, args, env1, fns) == lower_builtin_m(name, args, env2, fns),
    decreases sizes_m(args), 2nat,
{
    if args.len() >= 1 {
        lemma_sizes_elem(args, 0);
        lemma_lower_agree(args[0], env1, env2, fns);
    }
    if args.len() >= 2 {
        lemma_sizes_elem(args, 1);
        lemma_lower_agree(args[1], env1, env2, fns);
    }
    if args.len() >= 3 {
        lemma_sizes_elem(args, 2);
        lemma_lower_agree(args[2], env1, env2, fns);
    }
}

proof fn lemma_bindings_agree(bs: Seq<Binding>, env1: LEnvM, env2: LEnvM, fns: Set<Seq<char>>)
    requires
        agree(env1, env2, fns),
    ensures
        match (lower_bindings_m(bs, env1, fns), lower_bindings_m(bs, env2, fns)) {
            (Ok(a), Ok(b)) => a.1 == b.1 && agree(a.0, b.0, fns),
            (Err(x), Err(y)) => x == y,
            _ => false,
        },
    decreases binding_sizes_m(bs), 2nat,
{
    if bs.len() > 0 {
        lemma_size_pos(bs.last().expr);
        lemma_bindings_agree(bs.drop_last(), env1, env2, fns);
        match lower_bindings_m(bs.drop_last(), env1, fns) {
            Ok((l1, _)) => match lower_bindings_m(bs.drop_last(), env2, fns) {
                Ok((l2, _)) => {
                    lemma_lower_agree(bs.last().expr, l1, l2, fns);
                    lemma_agree_var(l1, l2, fns, bs.last().name.node@);
                },
                Err(_) => {},
            },
            Err(_) => {},
        }
    }
}

proof fn lemma_op_clause_agree(c: HandleClause, env1: LEnvM, env2: LEnvM, fns: Set<Seq<char>>)
    requires
        agree(env1, env2, fns),
    ensures
        op_clause_m(c, env1, fns) == op_clause_m(c, env2, fns),
    decreases size_m(clause_body_m(c)), 2nat,
{
    match c {
        HandleClause::Return { .. } => {},
        HandleClause::Operation { param, kont, body, .. } => {
            match binder_m(param, "_p"@) {
                Ok(p) => match binder_m(kont, "_k"@) {
                    Ok(k) => {
                        lemma_agree_var(env1, env2, fns, p);
                        lemma_agree_var(with_var_m(env1, p), with_var_m(env2, p), fns, k);
                        if k != "_k"@ {
                            lemma_lower_agree(
                                body,
                                with_cont_m(with_var_m(env1, p), k),
                                with_cont_m(with_var_m(env2, p), k),
                                fns,
                            );
                        } else {
                            lemma_lower_agree(body, with_var_m(env1, p), with_var_m(env2, p), fns);
                        }
                    },
                    Err(_) => {},
                },
                Err(_) => {},
            }
        },
    }
}

proof fn lemma_op_clauses_agree(cs: Seq<HandleClause>, env1: LEnvM, env2: LEnvM, fns: Set<Seq<char>>)
    requires
        agree(env1, env2, fns),
    ensures
        lower_op_clauses_m(cs, env1, fns) == lower_op_clauses_m(cs, env2, fns),
    decreases clause_sizes_m(cs), 3nat,
{
    if cs.len() > 0 {
        lemma_size_pos(clause_body_m(cs.last()));
        lemma_op_clauses_agree(cs.drop_last(), env1, env2, fns);
        lemma_op_clause_agree(cs.last(), env1, env2, fns);
    }
}

} // verus!
