//! The surface uniqueness discipline: a binding of a unique (`^`) type is consumed at most
//! once, and the operations that need a unique value get one.

use vstd::prelude::*;

use crate::elaborate::error::{ElabErrM, ElaborateError};
use crate::surface::ast::{
    Binding, CaseArm, Decl, Expr, ExprKind, HandleClause, PrefixOp, Program, Span, TypeExpr,
};
use crate::text::{decimal, decimal_m, owned, push, str_eq};

verus! {

broadcast use vstd::std_specs::vec::group_vec_axioms, vstd::seq::group_seq_axioms;

/// Model of a uniqueness environment: the unique bindings in scope, each with the span of
/// its consumption if it was consumed.
pub type UEnvM = Seq<(Seq<char>, Option<Span>)>;

/// Model of the function signatures: for each function, which parameters and whether the
/// result are unique.
pub type SigsM = Seq<(Seq<char>, Seq<bool>, bool)>;

/// The position of `name` in `env`.
pub open spec fn find_m(env: UEnvM, name: Seq<char>) -> Option<int>
    decreases env.len(),
{
    if env.len() == 0 {
        None
    } else if env.last().0 == name {
        Some(env.len() - 1)
    } else {
        find_m(env.drop_last(), name)
    }
}

/// Where `name` was consumed, if it is bound and was.
pub open spec fn consumed_at_m(env: UEnvM, name: Seq<char>) -> Option<Span> {
    match find_m(env, name) {
        Some(i) => env[i].1,
        None => None,
    }
}

/// `name` bound as unique and not yet consumed.
pub open spec fn bind_unique_m(env: UEnvM, name: Seq<char>) -> UEnvM {
    match find_m(env, name) {
        Some(i) => env.update(i, (name, None)),
        None => env.push((name, None)),
    }
}

/// The diagnostic for a second use of a consumed binding.
pub open spec fn reuse_message(name: Seq<char>, first: Span, again: Span) -> Seq<char> {
    "cannot use `"@ + name + "`: consumed here -> bytes "@ + decimal_m(first.start as nat) + ".."@
        + decimal_m(first.end as nat) + "; used again here -> bytes "@ + decimal_m(
        again.start as nat,
    ) + ".."@ + decimal_m(again.end as nat)
}

/// A use of `name` at `span`: a unique binding is consumed, a second use is an error;
/// other names are left alone.
pub open spec fn consume_m(env: UEnvM, name: Seq<char>, span: Span) -> Result<UEnvM, ElabErrM> {
    match find_m(env, name) {
        Some(i) => match env[i].1 {
            Some(first) => Err(ElabErrM { span, message: reuse_message(name, first, span) }),
            None => Ok(env.update(i, (name, Some(span)))),
        },
        None => Ok(env),
    }
}

/// A builtin whose result is a fresh, unique array.
pub open spec fn unique_builtin_m(callee: Expr) -> bool {
    callee.kind matches ExprKind::Var(name) && (name@ == "mkarray"@ || name@ == "set"@)
}

/// `expr` stands where `what` needs a unique value.
pub open spec fn require_unique_m(env: UEnvM, expr: Expr, what: Seq<char>) -> Result<
    UEnvM,
    ElabErrM,
> {
    match expr.kind {
        ExprKind::Var(name) => if find_m(env, name@) is Some {
            consume_m(env, name@, expr.span)
        } else {
            Err(
                ElabErrM {
                    span: expr.span,
                    message: what + " requires unique `"@ + name@ + "`, but it is shared"@,
                },
            )
        },
        ExprKind::Call { callee, .. } => if unique_builtin_m(*callee) {
            Ok(env)
        } else {
            Err(ElabErrM { span: expr.span, message: what + " requires a unique array target"@ })
        },
        ExprKind::Prefix { op, .. } => match op {
            PrefixOp::Freeze => Err(
                ElabErrM {
                    span: expr.span,
                    message: what + " requires a unique value, but `freeze` returns shared"@,
                },
            ),
            _ => Ok(env),
        },
        _ => Err(ElabErrM { span: expr.span, message: what + " requires a unique array target"@ }),
    }
}

/// After a two-armed case: a binding is consumed if it was before, or in either arm.
pub open spec fn merge_m(env: UEnvM, left: UEnvM, right: UEnvM) -> UEnvM {
    Seq::new(
        env.len(),
        |i: int|
            (
                env[i].0,
                match env[i].1 {
                    Some(s) => Some(s),
                    None => match consumed_at_m(left, env[i].0) {
                        Some(s) => Some(s),
                        None => consumed_at_m(right, env[i].0),
                    },
                },
            ),
    )
}

/// The signature registered last under `name`.
pub open spec fn sig_m(sigs: SigsM, name: Seq<char>) -> Option<(Seq<bool>, bool)>
    decreases sigs.len(),
{
    if sigs.len() == 0 {
        None
    } else if sigs.last().0 == name {
        Some((sigs.last().1, sigs.last().2))
    } else {
        sig_m(sigs.drop_last(), name)
    }
}

/// The uniqueness rules on an expression: whether its value is unique, and the environment
/// after it, or the first violation.
pub open spec fn check_m(e: Expr, env: UEnvM, sigs: SigsM) -> Result<(bool, UEnvM), ElabErrM>
    decreases e, 0nat,
{
    match e.kind {
        ExprKind::Unit | ExprKind::Nat(_) => Ok((false, env)),
        ExprKind::Var(name) => match consume_m(env, name@, e.span) {
            Ok(env2) => Ok((false, env2)),
            Err(x) => Err(x),
        },
        ExprKind::Binary { lhs, rhs, .. } | ExprKind::Pipe { lhs, rhs } => match check_m(
            *lhs,
            env,
            sigs,
        ) {
            Ok((_, env1)) => match check_m(*rhs, env1, sigs) {
                Ok((_, env2)) => Ok((false, env2)),
                Err(x) => Err(x),
            },
            Err(x) => Err(x),
        },
        ExprKind::QualifiedCall { args, .. } => match check_args_m(args@, env, sigs) {
            Ok(env1) => Ok((false, env1)),
            Err(x) => Err(x),
        },
        ExprKind::Call { callee, args } => match callee.kind {
            ExprKind::Var(name) => check_call_m(name@, args@, e.span, env, sigs),
            _ => match check_m(*callee, env, sigs) {
                Ok((_, env1)) => match check_args_m(args@, env1, sigs) {
                    Ok(env2) => Ok((false, env2)),
                    Err(x) => Err(x),
                },
                Err(x) => Err(x),
            },
        },
        ExprKind::Prefix { op, expr: inner } => match op {
            PrefixOp::Move => match require_unique_m(env, *inner, "move"@) {
                Ok(env1) => Ok((true, env1)),
                Err(x) => Err(x),
            },
            PrefixOp::Freeze => match require_unique_m(env, *inner, "freeze"@) {
                Ok(env1) => Ok((false, env1)),
                Err(x) => Err(x),
            },
            PrefixOp::Inplace => match inner.kind {
                ExprKind::Call { callee, args } => if callee.kind matches ExprKind::Var(n) && n@
                    == "set"@ && args@.len() == 3 {
                    match require_unique_m(env, args@[0], "inplace"@) {
                        Ok(env1) => match check_m(args@[1], env1, sigs) {
                            Ok((_, env2)) => match check_m(args@[2], env2, sigs) {
                                Ok((_, env3)) => Ok((true, env3)),
                                Err(x) => Err(x),
                            },
                            Err(x) => Err(x),
                        },
                        Err(x) => Err(x),
                    }
                } else {
                    Err(inplace_error(inner.span))
                },
                _ => Err(inplace_error(inner.span)),
            },
        },
        ExprKind::Block { bindings, result } => match check_bindings_m(bindings@, env, sigs) {
            Ok(env1) => check_m(*result, env1, sigs),
            Err(x) => Err(x),
        },
        ExprKind::CaseNat { scrutinee, arms } => match check_m(*scrutinee, env, sigs) {
            Ok((_, env1)) => match check_arms_m(arms@, env1, sigs) {
                Ok((unique, branches)) => Ok(
                    (
                        unique,
                        if arms@.len() == 2 {
                            merge_m(env1, branches[0], branches[1])
                        } else {
                            env1
                        },
                    ),
                ),
                Err(x) => Err(x),
            },
            Err(x) => Err(x),
        },
        ExprKind::Handle { body, clauses } => match check_m(*body, env, sigs) {
            Ok((_, env1)) => match check_clauses_m(clauses@, env1, sigs) {
                Ok(env2) => Ok((false, env2)),
                Err(x) => Err(x),
            },
            Err(x) => Err(x),
        },
    }
}

pub open spec fn inplace_error(span: Span) -> ElabErrM {
    ElabErrM { span, message: "inplace operand must be `set(array, index, value)`"@ }
}

/// The arguments, left to right.
pub open spec fn check_args_m(args: Seq<Expr>, env: UEnvM, sigs: SigsM) -> Result<
    UEnvM,
    ElabErrM,
>
    decreases args, 0nat,
{
    if args.len() == 0 {
        Ok(env)
    } else {
        match check_args_m(args.drop_last(), env, sigs) {
            Ok(env1) => match check_m(args.last(), env1, sigs) {
                Ok((_, env2)) => Ok(env2),
                Err(x) => Err(x),
            },
            Err(x) => Err(x),
        }
    }
}

/// The arguments of a call of a function with signature `params`, left to right: a unique
/// parameter needs a unique argument.
pub open spec fn check_sig_args_m(args: Seq<Expr>, params: Seq<bool>, env: UEnvM, sigs: SigsM) -> Result<
    UEnvM,
    ElabErrM,
>
    decreases args, 0nat,
{
    if args.len() == 0 {
        Ok(env)
    } else {
        match check_sig_args_m(args.drop_last(), params, env, sigs) {
            Ok(env1) => {
                let k = args.len() - 1;
                if k < params.len() && params[k] {
                    require_unique_m(env1, args.last(), "unique parameter"@)
                } else {
                    match check_m(args.last(), env1, sigs) {
                        Ok((_, env2)) => Ok(env2),
                        Err(x) => Err(x),
                    }
                }
            },
            Err(x) => Err(x),
        }
    }
}

pub open spec fn arity_error(span: Span, name: Seq<char>) -> ElabErrM {
    ElabErrM { span, message: "builtin `"@ + name + "` called with wrong arity"@ }
}

/// A call of the function named `name`: the array builtins check their arity; a known
/// function checks its unique parameters.
pub open spec fn check_call_m(
    name: Seq<char>,
    args: Seq<Expr>,
    span: Span,
    env: UEnvM,
    sigs: SigsM,
) -> Result<(bool, UEnvM), ElabErrM>
    decreases args, 1nat,
{
    if name == "mkarray"@ {
        if args.len() != 2 {
            Err(arity_error(span, name))
        } else {
            match check_args_m(args, env, sigs) {
                Ok(env1) => Ok((true, env1)),
                Err(x) => Err(x),
            }
        }
    } else if name == "get"@ || name == "len"@ {
        if args.len() != (if name == "get"@ {
            2int
        } else {
            1int
        }) {
            Err(arity_error(span, name))
        } else {
            match check_args_m(args, env, sigs) {
                Ok(env1) => Ok((false, env1)),
                Err(x) => Err(x),
            }
        }
    } else if name == "set"@ {
        if args.len() != 3 {
            Err(arity_error(span, name))
        } else {
            match check_args_m(args, env, sigs) {
                Ok(env1) => Ok((true, env1)),
                Err(x) => Err(x),
            }
        }
    } else {
        match sig_m(sigs, name) {
            Some((params, unique_ret)) => match check_sig_args_m(args, params, env, sigs) {
                Ok(env1) => Ok((unique_ret, env1)),
                Err(x) => Err(x),
            },
            None => match check_args_m(args, env, sigs) {
                Ok(env1) => Ok((false, env1)),
                Err(x) => Err(x),
            },
        }
    }
}

/// The bindings of a block, in order; a binding of a unique value is itself unique.
pub open spec fn check_bindings_m(bs: Seq<Binding>, env: UEnvM, sigs: SigsM) -> Result<
    UEnvM,
    ElabErrM,
>
    decreases bs, 0nat,
{
    if bs.len() == 0 {
        Ok(env)
    } else {
        match check_bindings_m(bs.drop_last(), env, sigs) {
            Ok(env1) => match check_m(bs.last().expr, env1, sigs) {
                Ok((unique, env2)) => Ok(
                    if unique {
                        bind_unique_m(env2, bs.last().name.node@)
                    } else {
                        env2
                    },
                ),
                Err(x) => Err(x),
            },
            Err(x) => Err(x),
        }
    }
}

/// The arms of a case, each from the environment after the scrutinee: whether any arm's
/// value is unique, and the environment after each arm.
pub open spec fn check_arms_m(arms: Seq<CaseArm>, env: UEnvM, sigs: SigsM) -> Result<
    (bool, Seq<UEnvM>),
    ElabErrM,
>
    decreases arms, 0nat,
{
    if arms.len() == 0 {
        Ok((false, Seq::empty()))
    } else {
        match check_arms_m(arms.drop_last(), env, sigs) {
            Ok((unique, branches)) => match check_m(arms.last().body, env, sigs) {
                Ok((u, branch)) => Ok((unique || u, branches.push(branch))),
                Err(x) => Err(x),
            },
            Err(x) => Err(x),
        }
    }
}

pub open spec fn clause_body(c: HandleClause) -> Expr {
    match c {
        HandleClause::Return { body, .. } => body,
        HandleClause::Operation { body, .. } => body,
    }
}

/// The clause bodies of a handler, in order.
pub open spec fn check_clauses_m(cs: Seq<HandleClause>, env: UEnvM, sigs: SigsM) -> Result<
    UEnvM,
    ElabErrM,
>
    decreases cs, 0nat,
{
    if cs.len() == 0 {
        Ok(env)
    } else {
        match check_clauses_m(cs.drop_last(), env, sigs) {
            Ok(env1) => match check_m(clause_body(cs.last()), env1, sigs) {
                Ok((_, env2)) => Ok(env2),
                Err(x) => Err(x),
            },
            Err(x) => Err(x),
        }
    }
}


// ---------------------------------------------------------------------------------------
// The checker.
/// The unique bindings in scope, each with the span where it was consumed, if it was.
pub struct UniqueEnv {
    bindings: Vec<(String, Option<Span>)>,
}

pub open spec fn uenv_view(s: Seq<(String, Option<Span>)>) -> UEnvM {
    s.map_values(|p: (String, Option<Span>)| (p.0@, p.1))
}

/// The signatures of the functions of a program: the name, which parameters are unique,
/// and whether the result is.
pub open spec fn sigs_view(s: Seq<(String, Vec<bool>, bool)>) -> SigsM {
    s.map_values(|p: (String, Vec<bool>, bool)| (p.0@, p.1@, p.2))
}

impl View for UniqueEnv {
    type V = UEnvM;

    closed spec fn view(&self) -> UEnvM {
        uenv_view(self.bindings@)
    }
}

impl UniqueEnv {
    proof fn lemma_view(&self)
        ensures
            self@.len() == self.bindings@.len(),
            forall|i: int|
                0 <= i < self.bindings@.len() ==> #[trigger] self@[i] == (
                    self.bindings@[i].0@,
                    self.bindings@[i].1,
                ),
    {
    }
}

proof fn lemma_find_prefix(env: UEnvM, name: Seq<char>, i: int)
    requires
        0 <= i < env.len(),
    ensures
        find_m(env.subrange(0, i + 1), name) == if env[i].0 == name {
            Some(i)
        } else {
            find_m(env.subrange(0, i), name)
        },
{
    assert(env.subrange(0, i + 1).drop_last() =~= env.subrange(0, i));
}

proof fn lemma_find_bounds(env: UEnvM, name: Seq<char>)
    ensures
        find_m(env, name) matches Some(i) ==> 0 <= i < env.len() && env[i].0 == name,
    decreases env.len(),
{
    if env.len() > 0 {
        lemma_find_bounds(env.drop_last(), name);
    }
}

impl UniqueEnv {
    pub fn new() -> (r: Self)
        ensures
            r@ == Seq::<(Seq<char>, Option<Span>)>::empty(),
    {
        let r = Self { bindings: Vec::new() };
        assert(r@ =~= Seq::<(Seq<char>, Option<Span>)>::empty());
        r
    }

    /// An equal copy.
    pub fn duplicate(&self) -> (r: Self)
        ensures
            r@ == self@,
    {
        let mut out: Vec<(String, Option<Span>)> = Vec::new();
        let mut i: usize = 0;
        while i < self.bindings.len()
            invariant
                i <= self.bindings@.len(),
                uenv_view(out@) == uenv_view(self.bindings@.subrange(0, i as int)),
            decreases self.bindings@.len() - i,
        {
            let ghost before = out@;
            out.push((owned(self.bindings[i].0.as_str()), self.bindings[i].1));
            proof {
                assert(uenv_view(out@) =~= uenv_view(before).push(
                    (self.bindings@[i as int].0@, self.bindings@[i as int].1),
                ));
                assert(uenv_view(self.bindings@.subrange(0, i + 1)) =~= uenv_view(
                    self.bindings@.subrange(0, i as int),
                ).push((self.bindings@[i as int].0@, self.bindings@[i as int].1)));
            }
            i += 1;
        }
        assert(self.bindings@.subrange(0, self.bindings@.len() as int) =~= self.bindings@);
        UniqueEnv { bindings: out }
    }

    /// The position of `name`.
    fn find(&self, name: &str) -> (r: Option<usize>)
        ensures
            match r {
                Some(i) => find_m(self@, name@) == Some(i as int),
                None => find_m(self@, name@) is None,
            },
    {
        let ghost env = self@;
        let mut i = self.bindings.len();
        proof {
            assert(env.subrange(0, i as int) =~= env);
        }
        while i > 0
            invariant
                i <= self.bindings@.len(),
                env == self@,
                find_m(env, name@) == find_m(env.subrange(0, i as int), name@),
            decreases i,
        {
            i = i - 1;
            proof {
                lemma_find_prefix(env, name@, i as int);
            }
            if str_eq(self.bindings[i].0.as_str(), name) {
                return Some(i);
            }
        }
        proof {
            assert(env.subrange(0, 0) =~= Seq::<(Seq<char>, Option<Span>)>::empty());
        }
        None
    }

    /// Binds `name` as unique and not yet consumed.
    pub fn bind_unique(&mut self, name: &str)
        ensures
            final(self)@ == bind_unique_m(old(self)@, name@),
    {
        proof {
            lemma_find_bounds(self@, name@);
            self.lemma_view();
        }
        match self.find(name) {
            Some(i) => {
                self.bindings.set(i, (owned(name), None));
                assert(self@ =~= old(self)@.update(i as int, (name@, None)));
            },
            None => {
                self.bindings.push((owned(name), None));
                assert(self@ =~= old(self)@.push((name@, None)));
            },
        }
    }

    /// A use of `name` at `span`.
    pub fn consume(&mut self, name: &str, span: Span) -> (r: Result<(), ElaborateError>)
        ensures
            match consume_m(old(self)@, name@, span) {
                Ok(env) => r is Ok && final(self)@ == env,
                Err(x) => r matches Err(y) && y@ == x,
            },
    {
        proof {
            lemma_find_bounds(self@, name@);
            self.lemma_view();
        }
        match self.find(name) {
            Some(i) => {
                match self.bindings[i].1 {
                    Some(first) => Err(reuse_error(name, first, span)),
                    None => {
                        self.bindings.set(i, (owned(name), Some(span)));
                        assert(self@ =~= old(self)@.update(i as int, (name@, Some(span))));
                        Ok(())
                    },
                }
            },
            None => Ok(()),
        }
    }

    /// `expr` stands where `what` needs a unique value.
    pub fn require_unique(&mut self, expr: &Expr, what: &str) -> (r: Result<(), ElaborateError>)
        ensures
            match require_unique_m(old(self)@, *expr, what@) {
                Ok(env) => r is Ok && final(self)@ == env,
                Err(x) => r matches Err(y) && y@ == x,
            },
    {
        match &expr.kind {
            ExprKind::Var(name) => {
                if self.find(name.as_str()).is_some() {
                    self.consume(name.as_str(), expr.span)
                } else {
                    let mut message = owned(what);
                    push(&mut message, " requires unique `");
                    push(&mut message, name.as_str());
                    push(&mut message, "`, but it is shared");
                    Err(ElaborateError { span: expr.span, message })
                }
            },
            ExprKind::Call { callee, .. } => {
                if is_unique_builtin_result(callee) {
                    Ok(())
                } else {
                    let mut message = owned(what);
                    push(&mut message, " requires a unique array target");
                    Err(ElaborateError { span: expr.span, message })
                }
            },
            ExprKind::Prefix { op, .. } => match op {
                PrefixOp::Freeze => {
                    let mut message = owned(what);
                    push(&mut message, " requires a unique value, but `freeze` returns shared");
                    Err(ElaborateError { span: expr.span, message })
                },
                _ => Ok(()),
            },
            _ => {
                let mut message = owned(what);
                push(&mut message, " requires a unique array target");
                Err(ElaborateError { span: expr.span, message })
            },
        }
    }

    /// After a two-armed case: a binding is consumed if it was before or in either arm.
    pub fn merge_branch_consumption(&mut self, left: &Self, right: &Self)
        ensures
            final(self)@ == merge_m(old(self)@, left@, right@),
    {
        let ghost env0 = self@;
        let mut i: usize = 0;
        while i < self.bindings.len()
            invariant
                i <= self.bindings@.len(),
                self@.len() == env0.len(),
                forall|j: int| 0 <= j < i ==> #[trigger] self@[j] == merge_m(env0, left@, right@)[j],
                forall|j: int| i <= j < self@.len() ==> #[trigger] self@[j] == env0[j],
            decreases self.bindings@.len() - i,
        {
            proof {
                lemma_find_bounds(left@, env0[i as int].0);
                lemma_find_bounds(right@, env0[i as int].0);
                self.lemma_view();
            }
            let name = owned(self.bindings[i].0.as_str());
            let merged = match self.bindings[i].1 {
                Some(s) => Some(s),
                None => match left.consumed_at(name.as_str()) {
                    Some(s) => Some(s),
                    None => right.consumed_at(name.as_str()),
                },
            };
            let ghost before = self@;
            let ghost entry = (name@, merged);
            assert(self@[i as int] == env0[i as int]);
            assert(self@[i as int] == (self.bindings@[i as int].0@, self.bindings@[i as int].1));
            assert(name@ == env0[i as int].0);
            assert(merge_m(env0, left@, right@)[i as int] == entry);
            self.bindings.set(i, (name, merged));
            proof {
                self.lemma_view();
                assert(self@[i as int] == entry);
                assert forall|j: int| 0 <= j < self@.len() && j != i implies #[trigger] self@[j]
                    == before[j] by {}
            }
            i += 1;
        }
        assert(self@ =~= merge_m(env0, left@, right@));
    }

    fn consumed_at(&self, name: &str) -> (r: Option<Span>)
        ensures
            r == consumed_at_m(self@, name@),
    {
        proof {
            lemma_find_bounds(self@, name@);
            self.lemma_view();
        }
        let found = self.find(name);
        match found {
            Some(i) => {
                assert(find_m(self@, name@) == Some(i as int));
                assert(self@[i as int].1 == self.bindings@[i as int].1);
                self.bindings[i].1
            },
            None => None,
        }
    }
}

fn reuse_error(name: &str, first: Span, again: Span) -> (r: ElaborateError)
    ensures
        r@ == (ElabErrM { span: again, message: reuse_message(name@, first, again) }),
{
    let mut message = owned("cannot use `");
    push(&mut message, name);
    push(&mut message, "`: consumed here -> bytes ");
    push(&mut message, decimal(first.start as u64).as_str());
    push(&mut message, "..");
    push(&mut message, decimal(first.end as u64).as_str());
    push(&mut message, "; used again here -> bytes ");
    push(&mut message, decimal(again.start as u64).as_str());
    push(&mut message, "..");
    push(&mut message, decimal(again.end as u64).as_str());
    ElaborateError { span: again, message }
}

/// Whether `callee` names a builtin whose result is a fresh array.
pub fn is_unique_builtin_result(callee: &Expr) -> (r: bool)
    ensures
        r == unique_builtin_m(*callee),
{
    match &callee.kind {
        ExprKind::Var(name) => str_eq(name.as_str(), "mkarray") || str_eq(name.as_str(), "set"),
        _ => false,
    }
}

/// Whether a type is marked unique.
pub open spec fn type_unique_m(ty: TypeExpr) -> bool {
    ty is Unique
}

pub fn type_is_unique(ty: &TypeExpr) -> (r: bool)
    ensures
        r == type_unique_m(*ty),
{
    match ty {
        TypeExpr::Unique(_, _) => true,
        _ => false,
    }
}


/// The relation between an exec result and its model.
pub open spec fn unique_result(r: Result<bool, ElaborateError>, env: UEnvM, m: Result<(bool, UEnvM), ElabErrM>) -> bool {
    match m {
        Ok((u, e)) => r == Ok::<bool, ElaborateError>(u) && env == e,
        Err(x) => r matches Err(y) && y@ == x,
    }
}

pub open spec fn env_result(r: Result<(), ElaborateError>, env: UEnvM, m: Result<UEnvM, ElabErrM>) -> bool {
    match m {
        Ok(e) => r is Ok && env == e,
        Err(x) => r matches Err(y) && y@ == x,
    }
}

/// The index of the signature registered last under `name`.
fn find_sig(sigs: &Vec<(String, Vec<bool>, bool)>, name: &str) -> (r: Option<usize>)
    ensures
        match r {
            Some(i) => i < sigs@.len() && sig_m(sigs_view(sigs@), name@) == Some(
                (sigs@[i as int].1@, sigs@[i as int].2),
            ),
            None => sig_m(sigs_view(sigs@), name@) is None,
        },
{
    let ghost all = sigs_view(sigs@);
    let mut i = sigs.len();
    proof {
        assert(all.subrange(0, i as int) =~= all);
    }
    while i > 0
        invariant
            i <= sigs@.len(),
            all == sigs_view(sigs@),
            sig_m(all, name@) == sig_m(all.subrange(0, i as int), name@),
        decreases i,
    {
        i = i - 1;
        proof {
            assert(all.subrange(0, i + 1).drop_last() =~= all.subrange(0, i as int));
            assert(all.subrange(0, i + 1).last() == all[i as int]);
        }
        if str_eq(sigs[i].0.as_str(), name) {
            return Some(i);
        }
    }
    proof {
        assert(all.subrange(0, 0) =~= Seq::<(Seq<char>, Seq<bool>, bool)>::empty());
    }
    None
}

proof fn lemma_args_err(args: Seq<Expr>, k: int, env: UEnvM, sigs: SigsM)
    requires
        0 <= k <= args.len(),
        check_args_m(args.subrange(0, k), env, sigs) is Err,
    ensures
        check_args_m(args, env, sigs) == check_args_m(args.subrange(0, k), env, sigs),
    decreases args.len() - k,
{
    if k < args.len() {
        assert(args.subrange(0, k + 1).drop_last() =~= args.subrange(0, k));
        lemma_args_err(args, k + 1, env, sigs);
    } else {
        assert(args.subrange(0, k) =~= args);
    }
}

proof fn lemma_sig_args_err(args: Seq<Expr>, params: Seq<bool>, k: int, env: UEnvM, sigs: SigsM)
    requires
        0 <= k <= args.len(),
        check_sig_args_m(args.subrange(0, k), params, env, sigs) is Err,
    ensures
        check_sig_args_m(args, params, env, sigs) == check_sig_args_m(args.subrange(0, k), params, env, sigs),
    decreases args.len() - k,
{
    if k < args.len() {
        assert(args.subrange(0, k + 1).drop_last() =~= args.subrange(0, k));
        lemma_sig_args_err(args, params, k + 1, env, sigs);
    } else {
        assert(args.subrange(0, k) =~= args);
    }
}

proof fn lemma_bindings_err(bs: Seq<Binding>, k: int, env: UEnvM, sigs: SigsM)
    requires
        0 <= k <= bs.len(),
        check_bindings_m(bs.subrange(0, k), env, sigs) is Err,
    ensures
        check_bindings_m(bs, env, sigs) == check_bindings_m(bs.subrange(0, k), env, sigs),
    decreases bs.len() - k,
{
    if k < bs.len() {
        assert(bs.subrange(0, k + 1).drop_last() =~= bs.subrange(0, k));
        lemma_bindings_err(bs, k + 1, env, sigs);
    } else {
        assert(bs.subrange(0, k) =~= bs);
    }
}

proof fn lemma_arms_err(arms: Seq<CaseArm>, k: int, env: UEnvM, sigs: SigsM)
    requires
        0 <= k <= arms.len(),
        check_arms_m(arms.subrange(0, k), env, sigs) is Err,
    ensures
        check_arms_m(arms, env, sigs) == check_arms_m(arms.subrange(0, k), env, sigs),
    decreases arms.len() - k,
{
    if k < arms.len() {
        assert(arms.subrange(0, k + 1).drop_last() =~= arms.subrange(0, k));
        lemma_arms_err(arms, k + 1, env, sigs);
    } else {
        assert(arms.subrange(0, k) =~= arms);
    }
}

proof fn lemma_clauses_err(cs: Seq<HandleClause>, k: int, env: UEnvM, sigs: SigsM)
    requires
        0 <= k <= cs.len(),
        check_clauses_m(cs.subrange(0, k), env, sigs) is Err,
    ensures
        check_clauses_m(cs, env, sigs) == check_clauses_m(cs.subrange(0, k), env, sigs),
    decreases cs.len() - k,
{
    if k < cs.len() {
        assert(cs.subrange(0, k + 1).drop_last() =~= cs.subrange(0, k));
        lemma_clauses_err(cs, k + 1, env, sigs);
    } else {
        assert(cs.subrange(0, k) =~= cs);
    }
}

proof fn lemma_arms_len(arms: Seq<CaseArm>, env: UEnvM, sigs: SigsM)
    ensures
        check_arms_m(arms, env, sigs) matches Ok((_, bs)) ==> bs.len() == arms.len(),
    decreases arms.len(),
{
    if arms.len() > 0 {
        lemma_arms_len(arms.drop_last(), env, sigs);
    }
}

/// The uniqueness rules on `expr`: whether its value is unique; `env` is updated with the
/// bindings it consumes.
#[verifier::rlimit(50)]
pub fn check_unique_expr(
    expr: &Expr,
    env: &mut UniqueEnv,
    sigs: &Vec<(String, Vec<bool>, bool)>,
) -> (r: Result<bool, ElaborateError>)
    ensures
        unique_result(r, final(env)@, check_m(*expr, old(env)@, sigs_view(sigs@))),
    decreases expr, 0nat,
{
    match &expr.kind {
        ExprKind::Unit | ExprKind::Nat(_) => Ok(false),
        ExprKind::Var(name) => {
            env.consume(name.as_str(), expr.span)?;
            Ok(false)
        },
        ExprKind::Binary { lhs, rhs, .. } => {
            check_unique_expr(lhs, env, sigs)?;
            check_unique_expr(rhs, env, sigs)?;
            Ok(false)
        },
        ExprKind::Pipe { lhs, rhs } => {
            check_unique_expr(lhs, env, sigs)?;
            check_unique_expr(rhs, env, sigs)?;
            Ok(false)
        },
        ExprKind::QualifiedCall { args, .. } => {
            check_unique_args(args, env, sigs)?;
            Ok(false)
        },
        ExprKind::Call { callee, args } => {
            match &callee.kind {
                ExprKind::Var(name) => {
                    return check_unique_call(name.as_str(), args, expr.span, env, sigs);
                },
                _ => {},
            }
            check_unique_expr(callee, env, sigs)?;
            check_unique_args(args, env, sigs)?;
            Ok(false)
        },
        ExprKind::Prefix { op, expr: inner } => match op {
            PrefixOp::Move => {
                env.require_unique(inner, "move")?;
                Ok(true)
            },
            PrefixOp::Freeze => {
                env.require_unique(inner, "freeze")?;
                Ok(false)
            },
            PrefixOp::Inplace => check_inplace(inner, env, sigs),
        },
        ExprKind::Block { bindings, result } => {
            check_unique_bindings(bindings, env, sigs)?;
            check_unique_expr(result, env, sigs)
        },
        ExprKind::CaseNat { scrutinee, arms } => {
            check_unique_expr(scrutinee, env, sigs)?;
            let (unique, branches) = check_unique_arms(arms, env, sigs)?;
            if arms.len() == 2 {
                env.merge_branch_consumption(&branches[0], &branches[1]);
            }
            Ok(unique)
        },
        ExprKind::Handle { body, clauses } => {
            check_unique_expr(body, env, sigs)?;
            check_unique_clauses(clauses, env, sigs)?;
            Ok(false)
        },
    }
}

/// `inplace e`, where `e` must be `set(array, index, value)` on a unique array.
fn check_inplace(inner: &Expr, env: &mut UniqueEnv, sigs: &Vec<(String, Vec<bool>, bool)>) -> (r:
    Result<bool, ElaborateError>)
    ensures
        unique_result(
            r,
            final(env)@,
            match inner.kind {
                ExprKind::Call { callee, args } => if callee.kind matches ExprKind::Var(n) && n@
                    == "set"@ && args@.len() == 3 {
                    match require_unique_m(old(env)@, args@[0], "inplace"@) {
                        Ok(env1) => match check_m(args@[1], env1, sigs_view(sigs@)) {
                            Ok((_, env2)) => match check_m(args@[2], env2, sigs_view(sigs@)) {
                                Ok((_, env3)) => Ok((true, env3)),
                                Err(x) => Err(x),
                            },
                            Err(x) => Err(x),
                        },
                        Err(x) => Err(x),
                    }
                } else {
                    Err(inplace_error(inner.span))
                },
                _ => Err(inplace_error(inner.span)),
            },
        ),
    decreases inner, 0nat,
{
    match &inner.kind {
        ExprKind::Call { callee, args } => {
            let is_set = match &callee.kind {
                ExprKind::Var(n) => str_eq(n.as_str(), "set"),
                _ => false,
            };
            if !is_set || args.len() != 3 {
                return Err(ElaborateError::new(inner.span, "inplace operand must be `set(array, index, value)`"));
            }
            proof {
                assert(decreases_to!(args => args@));
            }
            env.require_unique(&args[0], "inplace")?;
            check_unique_expr(&args[1], env, sigs)?;
            check_unique_expr(&args[2], env, sigs)?;
            Ok(true)
        },
        _ => Err(ElaborateError::new(inner.span, "inplace operand must be `set(array, index, value)`")),
    }
}

fn check_unique_args(args: &Vec<Expr>, env: &mut UniqueEnv, sigs: &Vec<(String, Vec<bool>, bool)>) -> (r:
    Result<(), ElaborateError>)
    ensures
        env_result(r, final(env)@, check_args_m(args@, old(env)@, sigs_view(sigs@))),
    decreases args, 0nat,
{
    let mut i: usize = 0;
    proof {
        assert(args@.subrange(0, 0) =~= Seq::<Expr>::empty());
    }
    while i < args.len()
        invariant
            i <= args@.len(),
            check_args_m(args@.subrange(0, i as int), old(env)@, sigs_view(sigs@)) == Ok::<
                UEnvM,
                ElabErrM,
            >(env@),
        decreases args@.len() - i,
    {
        proof {
            assert(decreases_to!(args => args@));
            assert(decreases_to!(args@ => args@[i as int]));
            assert(args@.subrange(0, i + 1).drop_last() =~= args@.subrange(0, i as int));
            assert(args@.subrange(0, i + 1).last() == args@[i as int]);
        }
        match check_unique_expr(&args[i], env, sigs) {
            Ok(_) => {},
            Err(e) => {
                proof {
                    lemma_args_err(args@, i + 1, old(env)@, sigs_view(sigs@));
                }
                return Err(e);
            },
        }
        i += 1;
    }
    proof {
        assert(args@.subrange(0, args@.len() as int) =~= args@);
    }
    Ok(())
}

fn check_unique_sig_args(
    args: &Vec<Expr>,
    params: &Vec<bool>,
    env: &mut UniqueEnv,
    sigs: &Vec<(String, Vec<bool>, bool)>,
) -> (r: Result<(), ElaborateError>)
    ensures
        env_result(r, final(env)@, check_sig_args_m(args@, params@, old(env)@, sigs_view(sigs@))),
    decreases args, 0nat,
{
    let mut i: usize = 0;
    proof {
        assert(args@.subrange(0, 0) =~= Seq::<Expr>::empty());
    }
    while i < args.len()
        invariant
            i <= args@.len(),
            check_sig_args_m(args@.subrange(0, i as int), params@, old(env)@, sigs_view(sigs@))
                == Ok::<UEnvM, ElabErrM>(env@),
        decreases args@.len() - i,
    {
        proof {
            assert(decreases_to!(args => args@));
            assert(decreases_to!(args@ => args@[i as int]));
            assert(args@.subrange(0, i + 1).drop_last() =~= args@.subrange(0, i as int));
            assert(args@.subrange(0, i + 1).last() == args@[i as int]);
        }
        let step = if i < params.len() && params[i] {
            env.require_unique(&args[i], "unique parameter")
        } else {
            match check_unique_expr(&args[i], env, sigs) {
                Ok(_) => Ok(()),
                Err(e) => Err(e),
            }
        };
        match step {
            Ok(()) => {},
            Err(e) => {
                proof {
                    lemma_sig_args_err(args@, params@, i + 1, old(env)@, sigs_view(sigs@));
                }
                return Err(e);
            },
        }
        i += 1;
    }
    proof {
        assert(args@.subrange(0, args@.len() as int) =~= args@);
    }
    Ok(())
}

/// A call of the function named `name`.
fn check_unique_call(
    name: &str,
    args: &Vec<Expr>,
    span: Span,
    env: &mut UniqueEnv,
    sigs: &Vec<(String, Vec<bool>, bool)>,
) -> (r: Result<bool, ElaborateError>)
    ensures
        unique_result(r, final(env)@, check_call_m(name@, args@, span, old(env)@, sigs_view(sigs@))),
    decreases args, 1nat,
{
    if str_eq(name, "mkarray") {
        if args.len() != 2 {
            return Err(arity_error_exec(span, name));
        }
        check_unique_args(args, env, sigs)?;
        Ok(true)
    } else if str_eq(name, "get") || str_eq(name, "len") {
        let expected: usize = if str_eq(name, "get") {
            2
        } else {
            1
        };
        if args.len() != expected {
            return Err(arity_error_exec(span, name));
        }
        check_unique_args(args, env, sigs)?;
        Ok(false)
    } else if str_eq(name, "set") {
        if args.len() != 3 {
            return Err(arity_error_exec(span, name));
        }
        check_unique_args(args, env, sigs)?;
        Ok(true)
    } else {
        match find_sig(sigs, name) {
            Some(k) => {
                check_unique_sig_args(args, &sigs[k].1, env, sigs)?;
                Ok(sigs[k].2)
            },
            None => {
                check_unique_args(args, env, sigs)?;
                Ok(false)
            },
        }
    }
}

fn arity_error_exec(span: Span, name: &str) -> (r: ElaborateError)
    ensures
        r@ == arity_error(span, name@),
{
    let mut message = owned("builtin `");
    push(&mut message, name);
    push(&mut message, "` called with wrong arity");
    ElaborateError { span, message }
}

fn check_unique_bindings(bs: &Vec<Binding>, env: &mut UniqueEnv, sigs: &Vec<(String, Vec<bool>, bool)>) -> (r:
    Result<(), ElaborateError>)
    ensures
        env_result(r, final(env)@, check_bindings_m(bs@, old(env)@, sigs_view(sigs@))),
    decreases bs, 0nat,
{
    let mut i: usize = 0;
    proof {
        assert(bs@.subrange(0, 0) =~= Seq::<Binding>::empty());
    }
    while i < bs.len()
        invariant
            i <= bs@.len(),
            check_bindings_m(bs@.subrange(0, i as int), old(env)@, sigs_view(sigs@)) == Ok::<
                UEnvM,
                ElabErrM,
            >(env@),
        decreases bs@.len() - i,
    {
        proof {
            assert(decreases_to!(bs => bs@));
            assert(decreases_to!(bs@ => bs@[i as int]));
            assert(decreases_to!(bs@[i as int] => bs@[i as int].expr));
            assert(bs@.subrange(0, i + 1).drop_last() =~= bs@.subrange(0, i as int));
            assert(bs@.subrange(0, i + 1).last() == bs@[i as int]);
        }
        let unique = match check_unique_expr(&bs[i].expr, env, sigs) {
            Ok(u) => u,
            Err(e) => {
                proof {
                    lemma_bindings_err(bs@, i + 1, old(env)@, sigs_view(sigs@));
                }
                return Err(e);
            },
        };
        if unique {
            env.bind_unique(bs[i].name.node.as_str());
        }
        i += 1;
    }
    proof {
        assert(bs@.subrange(0, bs@.len() as int) =~= bs@);
    }
    Ok(())
}

fn check_unique_arms(arms: &Vec<CaseArm>, env: &UniqueEnv, sigs: &Vec<(String, Vec<bool>, bool)>) -> (r:
    Result<(bool, Vec<UniqueEnv>), ElaborateError>)
    ensures
        match check_arms_m(arms@, env@, sigs_view(sigs@)) {
            Ok((u, branches)) => r matches Ok((v, bs)) && v == u && bs@.len() == branches.len()
                && bs@.len() == arms@.len() && forall|k: int|
                0 <= k < branches.len() ==> #[trigger] bs@[k]@ == branches[k],
            Err(x) => r matches Err(y) && y@ == x,
        },
    decreases arms, 0nat,
{
    let mut unique = false;
    let mut branches: Vec<UniqueEnv> = Vec::new();
    let mut i: usize = 0;
    proof {
        assert(arms@.subrange(0, 0) =~= Seq::<CaseArm>::empty());
    }
    while i < arms.len()
        invariant
            i <= arms@.len(),
            check_arms_m(arms@.subrange(0, i as int), env@, sigs_view(sigs@)) matches Ok((u, bs))
                && u == unique && bs.len() == branches@.len() && forall|k: int|
                0 <= k < bs.len() ==> #[trigger] branches@[k]@ == bs[k],
        decreases arms@.len() - i,
    {
        proof {
            assert(decreases_to!(arms => arms@));
            assert(decreases_to!(arms@ => arms@[i as int]));
            assert(decreases_to!(arms@[i as int] => arms@[i as int].body));
            assert(arms@.subrange(0, i + 1).drop_last() =~= arms@.subrange(0, i as int));
            assert(arms@.subrange(0, i + 1).last() == arms@[i as int]);
        }
        let mut branch = env.duplicate();
        let u = match check_unique_expr(&arms[i].body, &mut branch, sigs) {
            Ok(u) => u,
            Err(e) => {
                proof {
                    lemma_arms_err(arms@, i + 1, env@, sigs_view(sigs@));
                }
                return Err(e);
            },
        };
        unique = unique || u;
        branches.push(branch);
        i += 1;
    }
    proof {
        assert(arms@.subrange(0, arms@.len() as int) =~= arms@);
        lemma_arms_len(arms@, env@, sigs_view(sigs@));
    }
    Ok((unique, branches))
}

fn clause_body_of(c: &HandleClause) -> (r: &Expr)
    ensures
        *r == clause_body(*c),
{
    match c {
        HandleClause::Return { body, .. } => body,
        HandleClause::Operation { body, .. } => body,
    }
}

fn check_unique_clauses(cs: &Vec<HandleClause>, env: &mut UniqueEnv, sigs: &Vec<(String, Vec<bool>, bool)>) -> (r:
    Result<(), ElaborateError>)
    ensures
        env_result(r, final(env)@, check_clauses_m(cs@, old(env)@, sigs_view(sigs@))),
    decreases cs, 0nat,
{
    let mut i: usize = 0;
    proof {
        assert(cs@.subrange(0, 0) =~= Seq::<HandleClause>::empty());
    }
    while i < cs.len()
        invariant
            i <= cs@.len(),
            check_clauses_m(cs@.subrange(0, i as int), old(env)@, sigs_view(sigs@)) == Ok::<
                UEnvM,
                ElabErrM,
            >(env@),
        decreases cs@.len() - i,
    {
        proof {
            assert(decreases_to!(cs => cs@));
            assert(decreases_to!(cs@ => cs@[i as int]));
            assert(cs@.subrange(0, i + 1).drop_last() =~= cs@.subrange(0, i as int));
            assert(cs@.subrange(0, i + 1).last() == cs@[i as int]);
        }
        let body = clause_body_of(&cs[i]);
        proof {
            assert(decreases_to!(cs@[i as int] => clause_body(cs@[i as int])));
        }
        match check_unique_expr(body, env, sigs) {
            Ok(_) => {},
            Err(e) => {
                proof {
                    lemma_clauses_err(cs@, i + 1, old(env)@, sigs_view(sigs@));
                }
                return Err(e);
            },
        }
        i += 1;
    }
    proof {
        assert(cs@.subrange(0, cs@.len() as int) =~= cs@);
    }
    Ok(())
}


// ---------------------------------------------------------------------------------------
// Programs.
pub open spec fn params_unique_m(ps: Seq<crate::surface::ast::Param>) -> Seq<bool> {
    ps.map_values(|p: crate::surface::ast::Param| type_unique_m(p.ty))
}

/// The signatures of the functions of `decls`, in order.
pub open spec fn program_sigs_m(decls: Seq<Decl>) -> SigsM
    decreases decls.len(),
{
    if decls.len() == 0 {
        Seq::empty()
    } else {
        let before = program_sigs_m(decls.drop_last());
        match decls.last() {
            Decl::Fn(f) => before.push((f.name.node@, params_unique_m(f.params@), type_unique_m(f.ret))),
            Decl::Effect(_) => before,
        }
    }
}

/// The unique parameters of a function, bound and not yet consumed.
pub open spec fn param_env_m(ps: Seq<crate::surface::ast::Param>) -> UEnvM
    decreases ps.len(),
{
    if ps.len() == 0 {
        Seq::empty()
    } else {
        let before = param_env_m(ps.drop_last());
        if type_unique_m(ps.last().ty) {
            bind_unique_m(before, ps.last().name.node@)
        } else {
            before
        }
    }
}

/// The uniqueness rules on every function body of `decls`, in order: the first violation.
pub open spec fn surface_unique_m(decls: Seq<Decl>, sigs: SigsM) -> Result<(), ElabErrM>
    decreases decls.len(),
{
    if decls.len() == 0 {
        Ok(())
    } else {
        match surface_unique_m(decls.drop_last(), sigs) {
            Ok(()) => match decls.last() {
                Decl::Fn(f) => match check_m(f.body, param_env_m(f.params@), sigs) {
                    Ok(_) => Ok(()),
                    Err(x) => Err(x),
                },
                Decl::Effect(_) => Ok(()),
            },
            Err(x) => Err(x),
        }
    }
}

fn program_sigs(program: &Program) -> (r: Vec<(String, Vec<bool>, bool)>)
    ensures
        sigs_view(r@) == program_sigs_m(program.decls@),
{
    let mut out: Vec<(String, Vec<bool>, bool)> = Vec::new();
    let mut i: usize = 0;
    while i < program.decls.len()
        invariant
            i <= program.decls@.len(),
            sigs_view(out@) == program_sigs_m(program.decls@.subrange(0, i as int)),
        decreases program.decls@.len() - i,
    {
        proof {
            assert(program.decls@.subrange(0, i + 1).drop_last() =~= program.decls@.subrange(
                0,
                i as int,
            ));
        }
        match &program.decls[i] {
            Decl::Fn(func) => {
                let mut flags: Vec<bool> = Vec::new();
                let mut j: usize = 0;
                while j < func.params.len()
                    invariant
                        j <= func.params@.len(),
                        flags@ == params_unique_m(func.params@).subrange(0, j as int),
                    decreases func.params@.len() - j,
                {
                    flags.push(type_is_unique(&func.params[j].ty));
                    j += 1;
                    assert(flags@ =~= params_unique_m(func.params@).subrange(0, j as int));
                }
                assert(flags@ =~= params_unique_m(func.params@));
                let ghost before = sigs_view(out@);
                out.push((owned(func.name.node.as_str()), flags, type_is_unique(&func.ret)));
                assert(sigs_view(out@) =~= before.push(
                    (func.name.node@, params_unique_m(func.params@), type_unique_m(func.ret)),
                ));
            },
            Decl::Effect(_) => {},
        }
        i += 1;
    }
    assert(program.decls@.subrange(0, program.decls@.len() as int) =~= program.decls@);
    out
}

fn param_env(params: &Vec<crate::surface::ast::Param>) -> (r: UniqueEnv)
    ensures
        r@ == param_env_m(params@),
{
    let mut env = UniqueEnv::new();
    let mut j: usize = 0;
    proof {
        assert(params@.subrange(0, 0) =~= Seq::<crate::surface::ast::Param>::empty());
    }
    while j < params.len()
        invariant
            j <= params@.len(),
            env@ == param_env_m(params@.subrange(0, j as int)),
        decreases params@.len() - j,
    {
        proof {
            assert(params@.subrange(0, j + 1).drop_last() =~= params@.subrange(0, j as int));
        }
        if type_is_unique(&params[j].ty) {
            env.bind_unique(params[j].name.node.as_str());
        }
        j += 1;
    }
    assert(params@.subrange(0, params@.len() as int) =~= params@);
    env
}

/// The uniqueness rules on every function of `program`: the first violation, if any.
pub fn check_surface_uniqueness(program: &Program) -> (r: Result<(), ElaborateError>)
    ensures
        match surface_unique_m(program.decls@, program_sigs_m(program.decls@)) {
            Ok(()) => r is Ok,
            Err(x) => r matches Err(y) && y@ == x,
        },
{
    let sigs = program_sigs(program);
    let ghost sm = program_sigs_m(program.decls@);
    let mut i: usize = 0;
    proof {
        assert(program.decls@.subrange(0, 0) =~= Seq::<Decl>::empty());
    }
    while i < program.decls.len()
        invariant
            i <= program.decls@.len(),
            sigs_view(sigs@) == sm,
            sm == program_sigs_m(program.decls@),
            surface_unique_m(program.decls@.subrange(0, i as int), sm) == Ok::<(), ElabErrM>(()),
        decreases program.decls@.len() - i,
    {
        proof {
            assert(program.decls@.subrange(0, i + 1).drop_last() =~= program.decls@.subrange(
                0,
                i as int,
            ));
            assert(program.decls@.subrange(0, i + 1).last() == program.decls@[i as int]);
        }
        match &program.decls[i] {
            Decl::Fn(func) => {
                let mut env = param_env(&func.params);
                match check_unique_expr(&func.body, &mut env, &sigs) {
                    Ok(_) => {},
                    Err(e) => {
                        proof {
                            lemma_surface_err(program.decls@, i as int + 1, sm);
                        }
                        return Err(e);
                    },
                }
            },
            Decl::Effect(_) => {},
        }
        i += 1;
    }
    proof {
        assert(program.decls@.subrange(0, program.decls@.len() as int) =~= program.decls@);
    }
    Ok(())
}

proof fn lemma_surface_err(decls: Seq<Decl>, k: int, sigs: SigsM)
    requires
        0 <= k <= decls.len(),
        surface_unique_m(decls.subrange(0, k), sigs) is Err,
    ensures
        surface_unique_m(decls, sigs) == surface_unique_m(decls.subrange(0, k), sigs),
    decreases decls.len() - k,
{
    if k < decls.len() {
        assert(decls.subrange(0, k + 1).drop_last() =~= decls.subrange(0, k));
        lemma_surface_err(decls, k + 1, sigs);
    } else {
        assert(decls.subrange(0, k) =~= decls);
    }
}

} // verus!
