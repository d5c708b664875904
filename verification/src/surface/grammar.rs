//! The grammar of the reduced surface, as a function from a token sequence and a position
//! to the syntax tree found there and the position after it, or the error at the first
//! token that does not fit. The parser computes exactly these functions.
//!
//! Every parse that succeeds consumes at least one token; where a rule goes on from the
//! position another rule stopped at, `moved` states that, so that the rules are seen to
//! terminate. A rule never meets a position that did not move.

use vstd::prelude::*;

use crate::surface::ast::{
    BindingM, BinaryOp, BoundednessM, CaseArmM, DeclM, EffectDeclM, ExprKindM, ExprM, FnDeclM,
    HandleClauseM, NameM, ParamM, PatternM, PrefixOp, Span, TypeExpr,
};
use crate::surface::lexer::{kind_tag, TokenKindM, TokenM};
use crate::surface::parser::{unsupported_decl_message, unsupported_expr_message, ParseErrorM};

verus! {

/// What a rule finds from a position: a tree and the position after it, or an error.
pub type Parsed<X> = Result<(X, int), ParseErrorM>;

pub open spec fn err_at(t: Seq<TokenM>, i: int, message: Seq<char>) -> ParseErrorM {
    ParseErrorM { span: t[i].span, message }
}

pub open spec fn joined(a: Span, b: Span) -> Span {
    Span { start: a.start, end: b.end }
}

/// `j` lies past `i` and inside the tokens.
pub open spec fn moved(t: Seq<TokenM>, i: int, j: int) -> bool {
    i < j < t.len()
}

/// `j` lies at or past `i` and inside the tokens.
pub open spec fn within(t: Seq<TokenM>, i: int, j: int) -> bool {
    i <= j < t.len()
}

/// The outcome at a position that did not move (never met).
pub open spec fn stalled<X>(t: Seq<TokenM>, i: int) -> Parsed<X> {
    Err(err_at(t, i, Seq::empty()))
}

pub open spec fn mk(kind: ExprKindM, span: Span) -> ExprM {
    ExprM { kind, span }
}

/// The position after an optional `;`.
pub open spec fn after_semi(t: Seq<TokenM>, i: int) -> int {
    if t[i].kind is Semi {
        i + 1
    } else {
        i
    }
}

/// A token of the variant of `k`.
pub open spec fn expect_m(t: Seq<TokenM>, i: int, k: TokenKindM, message: Seq<char>) -> Parsed<TokenM> {
    if kind_tag(t[i].kind) == kind_tag(k) {
        Ok((t[i], i + 1))
    } else {
        Err(err_at(t, i, message))
    }
}

/// An identifier.
pub open spec fn ident_m(t: Seq<TokenM>, i: int, message: Seq<char>) -> Parsed<NameM> {
    match t[i].kind {
        TokenKindM::Ident(n) => Ok((NameM { node: n, span: t[i].span }, i + 1)),
        _ => Err(err_at(t, i, message)),
    }
}

/// An identifier followed by `=`: the start of a block binding.
pub open spec fn ident_eq_m(t: Seq<TokenM>, i: int) -> bool {
    &&& t[i].kind is Ident
    &&& i < t.len() - 1
    &&& t[i + 1].kind is Eq
}

// ---------------------------------------------------------------------------------------
// Types.
/// `^atom`, `atom`, either followed by `-> type`.
pub open spec fn ty_m(t: Seq<TokenM>, i: int) -> Parsed<TypeExpr>
    decreases t.len() - i, 1nat,
{
    if !(0 <= i < t.len()) {
        stalled(t, i)
    } else if t[i].kind is Caret {
        match ty_atom_m(t, i + 1) {
            Err(e) => Err(e),
            Ok((inner, j)) => {
                let unique = TypeExpr::Unique(Box::new(inner), joined(t[i].span, inner.span_of()));
                if !moved(t, i, j) {
                    stalled(t, i)
                } else if t[j].kind is Arrow {
                    match ty_m(t, j + 1) {
                        Err(e) => Err(e),
                        Ok((right, k)) => Ok(
                            (
                                TypeExpr::Arrow(
                                    Box::new(unique),
                                    Box::new(right),
                                    joined(unique.span_of(), right.span_of()),
                                ),
                                k,
                            ),
                        ),
                    }
                } else {
                    Ok((unique, j))
                }
            },
        }
    } else {
        match ty_atom_m(t, i) {
            Err(e) => Err(e),
            Ok((left, j)) => if !moved(t, i, j) {
                stalled(t, i)
            } else if t[j].kind is Arrow {
                match ty_m(t, j + 1) {
                    Err(e) => Err(e),
                    Ok((right, k)) => Ok(
                        (
                            TypeExpr::Arrow(
                                Box::new(left),
                                Box::new(right),
                                joined(left.span_of(), right.span_of()),
                            ),
                            k,
                        ),
                    ),
                }
            } else {
                Ok((left, j))
            },
        }
    }
}

/// `Unit`, `Nat`, `Array`, `()` or a parenthesized type.
pub open spec fn ty_atom_m(t: Seq<TokenM>, i: int) -> Parsed<TypeExpr>
    decreases t.len() - i, 0nat,
{
    if !(0 <= i < t.len()) {
        stalled(t, i)
    } else {
        match t[i].kind {
            TokenKindM::Ident(n) => if n == "Unit"@ {
                Ok((TypeExpr::Unit(t[i].span), i + 1))
            } else if n == "Nat"@ {
                Ok((TypeExpr::Nat(t[i].span), i + 1))
            } else if n == "Array"@ {
                Ok((TypeExpr::Array(t[i].span), i + 1))
            } else {
                Err(err_at(t, i, "expected type"@))
            },
            TokenKindM::LParen => if t[i + 1].kind is RParen {
                Ok((TypeExpr::Unit(joined(t[i].span, t[i + 1].span)), i + 2))
            } else {
                match ty_m(t, i + 1) {
                    Err(e) => Err(e),
                    Ok((inner, j)) => match expect_m(t, j, TokenKindM::RParen, "expected `)` after type"@) {
                        Err(e) => Err(e),
                        Ok((_, k)) => Ok((inner, k)),
                    },
                }
            },
            _ => Err(err_at(t, i, "expected type"@)),
        }
    }
}

/// `0`, a name or `_`.
pub open spec fn pattern_m(t: Seq<TokenM>, i: int) -> Parsed<PatternM> {
    match t[i].kind {
        TokenKindM::Number(n) => if n == 0 {
            Ok((PatternM::Zero(t[i].span), i + 1))
        } else {
            Err(err_at(t, i, "only `0` literal patterns are in the reduced surface"@))
        },
        TokenKindM::Ident(n) => Ok((PatternM::Bind(NameM { node: n, span: t[i].span }), i + 1)),
        TokenKindM::Underscore => Ok((PatternM::Wildcard(t[i].span), i + 1)),
        _ => Err(err_at(t, i, "expected pattern"@)),
    }
}

/// The labels of an effect row after its first: `, label` repeated, then `}`.
pub open spec fn labels_m(t: Seq<TokenM>, i: int) -> Parsed<()>
    decreases t.len() - i,
{
    if t[i].kind is Comma {
        match ident_m(t, i + 1, "expected effect label after `,`"@) {
            Err(e) => Err(e),
            Ok((_, j)) => if moved(t, i, j) {
                labels_m(t, j)
            } else {
                stalled(t, i)
            },
        }
    } else {
        match expect_m(t, i, TokenKindM::RBrace, "expected `}` after effect row"@) {
            Err(e) => Err(e),
            Ok((_, j)) => Ok(((), j)),
        }
    }
}

/// The row after `!`: `{ label, ... }`; a row variable is outside the reduced surface.
pub open spec fn effect_row_m(t: Seq<TokenM>, i: int) -> Parsed<()> {
    if t[i].kind is LBrace {
        match ident_m(t, i + 1, "expected effect label"@) {
            Err(e) => Err(e),
            Ok((_, j)) => labels_m(t, j),
        }
    } else {
        match ident_m(t, i, "expected effect row after `!`"@) {
            Err(e) => Err(e),
            Ok((g, _)) => Err(
                ParseErrorM {
                    span: g.span,
                    message: "effect-row variables are not yet in the reduced surface"@,
                },
            ),
        }
    }
}

/// `name: type` repeated with `,` between, after the parameters in `acc`.
pub open spec fn params_from_m(t: Seq<TokenM>, i: int, acc: Seq<ParamM>) -> Parsed<Seq<ParamM>>
    decreases t.len() - i,
{
    match ident_m(t, i, "expected parameter name"@) {
        Err(e) => Err(e),
        Ok((name, a)) => match expect_m(t, a, TokenKindM::Colon, "expected `:` after parameter name"@) {
            Err(e) => Err(e),
            Ok((_, b)) => match ty_m(t, b) {
                Err(e) => Err(e),
                Ok((ty, c)) => {
                    let next = acc.push(ParamM { name, ty });
                    if t[c].kind is Comma {
                        if moved(t, i, c + 1) {
                            params_from_m(t, c + 1, next)
                        } else {
                            stalled(t, i)
                        }
                    } else {
                        Ok((next, c))
                    }
                },
            },
        },
    }
}

/// A parameter list, up to its `)`.
pub open spec fn params_m(t: Seq<TokenM>, i: int) -> Parsed<Seq<ParamM>> {
    if t[i].kind is RParen {
        Ok((Seq::empty(), i))
    } else {
        params_from_m(t, i, Seq::empty())
    }
}

// ---------------------------------------------------------------------------------------
// Expressions, loosest first: pipes, then `+` and `-`, then `*`, then calls, then atoms.
pub open spec fn expr_m(t: Seq<TokenM>, i: int) -> Parsed<ExprM>
    decreases t.len() - i, 6nat,
{
    pipe_m(t, i)
}

pub open spec fn pipe_m(t: Seq<TokenM>, i: int) -> Parsed<ExprM>
    decreases t.len() - i, 5nat,
{
    match add_m(t, i) {
        Err(e) => Err(e),
        Ok((lhs, j)) => if moved(t, i, j) {
            pipe_rest_m(t, j, lhs)
        } else {
            stalled(t, i)
        },
    }
}

/// `move` or `freeze` after `|>` with nothing after it that could be its operand.
pub open spec fn operandless_m(t: Seq<TokenM>, i: int) -> Option<PrefixOp> {
    let op = match t[i].kind {
        TokenKindM::Move => Some(PrefixOp::Move),
        TokenKindM::Freeze => Some(PrefixOp::Freeze),
        _ => None,
    };
    match op {
        None => None,
        Some(o) => if i >= t.len() - 1 {
            Some(o)
        } else {
            match t[i + 1].kind {
                TokenKindM::PipeGt | TokenKindM::RBrace | TokenKindM::Semi | TokenKindM::Eof => Some(o),
                _ => None,
            }
        },
    }
}

/// `|> prefix` or `|> operand` repeated after `lhs`.
pub open spec fn pipe_rest_m(t: Seq<TokenM>, i: int, lhs: ExprM) -> Parsed<ExprM>
    decreases t.len() - i, 5nat,
{
    if t[i].kind is PipeGt {
        match operandless_m(t, i + 1) {
            Some(op) => if moved(t, i, i + 2) {
                pipe_rest_m(
                    t,
                    i + 2,
                    mk(ExprKindM::Prefix { op, expr: Box::new(lhs) }, joined(lhs.span, t[i + 1].span)),
                )
            } else {
                stalled(t, i)
            },
            None => if moved(t, i, i + 1) {
                match add_m(t, i + 1) {
                    Err(e) => Err(e),
                    Ok((rhs, j)) => if moved(t, i, j) {
                        pipe_rest_m(
                            t,
                            j,
                            mk(
                                ExprKindM::Pipe { lhs: Box::new(lhs), rhs: Box::new(rhs) },
                                joined(lhs.span, rhs.span),
                            ),
                        )
                    } else {
                        stalled(t, i)
                    },
                }
            } else {
                stalled(t, i)
            },
        }
    } else {
        Ok((lhs, i))
    }
}

pub open spec fn add_m(t: Seq<TokenM>, i: int) -> Parsed<ExprM>
    decreases t.len() - i, 4nat,
{
    match mul_m(t, i) {
        Err(e) => Err(e),
        Ok((lhs, j)) => if moved(t, i, j) {
            add_rest_m(t, j, lhs)
        } else {
            stalled(t, i)
        },
    }
}

/// `+ operand` or `- operand` repeated after `lhs`, grouping to the left.
pub open spec fn add_rest_m(t: Seq<TokenM>, i: int, lhs: ExprM) -> Parsed<ExprM>
    decreases t.len() - i, 4nat,
{
    let op = if t[i].kind is Plus {
        Some(BinaryOp::Add)
    } else if t[i].kind is Minus {
        Some(BinaryOp::Sub)
    } else {
        None
    };
    match op {
        None => Ok((lhs, i)),
        Some(o) => if moved(t, i, i + 1) {
            match mul_m(t, i + 1) {
                Err(e) => Err(e),
                Ok((rhs, j)) => if moved(t, i, j) {
                    add_rest_m(
                        t,
                        j,
                        mk(
                            ExprKindM::Binary { op: o, lhs: Box::new(lhs), rhs: Box::new(rhs) },
                            joined(lhs.span, rhs.span),
                        ),
                    )
                } else {
                    stalled(t, i)
                },
            }
        } else {
            stalled(t, i)
        },
    }
}

pub open spec fn mul_m(t: Seq<TokenM>, i: int) -> Parsed<ExprM>
    decreases t.len() - i, 3nat,
{
    match call_m(t, i) {
        Err(e) => Err(e),
        Ok((lhs, j)) => if moved(t, i, j) {
            mul_rest_m(t, j, lhs)
        } else {
            stalled(t, i)
        },
    }
}

/// `* operand` repeated after `lhs`, grouping to the left.
pub open spec fn mul_rest_m(t: Seq<TokenM>, i: int, lhs: ExprM) -> Parsed<ExprM>
    decreases t.len() - i, 3nat,
{
    if t[i].kind is Star {
        if moved(t, i, i + 1) {
            match call_m(t, i + 1) {
                Err(e) => Err(e),
                Ok((rhs, j)) => if moved(t, i, j) {
                    mul_rest_m(
                        t,
                        j,
                        mk(
                            ExprKindM::Binary { op: BinaryOp::Mul, lhs: Box::new(lhs), rhs: Box::new(rhs) },
                            joined(lhs.span, rhs.span),
                        ),
                    )
                } else {
                    stalled(t, i)
                },
            }
        } else {
            stalled(t, i)
        }
    } else {
        Ok((lhs, i))
    }
}

pub open spec fn call_m(t: Seq<TokenM>, i: int) -> Parsed<ExprM>
    decreases t.len() - i, 2nat,
{
    match primary_m(t, i) {
        Err(e) => Err(e),
        Ok((e, j)) => if moved(t, i, j) {
            call_rest_m(t, j, e)
        } else {
            stalled(t, i)
        },
    }
}

/// `(args)` or `.op(args)` repeated after `e`.
pub open spec fn call_rest_m(t: Seq<TokenM>, i: int, e: ExprM) -> Parsed<ExprM>
    decreases t.len() - i, 2nat,
{
    if t[i].kind is Dot {
        match ident_m(t, i + 1, "expected field or operation name after `.`"@) {
            Err(x) => Err(x),
            Ok((field, a)) => match expect_m(t, a, TokenKindM::LParen, "expected `(` after operation name"@) {
                Err(x) => Err(x),
                Ok((_, b)) => if moved(t, i, b) {
                    match args_m(t, b) {
                        Err(x) => Err(x),
                        Ok((args, c)) => match expect_m(t, c, TokenKindM::RParen, "expected `)` after arguments"@) {
                            Err(x) => Err(x),
                            Ok((rparen, d)) => match e.kind {
                                ExprKindM::Var(effect) => if moved(t, i, d) {
                                    call_rest_m(
                                        t,
                                        d,
                                        mk(
                                            ExprKindM::QualifiedCall { effect, op: field.node, args },
                                            joined(e.span, rparen.span),
                                        ),
                                    )
                                } else {
                                    stalled(t, i)
                                },
                                _ => Err(
                                    ParseErrorM {
                                        span: e.span,
                                        message: "effect calls must be written as `Effect.op(...)`"@,
                                    },
                                ),
                            },
                        },
                    }
                } else {
                    stalled(t, i)
                },
            },
        }
    } else if t[i].kind is LParen {
        if moved(t, i, i + 1) {
            match args_m(t, i + 1) {
                Err(x) => Err(x),
                Ok((args, c)) => match expect_m(t, c, TokenKindM::RParen, "expected `)` after arguments"@) {
                    Err(x) => Err(x),
                    Ok((rparen, d)) => if moved(t, i, d) {
                        call_rest_m(
                            t,
                            d,
                            mk(ExprKindM::Call { callee: Box::new(e), args }, joined(e.span, rparen.span)),
                        )
                    } else {
                        stalled(t, i)
                    },
                },
            }
        } else {
            stalled(t, i)
        }
    } else {
        Ok((e, i))
    }
}

/// An argument list, up to its `)`.
pub open spec fn args_m(t: Seq<TokenM>, i: int) -> Parsed<Seq<ExprM>>
    decreases t.len() - i, 8nat,
{
    if t[i].kind is RParen {
        Ok((Seq::empty(), i))
    } else {
        args_from_m(t, i, Seq::empty())
    }
}

/// Expressions with `,` between, after the arguments in `acc`.
pub open spec fn args_from_m(t: Seq<TokenM>, i: int, acc: Seq<ExprM>) -> Parsed<Seq<ExprM>>
    decreases t.len() - i, 7nat,
{
    match expr_m(t, i) {
        Err(e) => Err(e),
        Ok((e, j)) => {
            let next = acc.push(e);
            if t[j].kind is Comma {
                if moved(t, i, j + 1) {
                    args_from_m(t, j + 1, next)
                } else {
                    stalled(t, i)
                }
            } else {
                Ok((next, j))
            }
        },
    }
}

/// An atom; a construct outside the reduced surface is reported where it starts.
pub open spec fn primary_m(t: Seq<TokenM>, i: int) -> Parsed<ExprM>
    decreases t.len() - i, 1nat,
{
    match unsupported_expr_message(t[i].kind) {
        Some(m) => Err(err_at(t, i, m)),
        None => {
            let tok = t[i];
            match tok.kind {
                TokenKindM::Move | TokenKindM::Inplace | TokenKindM::Freeze => {
                    let op = match tok.kind {
                        TokenKindM::Move => PrefixOp::Move,
                        TokenKindM::Inplace => PrefixOp::Inplace,
                        _ => PrefixOp::Freeze,
                    };
                    if moved(t, i, i + 1) {
                        match call_m(t, i + 1) {
                            Err(e) => Err(e),
                            Ok((e, j)) => Ok(
                                (mk(ExprKindM::Prefix { op, expr: Box::new(e) }, joined(tok.span, e.span)), j),
                            ),
                        }
                    } else {
                        stalled(t, i)
                    }
                },
                TokenKindM::Number(v) => Ok((mk(ExprKindM::Nat(v), tok.span), i + 1)),
                TokenKindM::Ident(n) => Ok((mk(ExprKindM::Var(n), tok.span), i + 1)),
                TokenKindM::Underscore => Ok((mk(ExprKindM::Var("_"@), tok.span), i + 1)),
                TokenKindM::LParen => if t[i + 1].kind is RParen {
                    Ok((mk(ExprKindM::Unit, joined(tok.span, t[i + 1].span)), i + 2))
                } else if moved(t, i, i + 1) {
                    match expr_m(t, i + 1) {
                        Err(e) => Err(e),
                        Ok((inner, j)) => match expect_m(t, j, TokenKindM::RParen, "expected `)` after expression"@) {
                            Err(e) => Err(e),
                            Ok((end, k)) => Ok((mk(inner.kind, joined(tok.span, end.span)), k)),
                        },
                    }
                } else {
                    stalled(t, i)
                },
                TokenKindM::LBrace => if moved(t, i, i + 1) {
                    block_after_m(t, i + 1, tok.span)
                } else {
                    stalled(t, i)
                },
                TokenKindM::Case => if moved(t, i, i + 1) {
                    case_after_m(t, i + 1, tok.span)
                } else {
                    stalled(t, i)
                },
                TokenKindM::Handle => if moved(t, i, i + 1) {
                    handle_after_m(t, i + 1, tok.span)
                } else {
                    stalled(t, i)
                },
                _ => Err(err_at(t, i, "expected expression"@)),
            }
        },
    }
}

/// `name = expr;` bindings of a block, after those in `acc`.
pub open spec fn block_bindings_m(t: Seq<TokenM>, i: int, acc: Seq<BindingM>) -> Parsed<Seq<BindingM>>
    decreases t.len() - i, 8nat,
{
    if !(t[i].kind is RBrace) && ident_eq_m(t, i) {
        match ident_m(t, i, "expected binding name"@) {
            Err(e) => Err(e),
            Ok((name, a)) => match expect_m(t, a, TokenKindM::Eq, "expected `=` in block binding"@) {
                Err(e) => Err(e),
                Ok((_, b)) => if moved(t, i, b) {
                    match expr_m(t, b) {
                        Err(e) => Err(e),
                        Ok((e, c)) => {
                            let d = after_semi(t, c);
                            if moved(t, i, d) {
                                block_bindings_m(
                                    t,
                                    d,
                                    acc.push(BindingM { name, expr: e, span: joined(name.span, e.span) }),
                                )
                            } else {
                                stalled(t, i)
                            }
                        },
                    }
                } else {
                    stalled(t, i)
                },
            },
        }
    } else {
        Ok((acc, i))
    }
}

/// A block after its `{` (which spans `start`): bindings, an optional result, `}`.
pub open spec fn block_after_m(t: Seq<TokenM>, i: int, start: Span) -> Parsed<ExprM>
    decreases t.len() - i, 9nat,
{
    block_close_m(t, i, block_bindings_m(t, i, Seq::empty()), start)
}

/// The rest of a block that started at `i`, after its bindings `bs`.
pub open spec fn block_close_m(t: Seq<TokenM>, i: int, bs: Parsed<Seq<BindingM>>, start: Span) -> Parsed<ExprM>
    decreases t.len() - i, 8nat,
{
    match bs {
        Err(e) => Err(e),
        Ok((bindings, j)) => {
            let result: Parsed<ExprM> = if t[j].kind is RBrace {
                Ok((mk(ExprKindM::Unit, t[j].span), j))
            } else if within(t, i, j) {
                match expr_m(t, j) {
                    Err(e) => Err(e),
                    Ok((e, k)) => Ok((e, after_semi(t, k))),
                }
            } else {
                stalled(t, i)
            };
            match result {
                Err(e) => Err(e),
                Ok((r, k)) => match expect_m(t, k, TokenKindM::RBrace, "expected `}` after block"@) {
                    Err(e) => Err(e),
                    Ok((end, m)) => Ok(
                        (mk(ExprKindM::Block { bindings, result: Box::new(r) }, joined(start, end.span)), m),
                    ),
                },
            }
        },
    }
}

/// `pattern -> expr;` arms, after those in `acc`, up to `}`.
pub open spec fn arms_m(t: Seq<TokenM>, i: int, acc: Seq<CaseArmM>) -> Parsed<Seq<CaseArmM>>
    decreases t.len() - i, 8nat,
{
    if t[i].kind is RBrace {
        Ok((acc, i))
    } else {
        match pattern_m(t, i) {
            Err(e) => Err(e),
            Ok((p, a)) => match expect_m(t, a, TokenKindM::Arrow, "expected `->` in case arm"@) {
                Err(e) => Err(e),
                Ok((_, b)) => if moved(t, i, b) {
                    match expr_m(t, b) {
                        Err(e) => Err(e),
                        Ok((body, c)) => {
                            let d = after_semi(t, c);
                            if moved(t, i, d) {
                                arms_m(
                                    t,
                                    d,
                                    acc.push(CaseArmM { pattern: p, body, span: joined(p.span_of(), body.span) }),
                                )
                            } else {
                                stalled(t, i)
                            }
                        },
                    }
                } else {
                    stalled(t, i)
                },
            },
        }
    }
}

/// `case scrutinee { arms }` after `case` (which spans `start`).
pub open spec fn case_after_m(t: Seq<TokenM>, i: int, start: Span) -> Parsed<ExprM>
    decreases t.len() - i, 9nat,
{
    match expr_m(t, i) {
        Err(e) => Err(e),
        Ok((s, j)) => match expect_m(t, j, TokenKindM::LBrace, "expected `{` after case scrutinee"@) {
            Err(e) => Err(e),
            Ok((_, k)) => if moved(t, i, k) {
                case_close_m(t, s, arms_m(t, k, Seq::empty()), start)
            } else {
                stalled(t, i)
            },
        },
    }
}

/// The `}` after the arms of a case on `s`.
pub open spec fn case_close_m(t: Seq<TokenM>, s: ExprM, arms: Parsed<Seq<CaseArmM>>, start: Span) -> Parsed<ExprM> {
    match arms {
        Err(e) => Err(e),
        Ok((arms, m)) => match expect_m(t, m, TokenKindM::RBrace, "expected `}` after case"@) {
            Err(e) => Err(e),
            Ok((end, n)) => Ok(
                (mk(ExprKindM::CaseNat { scrutinee: Box::new(s), arms }, joined(start, end.span)), n),
            ),
        },
    }
}

/// `return(x) -> expr` or `Effect.op(pattern, pattern) -> expr`.
pub open spec fn handle_clause_m(t: Seq<TokenM>, i: int) -> Parsed<HandleClauseM>
    decreases t.len() - i, 7nat,
{
    if t[i].kind is Return {
        match expect_m(t, i + 1, TokenKindM::LParen, "expected `(` after return"@) {
            Err(e) => Err(e),
            Ok((_, a)) => match ident_m(t, a, "expected return binder"@) {
                Err(e) => Err(e),
                Ok((var, b)) => match expect_m(t, b, TokenKindM::RParen, "expected `)` after return binder"@) {
                    Err(e) => Err(e),
                    Ok((_, c)) => match expect_m(t, c, TokenKindM::Arrow, "expected `->` in return clause"@) {
                        Err(e) => Err(e),
                        Ok((_, d)) => if moved(t, i, d) {
                            match expr_m(t, d) {
                                Err(e) => Err(e),
                                Ok((body, k)) => Ok(
                                    (HandleClauseM::Return { var, body, span: joined(t[i].span, body.span) }, k),
                                ),
                            }
                        } else {
                            stalled(t, i)
                        },
                    },
                },
            },
        }
    } else {
        match ident_m(t, i, "expected effect label in handler clause"@) {
            Err(e) => Err(e),
            Ok((effect, a)) => match expect_m(t, a, TokenKindM::Dot, "expected `.` in operation clause"@) {
                Err(e) => Err(e),
                Ok((_, b)) => match ident_m(t, b, "expected operation name"@) {
                    Err(e) => Err(e),
                    Ok((op, c)) => match expect_m(t, c, TokenKindM::LParen, "expected `(` after operation name"@) {
                        Err(e) => Err(e),
                        Ok((_, d)) => match pattern_m(t, d) {
                            Err(e) => Err(e),
                            Ok((param, f)) => match expect_m(
                                t,
                                f,
                                TokenKindM::RParen,
                                "expected `)` after operation pattern"@,
                            ) {
                                Err(e) => Err(e),
                                Ok((_, g)) => match expect_m(
                                    t,
                                    g,
                                    TokenKindM::Comma,
                                    "expected `,` before continuation binder"@,
                                ) {
                                    Err(e) => Err(e),
                                    Ok((_, h)) => match pattern_m(t, h) {
                                        Err(e) => Err(e),
                                        Ok((kont, k)) => match expect_m(
                                            t,
                                            k,
                                            TokenKindM::Arrow,
                                            "expected `->` in operation clause"@,
                                        ) {
                                            Err(e) => Err(e),
                                            Ok((_, m)) => if moved(t, i, m) {
                                                match expr_m(t, m) {
                                                    Err(e) => Err(e),
                                                    Ok((body, n)) => Ok(
                                                        (
                                                            HandleClauseM::Operation {
                                                                effect,
                                                                op,
                                                                param,
                                                                kont,
                                                                body,
                                                                span: joined(effect.span, body.span),
                                                            },
                                                            n,
                                                        ),
                                                    ),
                                                }
                                            } else {
                                                stalled(t, i)
                                            },
                                        },
                                    },
                                },
                            },
                        },
                    },
                },
            },
        }
    }
}

/// Handler clauses, each with an optional `;`, after those in `acc`, up to `}`.
pub open spec fn clauses_m(t: Seq<TokenM>, i: int, acc: Seq<HandleClauseM>) -> Parsed<Seq<HandleClauseM>>
    decreases t.len() - i, 8nat,
{
    if t[i].kind is RBrace {
        Ok((acc, i))
    } else {
        match handle_clause_m(t, i) {
            Err(e) => Err(e),
            Ok((c, j)) => {
                let k = after_semi(t, j);
                if moved(t, i, k) {
                    clauses_m(t, k, acc.push(c))
                } else {
                    stalled(t, i)
                }
            },
        }
    }
}

/// `handle body { clauses }` after `handle` (which spans `start`).
pub open spec fn handle_after_m(t: Seq<TokenM>, i: int, start: Span) -> Parsed<ExprM>
    decreases t.len() - i, 9nat,
{
    match expr_m(t, i) {
        Err(e) => Err(e),
        Ok((body, j)) => match expect_m(t, j, TokenKindM::LBrace, "expected `{` after handled expression"@) {
            Err(e) => Err(e),
            Ok((_, k)) => if moved(t, i, k) {
                handle_close_m(t, body, clauses_m(t, k, Seq::empty()), start)
            } else {
                stalled(t, i)
            },
        },
    }
}

/// The `}` after the clauses of a handler of `body`.
pub open spec fn handle_close_m(
    t: Seq<TokenM>,
    body: ExprM,
    clauses: Parsed<Seq<HandleClauseM>>,
    start: Span,
) -> Parsed<ExprM> {
    match clauses {
        Err(e) => Err(e),
        Ok((clauses, m)) => match expect_m(t, m, TokenKindM::RBrace, "expected `}` after handler"@) {
            Err(e) => Err(e),
            Ok((end, n)) => Ok(
                (mk(ExprKindM::Handle { body: Box::new(body), clauses }, joined(start, end.span)), n),
            ),
        },
    }
}

/// `{ ... }`.
pub open spec fn block_m(t: Seq<TokenM>, i: int) -> Parsed<ExprM> {
    match expect_m(t, i, TokenKindM::LBrace, "expected `{`"@) {
        Err(e) => Err(e),
        Ok((lb, j)) => block_after_m(t, j, lb.span),
    }
}

// ---------------------------------------------------------------------------------------
// Declarations.
/// An optional `! row`: the span of the `!`.
pub open spec fn fn_effects_m(t: Seq<TokenM>, i: int) -> Parsed<Option<Span>> {
    if t[i].kind is Bang {
        match effect_row_m(t, i + 1) {
            Err(e) => Err(e),
            Ok((_, j)) => Ok((Some(t[i].span), j)),
        }
    } else {
        Ok((None, i))
    }
}

/// An optional `measure expr` or `div`.
pub open spec fn boundedness_m(t: Seq<TokenM>, i: int) -> Parsed<BoundednessM> {
    if t[i].kind is Measure {
        match expr_m(t, i + 1) {
            Err(e) => Err(e),
            Ok((e, j)) => Ok((BoundednessM::Measure(e), j)),
        }
    } else if t[i].kind is Div {
        Ok((BoundednessM::Div(t[i].span), i + 1))
    } else {
        Ok((BoundednessM::StructuralDescent, i))
    }
}

/// `= expr` or a block.
pub open spec fn fn_body_m(t: Seq<TokenM>, i: int) -> Parsed<ExprM> {
    if t[i].kind is Eq {
        expr_m(t, i + 1)
    } else if t[i].kind is LBrace {
        block_m(t, i)
    } else {
        Err(err_at(t, i, "expected `=` expression or block body"@))
    }
}

/// `fn name(params) -> type [! row] [measure expr | div] body`.
pub open spec fn fn_decl_m(t: Seq<TokenM>, i: int, public: bool) -> Parsed<FnDeclM> {
    match expect_m(t, i, TokenKindM::Fn, "expected `fn`"@) {
        Err(e) => Err(e),
        Ok((start, a)) => match ident_m(t, a, "expected function name"@) {
            Err(e) => Err(e),
            Ok((name, b)) => if t[b].kind is LBracket {
                Err(err_at(t, b, "type parameters are not yet in the reduced surface"@))
            } else {
                match expect_m(t, b, TokenKindM::LParen, "expected `(` after function name"@) {
                    Err(e) => Err(e),
                    Ok((_, c)) => match params_m(t, c) {
                        Err(e) => Err(e),
                        Ok((params, d)) => match expect_m(t, d, TokenKindM::RParen, "expected `)` after parameters"@) {
                            Err(e) => Err(e),
                            Ok((_, f)) => match expect_m(t, f, TokenKindM::Arrow, "expected `->` before return type"@) {
                                Err(e) => Err(e),
                                Ok((_, g)) => match ty_m(t, g) {
                                    Err(e) => Err(e),
                                    Ok((ret, h)) => match fn_effects_m(t, h) {
                                        Err(e) => Err(e),
                                        Ok((effects, k)) => match boundedness_m(t, k) {
                                            Err(e) => Err(e),
                                            Ok((boundedness, m)) => match fn_body_m(t, m) {
                                                Err(e) => Err(e),
                                                Ok((body, n)) => Ok(
                                                    (
                                                        FnDeclM {
                                                            public,
                                                            name,
                                                            params,
                                                            ret,
                                                            effects,
                                                            boundedness,
                                                            body,
                                                            span: joined(start.span, body.span),
                                                        },
                                                        n,
                                                    ),
                                                ),
                                            },
                                        },
                                    },
                                },
                            },
                        },
                    },
                }
            },
        },
    }
}

/// `effect Name { op(param) -> type }`.
pub open spec fn effect_decl_m(t: Seq<TokenM>, i: int) -> Parsed<EffectDeclM> {
    match expect_m(t, i, TokenKindM::Effect, "expected `effect`"@) {
        Err(e) => Err(e),
        Ok((start, a)) => match ident_m(t, a, "expected effect name"@) {
            Err(e) => Err(e),
            Ok((name, b)) => if t[b].kind is LBracket {
                Err(err_at(t, b, "effect type parameters are not yet in the reduced surface"@))
            } else {
                match expect_m(t, b, TokenKindM::LBrace, "expected `{` in effect declaration"@) {
                    Err(e) => Err(e),
                    Ok((_, c)) => match ident_m(t, c, "expected operation name"@) {
                        Err(e) => Err(e),
                        Ok((op, d)) => match expect_m(t, d, TokenKindM::LParen, "expected `(` in operation signature"@) {
                            Err(e) => Err(e),
                            Ok((_, f)) => match params_m(t, f) {
                                Err(e) => Err(e),
                                Ok((params, g)) => if params.len() != 1 {
                                    Err(err_at(t, g, "reduced core operation must have exactly one Nat parameter"@))
                                } else {
                                    match expect_m(t, g, TokenKindM::RParen, "expected `)` in operation signature"@) {
                                        Err(e) => Err(e),
                                        Ok((_, h)) => match expect_m(
                                            t,
                                            h,
                                            TokenKindM::Arrow,
                                            "expected `->` in operation signature"@,
                                        ) {
                                            Err(e) => Err(e),
                                            Ok((_, k)) => match ty_m(t, k) {
                                                Err(e) => Err(e),
                                                Ok((ret, m)) => match expect_m(
                                                    t,
                                                    m,
                                                    TokenKindM::RBrace,
                                                    "expected `}` after effect declaration"@,
                                                ) {
                                                    Err(e) => Err(e),
                                                    Ok((end, n)) => Ok(
                                                        (
                                                            EffectDeclM {
                                                                name,
                                                                op,
                                                                param: params[0],
                                                                ret,
                                                                span: joined(start.span, end.span),
                                                            },
                                                            n,
                                                        ),
                                                    ),
                                                },
                                            },
                                        },
                                    }
                                },
                            },
                        },
                    },
                }
            },
        },
    }
}

/// A declaration, with an optional `pub` before a function.
pub open spec fn decl_m(t: Seq<TokenM>, i: int) -> Parsed<DeclM> {
    let public = t[i].kind is Pub;
    let a = if public {
        i + 1
    } else {
        i
    };
    if t[a].kind is Fn {
        match fn_decl_m(t, a, public) {
            Err(e) => Err(e),
            Ok((f, j)) => Ok((DeclM::Fn(f), j)),
        }
    } else if public {
        Err(err_at(t, a, "`pub` may only prefix `fn` in the reduced surface"@))
    } else if t[a].kind is Effect {
        match effect_decl_m(t, a) {
            Err(e) => Err(e),
            Ok((d, j)) => Ok((DeclM::Effect(d), j)),
        }
    } else {
        match unsupported_decl_message(t[a].kind) {
            Some(m) => Err(err_at(t, a, m)),
            None => Err(err_at(t, a, "expected declaration"@)),
        }
    }
}

/// The declarations up to the end of input, after those in `acc`.
pub open spec fn program_m(t: Seq<TokenM>, i: int, acc: Seq<DeclM>) -> Result<Seq<DeclM>, ParseErrorM>
    decreases t.len() - i,
{
    if t[i].kind is Eof {
        Ok(acc)
    } else {
        match decl_m(t, i) {
            Err(e) => Err(e),
            Ok((d, j)) => if moved(t, i, j) {
                program_m(t, j, acc.push(d))
            } else {
                Err(err_at(t, i, Seq::empty()))
            },
        }
    }
}

} // verus!
