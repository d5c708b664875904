//! A recursive-descent parser for the reduced surface.

use vstd::prelude::*;
use vstd::string::StringSliceAdditionalSpecFns;

use crate::surface::ast::{
    boundedness_view, DeclM, ExprKindM, BindingM, CaseArmM, ExprM, HandleClauseM, ParamM, arms_view, block_bindings_view, decl_view, decls_view, effect_decl_view, exprs_view,
    fn_decl_view, handle_clause_view, handle_clauses_view, name_view, params_view, pattern_view,
    BinaryOp, Binding, Boundedness, CaseArm, Decl, EffectDecl, Expr, ExprKind, FnDecl,
    HandleClause, Name, Param, Pattern, PrefixOp, Program, Span, Spanned, TypeExpr,
};
use crate::surface::grammar::{
    args_from_m, args_m, arms_m, block_after_m, block_bindings_m, call_m, call_rest_m, case_after_m, clauses_m,
    fn_effects_m, boundedness_m, fn_body_m, within, block_close_m, case_close_m, handle_close_m, mk, joined, decl_m, effect_decl_m, effect_row_m, expect_m, expr_m, fn_decl_m, handle_after_m,
    handle_clause_m, ident_eq_m, ident_m, labels_m, add_m, add_rest_m, mul_m, mul_rest_m,
    operandless_m, params_from_m, params_m, pattern_m, pipe_m, pipe_rest_m, primary_m, program_m,
    ty_atom_m, ty_m, Parsed, block_m, after_semi,
};
use crate::surface::lexer::{
    kind_index, kind_tag, lex, lex_m, tokens_view, LexError, Token, TokenKind, TokenKindM, TokenM,
};
use crate::text::{owned, str_eq};

verus! {

broadcast use vstd::std_specs::vec::group_vec_axioms, vstd::seq::group_seq_axioms;

#[derive(Debug, Clone, PartialEq, Eq)]
pub struct ParseError {
    pub span: Span,
    pub message: String,
}

/// Model of a parse error.
pub struct ParseErrorM {
    pub span: Span,
    pub message: Seq<char>,
}

impl View for ParseError {
    type V = ParseErrorM;

    open spec fn view(&self) -> ParseErrorM {
        ParseErrorM { span: self.span, message: self.message@ }
    }
}

impl ParseError {
    /// The parse error that reports a lexical error.
    pub fn from_lex(value: LexError) -> (r: Self)
        ensures
            r@ == (ParseErrorM { span: value@.span, message: value@.message }),
    {
        Self { span: value.span, message: value.message }
    }
}

/// The message with which an expression position rejects a construct outside the reduced
/// surface, if the token there starts one.
pub open spec fn unsupported_expr_message(k: TokenKindM) -> Option<Seq<char>> {
    match k {
        TokenKindM::If => Some("if is not yet in the reduced surface; use `case` on Nat"@),
        TokenKindM::Spawn => Some("spawn is not yet in the reduced surface"@),
        TokenKindM::Scope => Some("scope is not yet in the reduced surface"@),
        TokenKindM::LBracket => Some("lists are not yet in the reduced surface"@),
        _ => None,
    }
}

/// The message with which a declaration position rejects a construct outside the reduced
/// surface, if the token there starts one.
pub open spec fn unsupported_decl_message(k: TokenKindM) -> Option<Seq<char>> {
    match k {
        TokenKindM::Type => Some("type declarations are not yet in the reduced surface"@),
        TokenKindM::Use => Some("modules/use are not yet in the reduced surface"@),
        _ => None,
    }
}

/// Tokens as the lexer hands them out: one end-of-input token, at the end.
pub open spec fn token_stream_ok(t: Seq<TokenM>) -> bool {
    &&& t.len() > 0
    &&& t.last().kind is Eof
    &&& forall|i: int| 0 <= i < t.len() - 1 ==> !(#[trigger] t[i].kind is Eof)
}

/// What the lexer hands out is a token stream.
proof fn lemma_lexed_stream(b: Seq<u8>, i: nat)
    ensures
        crate::surface::lexer::lex_from(b, i) is Ok ==> token_stream_ok(
            crate::surface::lexer::lex_from(b, i)->Ok_0,
        ),
    decreases b.len() - i,
{
    if i < b.len() {
        crate::surface::lexer::lemma_step_advances(b, i);
        let j = crate::surface::lexer::lex_step_next(b, i);
        lemma_lexed_stream(b, j);
        match crate::surface::lexer::lex_step(b, i) {
            crate::surface::lexer::LexStep::Emit(kind, j) => {
                if let Ok(rest) = crate::surface::lexer::lex_from(b, j) {
                    let first = TokenM { kind, span: crate::surface::lexer::span_m(i, j) };
                    let all = seq![first] + rest;
                    assert(kind_tag(kind) != 38 || !(kind is Eof));
                    assert forall|k: int| 0 <= k < all.len() - 1 implies !(#[trigger] all[k].kind is Eof) by {
                        if k > 0 {
                            assert(all[k] == rest[k - 1]);
                        } else {
                            lemma_step_kind(b, i);
                        }
                    }
                    assert(all.last() == rest.last());
                }
            },
            _ => {},
        }
    }
}

/// The lexer emits no end-of-input token before the end.
proof fn lemma_step_kind(b: Seq<u8>, i: nat)
    requires
        i < b.len(),
    ensures
        crate::surface::lexer::lex_step(b, i) matches crate::surface::lexer::LexStep::Emit(k, _)
            ==> !(k is Eof),
{
    let c = b[i as int];
    if crate::surface::lexer::is_alpha(c) {
        let e = crate::surface::lexer::ident_end(b, i + 1);
        let text = crate::text::ascii_chars(b.subrange(i as int, e as int));
        assert(!(crate::surface::lexer::keyword_m(text) is Eof));
    }
}

// ---------------------------------------------------------------------------------------
// The parser state.
struct Parser {
    tokens: Vec<Token>,
    idx: usize,
}

/// `r` and the position `idx` after it are the parse `p`, the tree taken by `f`.
pub open spec fn parsed_as<T, V>(r: Result<T, ParseError>, idx: usize, p: Parsed<V>, f: spec_fn(T) -> V) -> bool {
    match p {
        Ok((v, j)) => r matches Ok(x) && f(x) == v && idx == j,
        Err(e) => r matches Err(x) && x@ == e,
    }
}

/// `b` is `a` after zero or more tokens were consumed.
spec fn stepped(a: Parser, b: Parser) -> bool {
    &&& b.wf()
    &&& b.tokens@ == a.tokens@
    &&& a.idx <= b.idx
}

/// `b` is `a` after at least one token was consumed.
spec fn progressed(a: Parser, b: Parser) -> bool {
    stepped(a, b) && a.idx < b.idx
}

impl Parser {
    spec fn wf(&self) -> bool {
        &&& self.idx < self.tokens@.len()
        &&& token_stream_ok(tokens_view(self.tokens@))
    }

    spec fn rest(&self) -> int {
        self.tokens@.len() - self.idx
    }

    spec fn toks(&self) -> Seq<TokenM> {
        tokens_view(self.tokens@)
    }

    spec fn peek_kind(&self) -> TokenKindM {
        self.tokens@[self.idx as int].kind@
    }

    proof fn lemma_not_last(&self)
        requires
            self.wf(),
            !(self.peek_kind() is Eof),
        ensures
            self.idx + 1 < self.tokens@.len(),
    {
        let t = tokens_view(self.tokens@);
        assert(t[self.idx as int] == self.tokens@[self.idx as int]@);
        assert(t.last() == self.tokens@[self.tokens@.len() - 1]@);
    }

    fn peek(&self) -> (r: &Token)
        requires
            self.wf(),
        ensures
            *r == self.tokens@[self.idx as int],
    {
        &self.tokens[self.idx]
    }

    fn previous(&self) -> (r: &Token)
        requires
            self.wf(),
            self.idx > 0,
        ensures
            *r == self.tokens@[self.idx - 1],
    {
        &self.tokens[self.idx - 1]
    }

    /// The current token; moves past it unless it is the end of input.
    fn advance(&mut self) -> (r: Token)
        requires
            old(self).wf(),
        ensures
            stepped(*old(self), *final(self)),
            r@ == old(self).tokens@[old(self).idx as int]@,
            !(r@.kind is Eof) ==> final(self).idx == old(self).idx + 1,
    {
        let tok = self.tokens[self.idx].duplicate();
        if self.idx < self.tokens.len() - 1 {
            self.idx = self.idx + 1;
        } else {
            proof {
                assert(tokens_view(self.tokens@)[self.idx as int] == self.tokens@[self.idx as int]@);
                assert(tokens_view(self.tokens@).last() == self.tokens@[self.idx as int]@);
            }
        }
        tok
    }

    /// Whether the current token has the variant of `kind`.
    fn at(&self, kind: &TokenKind) -> (r: bool)
        requires
            self.wf(),
        ensures
            r == (kind_tag(self.peek_kind()) == kind_tag(kind@)),
    {
        kind_index(&self.tokens[self.idx].kind) == kind_index(kind)
    }

    /// Consumes the current token if it has the variant of `kind`.
    fn eat(&mut self, kind: &TokenKind) -> (r: Option<Token>)
        requires
            old(self).wf(),
            !(kind@ is Eof),
        ensures
            stepped(*old(self), *final(self)),
            r is Some <==> kind_tag(old(self).peek_kind()) == kind_tag(kind@),
            r is Some ==> final(self).idx == old(self).idx + 1 && r->0@ == old(self).tokens@[old(
                self,
            ).idx as int]@,
            r is None ==> final(self).idx == old(self).idx,
    {
        if self.at(kind) {
            proof {
                if self.peek_kind() is Eof {
                    assert(kind_tag(kind@) == 38);
                }
            }
            Some(self.advance())
        } else {
            None
        }
    }

    fn error_here(&self, message: &str) -> (r: ParseError)
        requires
            self.wf(),
        ensures
            r@ == (ParseErrorM { span: self.tokens@[self.idx as int].span, message: message@ }),
    {
        ParseError { span: self.peek().span, message: owned(message) }
    }

    fn error_previous(&self, message: &str) -> (r: ParseError)
        requires
            self.wf(),
            self.idx > 0,
        ensures
            r@ == (ParseErrorM { span: self.tokens@[self.idx - 1].span, message: message@ }),
    {
        ParseError { span: self.previous().span, message: owned(message) }
    }

    /// Consumes a token of the variant of `kind`, or fails with `message` at the current one.
    fn expect(&mut self, kind: &TokenKind, message: &str) -> (r: Result<Token, ParseError>)
        requires
            old(self).wf(),
            !(kind@ is Eof),
        ensures
            stepped(*old(self), *final(self)),
            r is Ok ==> final(self).idx == old(self).idx + 1,
            r is Ok <==> kind_tag(old(self).peek_kind()) == kind_tag(kind@),
            parsed_as(r, final(self).idx, expect_m(old(self).toks(), old(self).idx as int, kind@, message@), |x: Token| x@),
    {
        proof {
            assert(old(self).toks()[old(self).idx as int] == old(self).tokens@[old(self).idx as int]@);
        }
        match self.eat(kind) {
            Some(tok) => Ok(tok),
            None => Err(self.error_here(message)),
        }
    }

    /// Consumes an identifier, or fails with `message` at the token found.
    fn expect_ident(&mut self, message: &str) -> (r: Result<Spanned<Name>, ParseError>)
        requires
            old(self).wf(),
        ensures
            stepped(*old(self), *final(self)),
            r is Ok ==> final(self).idx == old(self).idx + 1,
            r is Ok <==> old(self).peek_kind() is Ident,
            parsed_as(r, final(self).idx, ident_m(old(self).toks(), old(self).idx as int, message@), |x: Spanned<Name>| name_view(x)),
    {
        proof {
            assert(old(self).toks()[old(self).idx as int] == old(self).tokens@[old(self).idx as int]@);
        }
        let tok = self.advance();
        match tok.kind {
            TokenKind::Ident(name) => Ok(Spanned::new(name, tok.span)),
            _ => Err(ParseError { span: tok.span, message: owned(message) }),
        }
    }

    /// Whether the current token is an identifier followed by `=`.
    fn is_ident_eq(&self) -> (r: bool)
        requires
            self.wf(),
        ensures
            r ==> self.peek_kind() is Ident,
            r == ident_eq_m(self.toks(), self.idx as int),
    {
        proof {
            assert(self.toks()[self.idx as int] == self.tokens@[self.idx as int]@);
            if self.idx + 1 < self.tokens@.len() {
                assert(self.toks()[self.idx + 1] == self.tokens@[self.idx + 1]@);
            }
        }
        let is_ident = match &self.tokens[self.idx].kind {
            TokenKind::Ident(_) => true,
            _ => false,
        };
        if !is_ident || self.idx >= self.tokens.len() - 1 {
            return false;
        }
        match &self.tokens[self.idx + 1].kind {
            TokenKind::Eq => true,
            _ => false,
        }
    }

    fn reject_unsupported_expr(&self) -> (r: Result<(), ParseError>)
        requires
            self.wf(),
        ensures
            match unsupported_expr_message(self.peek_kind()) {
                Some(m) => r matches Err(e) && e@ == (ParseErrorM {
                    span: self.tokens@[self.idx as int].span,
                    message: m,
                }),
                None => r is Ok,
            },
    {
        let message = match &self.peek().kind {
            TokenKind::If => Some("if is not yet in the reduced surface; use `case` on Nat"),
            TokenKind::Spawn => Some("spawn is not yet in the reduced surface"),
            TokenKind::Scope => Some("scope is not yet in the reduced surface"),
            TokenKind::LBracket => Some("lists are not yet in the reduced surface"),
            _ => None,
        };
        match message {
            Some(m) => Err(self.error_here(m)),
            None => Ok(()),
        }
    }

    fn reject_unsupported_decl(&self) -> (r: Result<(), ParseError>)
        requires
            self.wf(),
        ensures
            match unsupported_decl_message(self.peek_kind()) {
                Some(m) => r matches Err(e) && e@ == (ParseErrorM {
                    span: self.tokens@[self.idx as int].span,
                    message: m,
                }),
                None => r is Ok,
            },
    {
        let message = match &self.peek().kind {
            TokenKind::Type => Some("type declarations are not yet in the reduced surface"),
            TokenKind::Use => Some("modules/use are not yet in the reduced surface"),
            _ => None,
        };
        match message {
            Some(m) => Err(self.error_here(m)),
            None => Ok(()),
        }
    }
}


impl Parser {
    fn program(&mut self) -> (r: Result<Program, ParseError>)
        requires
            old(self).wf(),
        ensures
            stepped(*old(self), *final(self)),
            match unsupported_decl_message(old(self).peek_kind()) {
                Some(m) => r matches Err(e) && e@ == (ParseErrorM {
                    span: old(self).tokens@[old(self).idx as int].span,
                    message: m,
                }),
                None => true,
            },
            match program_m(old(self).toks(), old(self).idx as int, Seq::empty()) {
                Ok(ds) => r matches Ok(p) && decls_view(p.decls@) == ds,
                Err(e) => r matches Err(x) && x@ == e,
            },
    {
        let ghost t = old(self).toks();
        let mut decls: Vec<Decl> = Vec::new();
        proof {
            assert(decls_view(decls@) =~= Seq::<DeclM>::empty());
        }
        while !self.at(&TokenKind::Eof)
            invariant
                stepped(*old(self), *self),
                unsupported_decl_message(old(self).peek_kind()) is Some ==> self.idx == old(
                    self,
                ).idx,
                t == old(self).toks(),
                program_m(t, old(self).idx as int, Seq::empty()) == program_m(t, self.idx as int, decls_view(decls@)),
            decreases self.rest(),
        {
            proof {
                assert(t[self.idx as int] == self.tokens@[self.idx as int]@);
            }
            let ghost prev = decls@;
            let decl = self.decl();
            match decl {
                Ok(d) => {
                    let ghost dv = decl_view(d);
                    decls.push(d);
                    proof {
                        assert(decls_view(decls@) =~= decls_view(prev).push(dv));
                    }
                },
                Err(e) => {
                    return Err(e);
                },
            }
        }
        proof {
            assert(t[self.idx as int] == self.tokens@[self.idx as int]@);
        }
        Ok(Program { decls })
    }

    fn decl(&mut self) -> (r: Result<Decl, ParseError>)
        requires
            old(self).wf(),
        ensures
            stepped(*old(self), *final(self)),
            r is Ok ==> progressed(*old(self), *final(self)),
            match unsupported_decl_message(old(self).peek_kind()) {
                Some(m) => r matches Err(e) && e@ == (ParseErrorM {
                    span: old(self).tokens@[old(self).idx as int].span,
                    message: m,
                }),
                None => true,
            },
            parsed_as(r, final(self).idx, decl_m(old(self).toks(), old(self).idx as int), |x: Decl| decl_view(x)),
    {
        proof {
            assert(old(self).toks()[old(self).idx as int] == old(self).tokens@[old(self).idx as int]@);
            if old(self).idx + 1 < old(self).tokens@.len() {
                assert(old(self).toks()[old(self).idx + 1] == old(self).tokens@[old(self).idx + 1]@);
            }
        }
        let public = self.eat(&TokenKind::Pub).is_some();
        if self.at(&TokenKind::Fn) {
            return match self.fn_decl(public) {
                Ok(f) => Ok(Decl::Fn(f)),
                Err(e) => Err(e),
            };
        }
        if public {
            return Err(self.error_here("`pub` may only prefix `fn` in the reduced surface"));
        }
        if self.at(&TokenKind::Effect) {
            return match self.effect_decl() {
                Ok(d) => Ok(Decl::Effect(d)),
                Err(e) => Err(e),
            };
        }
        self.reject_unsupported_decl()?;
        Err(self.error_here("expected declaration"))
    }

    fn fn_decl(&mut self, public: bool) -> (r: Result<FnDecl, ParseError>)
        requires
            old(self).wf(),
        ensures
            stepped(*old(self), *final(self)),
            r is Ok ==> progressed(*old(self), *final(self)),
            parsed_as(r, final(self).idx, fn_decl_m(old(self).toks(), old(self).idx as int, public), |x: FnDecl| fn_decl_view(x)),
    {
        let ghost t = old(self).toks();
        let start = self.expect(&TokenKind::Fn, "expected `fn`")?.span;
        let name = self.expect_ident("expected function name")?;
        if self.eat(&TokenKind::LBracket).is_some() {
            return Err(self.error_previous("type parameters are not yet in the reduced surface"));
        }
        self.expect(&TokenKind::LParen, "expected `(` after function name")?;
        let params = self.params()?;
        self.expect(&TokenKind::RParen, "expected `)` after parameters")?;
        self.expect(&TokenKind::Arrow, "expected `->` before return type")?;
        let ret = self.ty()?;
        let effects = self.fn_effects()?;
        let boundedness = self.boundedness()?;
        let body = self.fn_body()?;
        let span = start.join(body.span);
        Ok(FnDecl { public, name, params, ret, effects, boundedness, body, span })
    }

    /// An optional `! row`: the span of the `!`.
    fn fn_effects(&mut self) -> (r: Result<Option<Span>, ParseError>)
        requires
            old(self).wf(),
        ensures
            stepped(*old(self), *final(self)),
            parsed_as(r, final(self).idx, fn_effects_m(old(self).toks(), old(self).idx as int), |x: Option<Span>| x),
    {
        proof {
            assert(old(self).toks()[old(self).idx as int] == old(self).tokens@[old(self).idx as int]@);
        }
        if self.eat(&TokenKind::Bang).is_some() {
            let bang = self.previous().span;
            self.effect_row()?;
            Ok(Some(bang))
        } else {
            Ok(None)
        }
    }

    /// An optional `measure expr` or `div`.
    fn boundedness(&mut self) -> (r: Result<Boundedness, ParseError>)
        requires
            old(self).wf(),
        ensures
            stepped(*old(self), *final(self)),
            parsed_as(r, final(self).idx, boundedness_m(old(self).toks(), old(self).idx as int), |x: Boundedness| boundedness_view(x)),
    {
        proof {
            assert(old(self).toks()[old(self).idx as int] == old(self).tokens@[old(self).idx as int]@);
        }
        if self.eat(&TokenKind::Measure).is_some() {
            Ok(Boundedness::Measure(self.expr()?))
        } else {
            match self.eat(&TokenKind::Div) {
                Some(tok) => Ok(Boundedness::Div(tok.span)),
                None => Ok(Boundedness::StructuralDescent),
            }
        }
    }

    /// `= expr` or a block.
    fn fn_body(&mut self) -> (r: Result<Expr, ParseError>)
        requires
            old(self).wf(),
        ensures
            stepped(*old(self), *final(self)),
            r is Ok ==> progressed(*old(self), *final(self)),
            parsed_as(r, final(self).idx, fn_body_m(old(self).toks(), old(self).idx as int), |x: Expr| x@),
    {
        proof {
            assert(old(self).toks()[old(self).idx as int] == old(self).tokens@[old(self).idx as int]@);
        }
        if self.eat(&TokenKind::Eq).is_some() {
            self.expr()
        } else if self.at(&TokenKind::LBrace) {
            self.block()
        } else {
            Err(self.error_here("expected `=` expression or block body"))
        }
    }

    #[verifier::rlimit(40)]
    fn effect_decl(&mut self) -> (r: Result<EffectDecl, ParseError>)
        requires
            old(self).wf(),
        ensures
            stepped(*old(self), *final(self)),
            r is Ok ==> progressed(*old(self), *final(self)),
            parsed_as(r, final(self).idx, effect_decl_m(old(self).toks(), old(self).idx as int), |x: EffectDecl| effect_decl_view(x)),
    {
        let ghost t = old(self).toks();
        let start = self.expect(&TokenKind::Effect, "expected `effect`")?.span;
        let name = self.expect_ident("expected effect name")?;
        if self.eat(&TokenKind::LBracket).is_some() {
            return Err(
                self.error_previous("effect type parameters are not yet in the reduced surface"),
            );
        }
        self.expect(&TokenKind::LBrace, "expected `{` in effect declaration")?;
        let op = self.expect_ident("expected operation name")?;
        self.expect(&TokenKind::LParen, "expected `(` in operation signature")?;
        let mut params = self.params()?;
        if params.len() != 1 {
            return Err(self.error_here("reduced core operation must have exactly one Nat parameter"));
        }
        let param = params.remove(0);
        self.expect(&TokenKind::RParen, "expected `)` in operation signature")?;
        self.expect(&TokenKind::Arrow, "expected `->` in operation signature")?;
        let ret = self.ty()?;
        let end = self.expect(&TokenKind::RBrace, "expected `}` after effect declaration")?.span;
        Ok(EffectDecl { name, op, param, ret, span: start.join(end) })
    }

    fn params(&mut self) -> (r: Result<Vec<Param>, ParseError>)
        requires
            old(self).wf(),
        ensures
            stepped(*old(self), *final(self)),
            parsed_as(r, final(self).idx, params_m(old(self).toks(), old(self).idx as int), |x: Vec<Param>| params_view(x@)),
    {
        let ghost t = old(self).toks();
        proof {
            assert(t[old(self).idx as int] == old(self).tokens@[old(self).idx as int]@);
        }
        let mut params: Vec<Param> = Vec::new();
        if self.at(&TokenKind::RParen) {
            proof {
                assert(params_view(params@) =~= Seq::<ParamM>::empty());
            }
            return Ok(params);
        }
        proof {
            assert(params_view(params@) =~= Seq::<ParamM>::empty());
        }
        loop
            invariant_except_break
                params_m(t, old(self).idx as int) == params_from_m(t, self.idx as int, params_view(params@)),
            invariant
                stepped(*old(self), *self),
                t == old(self).toks(),
            ensures
                params_m(t, old(self).idx as int) == Ok::<(Seq<ParamM>, int), ParseErrorM>((params_view(params@), self.idx as int)),
            decreases self.rest(),
        {
            let ghost i = self.idx as int;
            let ghost acc = params_view(params@);
            let name = self.expect_ident("expected parameter name")?;
            self.expect(&TokenKind::Colon, "expected `:` after parameter name")?;
            let ty = self.ty()?;
            let ghost c = self.idx as int;
            params.push(Param { name, ty });
            proof {
                assert(params_view(params@) =~= acc.push(ParamM { name: name_view(name), ty }));
                assert(t[c] == self.tokens@[c]@);
            }
            if self.eat(&TokenKind::Comma).is_none() {
                break;
            }
        }
        Ok(params)
    }

    fn ty(&mut self) -> (r: Result<TypeExpr, ParseError>)
        requires
            old(self).wf(),
        ensures
            stepped(*old(self), *final(self)),
            r is Ok ==> progressed(*old(self), *final(self)),
            parsed_as(r, final(self).idx, ty_m(old(self).toks(), old(self).idx as int), |x: TypeExpr| x),
        decreases old(self).rest(), 1nat,
    {
        if let Some(caret) = self.eat(&TokenKind::Caret) {
            let inner = self.ty_atom()?;
            let span = caret.span.join(inner.span());
            let unique = TypeExpr::Unique(Box::new(inner), span);
            if self.eat(&TokenKind::Arrow).is_some() {
                let right = self.ty()?;
                let span = unique.span().join(right.span());
                return Ok(TypeExpr::Arrow(Box::new(unique), Box::new(right), span));
            }
            return Ok(unique);
        }
        let left = self.ty_atom()?;
        if self.eat(&TokenKind::Arrow).is_some() {
            let right = self.ty()?;
            let span = left.span().join(right.span());
            Ok(TypeExpr::Arrow(Box::new(left), Box::new(right), span))
        } else {
            Ok(left)
        }
    }

    fn ty_atom(&mut self) -> (r: Result<TypeExpr, ParseError>)
        requires
            old(self).wf(),
        ensures
            stepped(*old(self), *final(self)),
            r is Ok ==> progressed(*old(self), *final(self)),
            parsed_as(r, final(self).idx, ty_atom_m(old(self).toks(), old(self).idx as int), |x: TypeExpr| x),
        decreases old(self).rest(), 0nat,
    {
        proof {
            assert(old(self).toks()[old(self).idx as int] == old(self).tokens@[old(self).idx as int]@);
            if old(self).idx + 1 < old(self).tokens@.len() {
                assert(old(self).toks()[old(self).idx + 1] == old(self).tokens@[old(self).idx + 1]@);
            }
        }
        let tok = self.advance();
        match tok.kind {
            TokenKind::Ident(name) => {
                if str_eq(name.as_str(), "Unit") {
                    Ok(TypeExpr::Unit(tok.span))
                } else if str_eq(name.as_str(), "Nat") {
                    Ok(TypeExpr::Nat(tok.span))
                } else if str_eq(name.as_str(), "Array") {
                    Ok(TypeExpr::Array(tok.span))
                } else {
                    Err(ParseError { span: tok.span, message: owned("expected type") })
                }
            },
            TokenKind::LParen => {
                if self.eat(&TokenKind::RParen).is_some() {
                    Ok(TypeExpr::Unit(tok.span.join(self.previous().span)))
                } else {
                    let inner = self.ty()?;
                    self.expect(&TokenKind::RParen, "expected `)` after type")?;
                    Ok(inner)
                }
            },
            _ => Err(ParseError { span: tok.span, message: owned("expected type") }),
        }
    }

    fn effect_row(&mut self) -> (r: Result<(), ParseError>)
        requires
            old(self).wf(),
        ensures
            stepped(*old(self), *final(self)),
            parsed_as(r, final(self).idx, effect_row_m(old(self).toks(), old(self).idx as int), |x: ()| x),
    {
        let ghost t = old(self).toks();
        proof {
            assert(t[old(self).idx as int] == old(self).tokens@[old(self).idx as int]@);
        }
        if self.eat(&TokenKind::LBrace).is_some() {
            self.expect_ident("expected effect label")?;
            while self.eat(&TokenKind::Comma).is_some()
                invariant
                    stepped(*old(self), *self),
                    t == old(self).toks(),
                    effect_row_m(t, old(self).idx as int) == labels_m(t, self.idx as int),
                decreases self.rest(),
            {
                let ghost i = self.idx - 1;
                proof {
                    assert(t[i] == self.tokens@[i]@);
                }
                self.expect_ident("expected effect label after `,`")?;
            }
            proof {
                assert(t[self.idx as int] == self.tokens@[self.idx as int]@);
            }
            self.expect(&TokenKind::RBrace, "expected `}` after effect row")?;
            Ok(())
        } else {
            let grade = self.expect_ident("expected effect row after `!`")?;
            Err(
                ParseError {
                    span: grade.span,
                    message: owned("effect-row variables are not yet in the reduced surface"),
                },
            )
        }
    }
}


impl Parser {
    fn expr(&mut self) -> (r: Result<Expr, ParseError>)
        requires
            old(self).wf(),
        ensures
            stepped(*old(self), *final(self)),
            r is Ok ==> progressed(*old(self), *final(self)),
            unsupported_expr_message(old(self).peek_kind()) is Some ==> r is Err,
            parsed_as(r, final(self).idx, expr_m(old(self).toks(), old(self).idx as int), |x: Expr| x@),
        decreases old(self).rest(), 6nat,
    {
        self.pipe_expr()
    }

    #[verifier::rlimit(30)]
    fn pipe_expr(&mut self) -> (r: Result<Expr, ParseError>)
        requires
            old(self).wf(),
        ensures
            stepped(*old(self), *final(self)),
            r is Ok ==> progressed(*old(self), *final(self)),
            unsupported_expr_message(old(self).peek_kind()) is Some ==> r is Err,
            parsed_as(r, final(self).idx, pipe_m(old(self).toks(), old(self).idx as int), |x: Expr| x@),
        decreases old(self).rest(), 5nat,
    {
        let ghost t = old(self).toks();
        let mut lhs = self.add_expr()?;
        while self.eat(&TokenKind::PipeGt).is_some()
            invariant
                progressed(*old(self), *self),
                t == old(self).toks(),
                pipe_m(t, old(self).idx as int) == pipe_rest_m(t, self.idx as int, lhs@),
            decreases self.rest(),
        {
            let ghost i = self.idx - 1;
            let ghost l0 = lhs@;
            proof {
                assert(t[i] == self.tokens@[i]@);
            }
            match self.operandless_pipe_prefix() {
                Some(op) => {
                    let tok = self.advance();
                    let span = lhs.span.join(tok.span);
                    lhs = Expr::new(ExprKind::Prefix { op, expr: Box::new(lhs) }, span);
                    proof {
                        assert(t[i + 1] == self.tokens@[i + 1]@);
                        assert(lhs@ == mk(ExprKindM::Prefix { op, expr: Box::new(l0) }, joined(l0.span, t[i + 1].span)));
                        assert(pipe_rest_m(t, i, l0) == pipe_rest_m(t, i + 2, lhs@));
                    }
                },
                None => {
                    let rhs = self.add_expr()?;
                    let ghost rv = rhs@;
                    let span = lhs.span.join(rhs.span);
                    lhs = Expr::new(ExprKind::Pipe { lhs: Box::new(lhs), rhs: Box::new(rhs) }, span);
                    proof {
                        assert(lhs@ == mk(ExprKindM::Pipe { lhs: Box::new(l0), rhs: Box::new(rv) }, joined(l0.span, rv.span)));
                        assert(pipe_rest_m(t, i, l0) == pipe_rest_m(t, self.idx as int, lhs@));
                    }
                },
            }
        }
        proof {
            assert(t[self.idx as int] == self.tokens@[self.idx as int]@);
        }
        Ok(lhs)
    }

    /// `x |> move` and `x |> freeze` apply the prefix to the piped value when nothing that
    /// could be its operand follows.
    fn operandless_pipe_prefix(&self) -> (r: Option<PrefixOp>)
        requires
            self.wf(),
        ensures
            r is Some ==> (self.peek_kind() is Move || self.peek_kind() is Freeze),
            r == operandless_m(self.toks(), self.idx as int),
    {
        proof {
            assert(self.toks()[self.idx as int] == self.tokens@[self.idx as int]@);
            if self.idx + 1 < self.tokens@.len() {
                assert(self.toks()[self.idx + 1] == self.tokens@[self.idx + 1]@);
            }
        }
        let op = match &self.peek().kind {
            TokenKind::Move => PrefixOp::Move,
            TokenKind::Freeze => PrefixOp::Freeze,
            _ => {
                return None;
            },
        };
        if self.idx >= self.tokens.len() - 1 {
            return Some(op);
        }
        match &self.tokens[self.idx + 1].kind {
            TokenKind::PipeGt | TokenKind::RBrace | TokenKind::Semi | TokenKind::Eof => Some(op),
            _ => None,
        }
    }

    fn add_expr(&mut self) -> (r: Result<Expr, ParseError>)
        requires
            old(self).wf(),
        ensures
            stepped(*old(self), *final(self)),
            r is Ok ==> progressed(*old(self), *final(self)),
            unsupported_expr_message(old(self).peek_kind()) is Some ==> r is Err,
            parsed_as(r, final(self).idx, add_m(old(self).toks(), old(self).idx as int), |x: Expr| x@),
        decreases old(self).rest(), 4nat,
    {
        let ghost t = old(self).toks();
        let mut lhs = self.mul_expr()?;
        loop
            invariant
                progressed(*old(self), *self),
                unsupported_expr_message(old(self).peek_kind()) is None,
                t == old(self).toks(),
                add_m(t, old(self).idx as int) == add_rest_m(t, self.idx as int, lhs@),
            decreases self.rest(),
        {
            proof {
                assert(t[self.idx as int] == self.tokens@[self.idx as int]@);
            }
            let op = if self.eat(&TokenKind::Plus).is_some() {
                BinaryOp::Add
            } else if self.eat(&TokenKind::Minus).is_some() {
                BinaryOp::Sub
            } else {
                return Ok(lhs);
            };
            let rhs = self.mul_expr()?;
            let span = lhs.span.join(rhs.span);
            lhs = Expr::new(ExprKind::Binary { op, lhs: Box::new(lhs), rhs: Box::new(rhs) }, span);
        }
    }

    fn mul_expr(&mut self) -> (r: Result<Expr, ParseError>)
        requires
            old(self).wf(),
        ensures
            stepped(*old(self), *final(self)),
            r is Ok ==> progressed(*old(self), *final(self)),
            unsupported_expr_message(old(self).peek_kind()) is Some ==> r is Err,
            parsed_as(r, final(self).idx, mul_m(old(self).toks(), old(self).idx as int), |x: Expr| x@),
        decreases old(self).rest(), 3nat,
    {
        let ghost t = old(self).toks();
        let mut lhs = self.call_expr()?;
        while self.eat(&TokenKind::Star).is_some()
            invariant
                progressed(*old(self), *self),
                t == old(self).toks(),
                mul_m(t, old(self).idx as int) == mul_rest_m(t, self.idx as int, lhs@),
            decreases self.rest(),
        {
            proof {
                assert(t[self.idx - 1] == self.tokens@[self.idx - 1]@);
            }
            let rhs = self.call_expr()?;
            let span = lhs.span.join(rhs.span);
            lhs = Expr::new(
                ExprKind::Binary { op: BinaryOp::Mul, lhs: Box::new(lhs), rhs: Box::new(rhs) },
                span,
            );
        }
        proof {
            assert(t[self.idx as int] == self.tokens@[self.idx as int]@);
        }
        Ok(lhs)
    }

    fn call_expr(&mut self) -> (r: Result<Expr, ParseError>)
        requires
            old(self).wf(),
        ensures
            stepped(*old(self), *final(self)),
            r is Ok ==> progressed(*old(self), *final(self)),
            unsupported_expr_message(old(self).peek_kind()) is Some ==> r is Err,
            parsed_as(r, final(self).idx, call_m(old(self).toks(), old(self).idx as int), |x: Expr| x@),
        decreases old(self).rest(), 2nat,
    {
        let ghost t = old(self).toks();
        let mut expr = self.primary()?;
        loop
            invariant
                progressed(*old(self), *self),
                unsupported_expr_message(old(self).peek_kind()) is None,
                t == old(self).toks(),
                call_m(t, old(self).idx as int) == call_rest_m(t, self.idx as int, expr@),
            decreases self.rest(),
        {
            proof {
                assert(t[self.idx as int] == self.tokens@[self.idx as int]@);
            }
            if self.eat(&TokenKind::Dot).is_some() {
                let field = self.expect_ident("expected field or operation name after `.`")?;
                self.expect(&TokenKind::LParen, "expected `(` after operation name")?;
                let args = self.args()?;
                let rparen = self.expect(&TokenKind::RParen, "expected `)` after arguments")?;
                let head_span = expr.span;
                let effect = match expr.kind {
                    ExprKind::Var(name) => name,
                    _ => {
                        return Err(
                            ParseError {
                                span: head_span,
                                message: owned("effect calls must be written as `Effect.op(...)`"),
                            },
                        );
                    },
                };
                let span = head_span.join(rparen.span);
                expr = Expr::new(ExprKind::QualifiedCall { effect, op: field.node, args }, span);
            } else if self.eat(&TokenKind::LParen).is_some() {
                let args = self.args()?;
                let rparen = self.expect(&TokenKind::RParen, "expected `)` after arguments")?;
                let span = expr.span.join(rparen.span);
                expr = Expr::new(ExprKind::Call { callee: Box::new(expr), args }, span);
            } else {
                return Ok(expr);
            }
        }
    }

    fn args(&mut self) -> (r: Result<Vec<Expr>, ParseError>)
        requires
            old(self).wf(),
        ensures
            stepped(*old(self), *final(self)),
            parsed_as(r, final(self).idx, args_m(old(self).toks(), old(self).idx as int), |x: Vec<Expr>| exprs_view(x@)),
        decreases old(self).rest(), 7nat,
    {
        let ghost t = old(self).toks();
        proof {
            assert(t[old(self).idx as int] == old(self).tokens@[old(self).idx as int]@);
        }
        let mut args: Vec<Expr> = Vec::new();
        proof {
            assert(exprs_view(args@) =~= Seq::<ExprM>::empty());
        }
        if self.at(&TokenKind::RParen) {
            return Ok(args);
        }
        loop
            invariant_except_break
                args_m(t, old(self).idx as int) == args_from_m(t, self.idx as int, exprs_view(args@)),
            invariant
                stepped(*old(self), *self),
                t == old(self).toks(),
            ensures
                args_m(t, old(self).idx as int) == Ok::<(Seq<ExprM>, int), ParseErrorM>((exprs_view(args@), self.idx as int)),
            decreases self.rest(),
        {
            let ghost acc = exprs_view(args@);
            let ghost prev = args@;
            let e = self.expr()?;
            let ghost ev = e@;
            args.push(e);
            proof {
                assert(args@.drop_last() =~= prev);
                assert(exprs_view(args@) =~= acc.push(ev));
                assert(t[self.idx as int] == self.tokens@[self.idx as int]@);
            }
            if self.eat(&TokenKind::Comma).is_none() {
                break;
            }
        }
        Ok(args)
    }

    /// An atom; a construct outside the reduced surface is reported where it starts.
    fn primary(&mut self) -> (r: Result<Expr, ParseError>)
        requires
            old(self).wf(),
        ensures
            stepped(*old(self), *final(self)),
            r is Ok ==> progressed(*old(self), *final(self)),
            match unsupported_expr_message(old(self).peek_kind()) {
                Some(m) => r matches Err(e) && e@ == (ParseErrorM {
                    span: old(self).tokens@[old(self).idx as int].span,
                    message: m,
                }),
                None => true,
            },
            parsed_as(r, final(self).idx, primary_m(old(self).toks(), old(self).idx as int), |x: Expr| x@),
        decreases old(self).rest(), 1nat,
    {
        let ghost t = old(self).toks();
        proof {
            assert(t[old(self).idx as int] == old(self).tokens@[old(self).idx as int]@);
            if old(self).idx + 1 < old(self).tokens@.len() {
                assert(t[old(self).idx + 1] == old(self).tokens@[old(self).idx + 1]@);
            }
        }
        self.reject_unsupported_expr()?;
        let tok = self.advance();
        match tok.kind {
            TokenKind::Move | TokenKind::Inplace | TokenKind::Freeze => {
                let op = match tok.kind {
                    TokenKind::Move => PrefixOp::Move,
                    TokenKind::Inplace => PrefixOp::Inplace,
                    _ => PrefixOp::Freeze,
                };
                let expr = self.call_expr()?;
                let span = tok.span.join(expr.span);
                Ok(Expr::new(ExprKind::Prefix { op, expr: Box::new(expr) }, span))
            },
            TokenKind::Number(value) => Ok(Expr::new(ExprKind::Nat(value), tok.span)),
            TokenKind::Ident(name) => Ok(Expr::new(ExprKind::Var(name), tok.span)),
            TokenKind::Underscore => Ok(Expr::new(ExprKind::Var(owned("_")), tok.span)),
            TokenKind::LParen => {
                if self.eat(&TokenKind::RParen).is_some() {
                    Ok(Expr::new(ExprKind::Unit, tok.span.join(self.previous().span)))
                } else {
                    let inner = self.expr()?;
                    let end = self.expect(&TokenKind::RParen, "expected `)` after expression")?.span;
                    Ok(Expr::new(inner.kind, tok.span.join(end)))
                }
            },
            TokenKind::LBrace => self.block_after_lbrace(tok.span),
            TokenKind::Case => self.case_after_keyword(tok.span),
            TokenKind::Handle => self.handle_after_keyword(tok.span),
            _ => Err(ParseError { span: tok.span, message: owned("expected expression") }),
        }
    }

    fn block(&mut self) -> (r: Result<Expr, ParseError>)
        requires
            old(self).wf(),
        ensures
            stepped(*old(self), *final(self)),
            r is Ok ==> progressed(*old(self), *final(self)),
            parsed_as(r, final(self).idx, block_m(old(self).toks(), old(self).idx as int), |x: Expr| x@),
    {
        let start = self.expect(&TokenKind::LBrace, "expected `{`")?.span;
        self.block_after_lbrace(start)
    }

    fn block_after_lbrace(&mut self, start: Span) -> (r: Result<Expr, ParseError>)
        requires
            old(self).wf(),
        ensures
            stepped(*old(self), *final(self)),
            r is Ok ==> progressed(*old(self), *final(self)),
            parsed_as(r, final(self).idx, block_after_m(old(self).toks(), old(self).idx as int, start), |x: Expr| x@),
        decreases old(self).rest(), 8nat,
    {
        let ghost t = old(self).toks();
        let first = self.idx;
        let mut bindings: Vec<Binding> = Vec::new();
        proof {
            assert(block_bindings_view(bindings@) =~= Seq::<BindingM>::empty());
        }
        while !self.at(&TokenKind::RBrace) && self.is_ident_eq()
            invariant
                stepped(*old(self), *self),
                t == old(self).toks(),
                first == old(self).idx,
                block_after_m(t, old(self).idx as int, start) == block_close_m(
                    t,
                    old(self).idx as int,
                    block_bindings_m(t, self.idx as int, block_bindings_view(bindings@)),
                    start,
                ),
            decreases self.rest(),
        {
            let ghost acc = block_bindings_view(bindings@);
            let ghost prev = bindings@;
            proof {
                assert(t[self.idx as int] == self.tokens@[self.idx as int]@);
            }
            let name = self.expect_ident("expected binding name")?;
            self.expect(&TokenKind::Eq, "expected `=` in block binding")?;
            let expr = self.expr()?;
            let span = name.span.join(expr.span);
            let ghost b = Binding { name, expr, span };
            bindings.push(Binding { name, expr, span });
            proof {
                assert(bindings@.drop_last() =~= prev);
                assert(block_bindings_view(bindings@) =~= acc.push(crate::surface::ast::binding_view(b)));
                assert(t[self.idx as int] == self.tokens@[self.idx as int]@);
            }
            self.eat(&TokenKind::Semi);
        }
        proof {
            assert(t[self.idx as int] == self.tokens@[self.idx as int]@);
        }
        self.block_rest(first, bindings, start)
    }

    /// The optional result and the `}` of a block that started at `first`, after its
    /// `bindings`.
    fn block_rest(&mut self, first: usize, bindings: Vec<Binding>, start: Span) -> (r: Result<Expr, ParseError>)
        requires
            old(self).wf(),
            first <= old(self).idx,
            !(kind_tag(old(self).peek_kind()) != kind_tag(TokenKindM::RBrace) && ident_eq_m(old(self).toks(), old(self).idx as int)),
        ensures
            stepped(*old(self), *final(self)),
            r is Ok ==> progressed(*old(self), *final(self)),
            parsed_as(
                r,
                final(self).idx,
                block_close_m(
                    old(self).toks(),
                    first as int,
                    block_bindings_m(old(self).toks(), old(self).idx as int, block_bindings_view(bindings@)),
                    start,
                ),
                |x: Expr| x@,
            ),
        decreases old(self).rest(), 7nat,
    {
        let ghost t = old(self).toks();
        let ghost j = self.idx as int;
        let ghost bv = block_bindings_view(bindings@);
        proof {
            assert(t[j] == self.tokens@[j]@);
            assert(block_bindings_m(t, j, bv) == Ok::<(Seq<BindingM>, int), ParseErrorM>((bv, j)));
        }
        let result = if self.at(&TokenKind::RBrace) {
            Expr::new(ExprKind::Unit, self.peek().span)
        } else {
            let e = self.expr()?;
            proof {
                assert(t[self.idx as int] == self.tokens@[self.idx as int]@);
            }
            self.eat(&TokenKind::Semi);
            e
        };
        let ghost k = self.idx as int;
        let ghost res: Parsed<ExprM> = Ok((result@, k));
        proof {
            assert(within(t, first as int, j));
            if !(t[j].kind is RBrace) {
                assert(expr_m(t, j) is Ok);
            }
            assert(res == (if t[j].kind is RBrace {
                Ok::<(ExprM, int), ParseErrorM>((mk(ExprKindM::Unit, t[j].span), j))
            } else {
                match expr_m(t, j) {
                    Err(e) => Err(e),
                    Ok((e, k)) => Ok((e, after_semi(t, k))),
                }
            }));
        }
        let end = self.expect(&TokenKind::RBrace, "expected `}` after block")?.span;
        let out = Expr::new(ExprKind::Block { bindings, result: Box::new(result) }, start.join(end));
        proof {
            assert(out@ == mk(ExprKindM::Block { bindings: bv, result: Box::new(res->Ok_0.0) }, joined(start, end)));
        }
        Ok(out)
    }

    fn case_after_keyword(&mut self, start: Span) -> (r: Result<Expr, ParseError>)
        requires
            old(self).wf(),
        ensures
            stepped(*old(self), *final(self)),
            r is Ok ==> progressed(*old(self), *final(self)),
            parsed_as(r, final(self).idx, case_after_m(old(self).toks(), old(self).idx as int, start), |x: Expr| x@),
        decreases old(self).rest(), 8nat,
    {
        let ghost t = old(self).toks();
        let scrutinee = self.expr()?;
        self.expect(&TokenKind::LBrace, "expected `{` after case scrutinee")?;
        let ghost sv = scrutinee@;
        let mut arms: Vec<CaseArm> = Vec::new();
        proof {
            assert(arms_view(arms@) =~= Seq::<CaseArmM>::empty());
        }
        while !self.at(&TokenKind::RBrace)
            invariant
                stepped(*old(self), *self),
                t == old(self).toks(),
                case_after_m(t, old(self).idx as int, start) == case_close_m(t, sv, arms_m(t, self.idx as int, arms_view(arms@)), start),
                sv == scrutinee@,
            decreases self.rest(),
        {
            let ghost acc = arms_view(arms@);
            let ghost prev = arms@;
            proof {
                assert(t[self.idx as int] == self.tokens@[self.idx as int]@);
            }
            let pattern = self.pattern()?;
            self.expect(&TokenKind::Arrow, "expected `->` in case arm")?;
            let body = self.expr()?;
            let span = pattern.span().join(body.span);
            let ghost a = CaseArm { pattern, body, span };
            arms.push(CaseArm { pattern, body, span });
            proof {
                assert(arms@.drop_last() =~= prev);
                assert(arms_view(arms@) =~= acc.push(crate::surface::ast::arm_view(a)));
                assert(t[self.idx as int] == self.tokens@[self.idx as int]@);
            }
            self.eat(&TokenKind::Semi);
        }
        proof {
            assert(t[self.idx as int] == self.tokens@[self.idx as int]@);
        }
        let end = self.expect(&TokenKind::RBrace, "expected `}` after case")?.span;
        Ok(Expr::new(ExprKind::CaseNat { scrutinee: Box::new(scrutinee), arms }, start.join(end)))
    }

    fn handle_after_keyword(&mut self, start: Span) -> (r: Result<Expr, ParseError>)
        requires
            old(self).wf(),
        ensures
            stepped(*old(self), *final(self)),
            r is Ok ==> progressed(*old(self), *final(self)),
            parsed_as(r, final(self).idx, handle_after_m(old(self).toks(), old(self).idx as int, start), |x: Expr| x@),
        decreases old(self).rest(), 8nat,
    {
        let ghost t = old(self).toks();
        let body = self.expr()?;
        self.expect(&TokenKind::LBrace, "expected `{` after handled expression")?;
        let ghost bv = body@;
        let mut clauses: Vec<HandleClause> = Vec::new();
        proof {
            assert(handle_clauses_view(clauses@) =~= Seq::<HandleClauseM>::empty());
        }
        while !self.at(&TokenKind::RBrace)
            invariant
                stepped(*old(self), *self),
                t == old(self).toks(),
                handle_after_m(t, old(self).idx as int, start) == handle_close_m(
                    t,
                    bv,
                    clauses_m(t, self.idx as int, handle_clauses_view(clauses@)),
                    start,
                ),
                bv == body@,
            decreases self.rest(),
        {
            let ghost acc = handle_clauses_view(clauses@);
            let ghost prev = clauses@;
            proof {
                assert(t[self.idx as int] == self.tokens@[self.idx as int]@);
            }
            let clause = self.handle_clause()?;
            let ghost cv = handle_clause_view(clause);
            clauses.push(clause);
            proof {
                assert(clauses@.drop_last() =~= prev);
                assert(handle_clauses_view(clauses@) =~= acc.push(cv));
                assert(t[self.idx as int] == self.tokens@[self.idx as int]@);
            }
            self.eat(&TokenKind::Semi);
        }
        proof {
            assert(t[self.idx as int] == self.tokens@[self.idx as int]@);
        }
        let end = self.expect(&TokenKind::RBrace, "expected `}` after handler")?.span;
        Ok(Expr::new(ExprKind::Handle { body: Box::new(body), clauses }, start.join(end)))
    }

    fn handle_clause(&mut self) -> (r: Result<HandleClause, ParseError>)
        requires
            old(self).wf(),
        ensures
            stepped(*old(self), *final(self)),
            r is Ok ==> progressed(*old(self), *final(self)),
            parsed_as(r, final(self).idx, handle_clause_m(old(self).toks(), old(self).idx as int), |x: HandleClause| handle_clause_view(x)),
        decreases old(self).rest(), 7nat,
    {
        proof {
            assert(old(self).toks()[old(self).idx as int] == old(self).tokens@[old(self).idx as int]@);
        }
        if let Some(return_tok) = self.eat(&TokenKind::Return) {
            self.expect(&TokenKind::LParen, "expected `(` after return")?;
            let var = self.expect_ident("expected return binder")?;
            self.expect(&TokenKind::RParen, "expected `)` after return binder")?;
            self.expect(&TokenKind::Arrow, "expected `->` in return clause")?;
            let body = self.expr()?;
            let span = return_tok.span.join(body.span);
            return Ok(HandleClause::Return { var, body, span });
        }
        let effect = self.expect_ident("expected effect label in handler clause")?;
        self.expect(&TokenKind::Dot, "expected `.` in operation clause")?;
        let op = self.expect_ident("expected operation name")?;
        self.expect(&TokenKind::LParen, "expected `(` after operation name")?;
        let param = self.pattern()?;
        self.expect(&TokenKind::RParen, "expected `)` after operation pattern")?;
        self.expect(&TokenKind::Comma, "expected `,` before continuation binder")?;
        let kont = self.pattern()?;
        self.expect(&TokenKind::Arrow, "expected `->` in operation clause")?;
        let body = self.expr()?;
        let span = effect.span.join(body.span);
        Ok(HandleClause::Operation { effect, op, param, kont, body, span })
    }

    fn pattern(&mut self) -> (r: Result<Pattern, ParseError>)
        requires
            old(self).wf(),
        ensures
            stepped(*old(self), *final(self)),
            r is Ok ==> progressed(*old(self), *final(self)),
            parsed_as(r, final(self).idx, pattern_m(old(self).toks(), old(self).idx as int), |x: Pattern| pattern_view(x)),
    {
        proof {
            assert(old(self).toks()[old(self).idx as int] == old(self).tokens@[old(self).idx as int]@);
        }
        let tok = self.advance();
        match tok.kind {
            TokenKind::Number(n) => {
                if n == 0 {
                    Ok(Pattern::Zero(tok.span))
                } else {
                    Err(
                        ParseError {
                            span: tok.span,
                            message: owned("only `0` literal patterns are in the reduced surface"),
                        },
                    )
                }
            },
            TokenKind::Ident(name) => Ok(Pattern::Bind(Spanned::new(name, tok.span))),
            TokenKind::Underscore => Ok(Pattern::Wildcard(tok.span)),
            _ => Err(ParseError { span: tok.span, message: owned("expected pattern") }),
        }
    }
}

/// The program that `src` spells. A lexical error comes back as it is; otherwise the first
/// token that does not fit the grammar is reported, and a construct outside the reduced
/// surface is named where it starts.
pub fn parse_program(src: &str) -> (r: Result<Program, ParseError>)
    ensures
        match lex_m(src.spec_bytes()) {
            Err(e) => r matches Err(x) && x@ == (ParseErrorM { span: e.span, message: e.message }),
            Ok(toks) => match program_m(toks, 0, Seq::empty()) {
                Ok(ds) => r matches Ok(p) && decls_view(p.decls@) == ds,
                Err(e) => r matches Err(x) && x@ == e,
            },
        },
{
    let tokens = match lex(src) {
        Ok(t) => t,
        Err(e) => {
            return Err(ParseError::from_lex(e));
        },
    };
    proof {
        lemma_lexed_stream(src.spec_bytes(), 0);
        assert(tokens_view(tokens@)[0] == tokens@[0]@);
    }
    let mut parser = Parser { tokens, idx: 0 };
    parser.program()
}

} // verus!
