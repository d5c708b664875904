//! Tokens of the reduced surface, read from the bytes of the source.

use vstd::prelude::*;
use vstd::string::StringSliceAdditionalSpecFns;

use crate::surface::ast::Span;
use crate::text::{ascii_chars, owned, push, str_eq, utf8_lossy_string};

verus! {

broadcast use vstd::std_specs::vec::group_vec_axioms, vstd::seq::group_seq_axioms;

#[derive(Debug, Clone, PartialEq, Eq)]
pub struct Token {
    pub kind: TokenKind,
    pub span: Span,
}

#[derive(Debug, Clone, PartialEq, Eq)]
pub enum TokenKind {
    Ident(String),
    Number(u64),
    Pub,
    Fn,
    Effect,
    Handle,
    Case,
    Return,
    Measure,
    Div,
    If,
    Else,
    Type,
    Use,
    Move,
    Inplace,
    Freeze,
    Spawn,
    Scope,
    LParen,
    RParen,
    LBrace,
    RBrace,
    LBracket,
    RBracket,
    Comma,
    Colon,
    Dot,
    Bang,
    Caret,
    Eq,
    Underscore,
    Arrow,
    PipeGt,
    Semi,
    Plus,
    Minus,
    Star,
    Eof,
}

/// Model of a token kind: an identifier is its characters.
pub enum TokenKindM {
    Ident(Seq<char>),
    Number(u64),
    Pub,
    Fn,
    Effect,
    Handle,
    Case,
    Return,
    Measure,
    Div,
    If,
    Else,
    Type,
    Use,
    Move,
    Inplace,
    Freeze,
    Spawn,
    Scope,
    LParen,
    RParen,
    LBrace,
    RBrace,
    LBracket,
    RBracket,
    Comma,
    Colon,
    Dot,
    Bang,
    Caret,
    Eq,
    Underscore,
    Arrow,
    PipeGt,
    Semi,
    Plus,
    Minus,
    Star,
    Eof,
}

impl View for TokenKind {
    type V = TokenKindM;

    open spec fn view(&self) -> TokenKindM {
        match self {
            TokenKind::Ident(s) => TokenKindM::Ident(s@),
            TokenKind::Number(n) => TokenKindM::Number(*n),
            TokenKind::Pub => TokenKindM::Pub,
            TokenKind::Fn => TokenKindM::Fn,
            TokenKind::Effect => TokenKindM::Effect,
            TokenKind::Handle => TokenKindM::Handle,
            TokenKind::Case => TokenKindM::Case,
            TokenKind::Return => TokenKindM::Return,
            TokenKind::Measure => TokenKindM::Measure,
            TokenKind::Div => TokenKindM::Div,
            TokenKind::If => TokenKindM::If,
            TokenKind::Else => TokenKindM::Else,
            TokenKind::Type => TokenKindM::Type,
            TokenKind::Use => TokenKindM::Use,
            TokenKind::Move => TokenKindM::Move,
            TokenKind::Inplace => TokenKindM::Inplace,
            TokenKind::Freeze => TokenKindM::Freeze,
            TokenKind::Spawn => TokenKindM::Spawn,
            TokenKind::Scope => TokenKindM::Scope,
            TokenKind::LParen => TokenKindM::LParen,
            TokenKind::RParen => TokenKindM::RParen,
            TokenKind::LBrace => TokenKindM::LBrace,
            TokenKind::RBrace => TokenKindM::RBrace,
            TokenKind::LBracket => TokenKindM::LBracket,
            TokenKind::RBracket => TokenKindM::RBracket,
            TokenKind::Comma => TokenKindM::Comma,
            TokenKind::Colon => TokenKindM::Colon,
            TokenKind::Dot => TokenKindM::Dot,
            TokenKind::Bang => TokenKindM::Bang,
            TokenKind::Caret => TokenKindM::Caret,
            TokenKind::Eq => TokenKindM::Eq,
            TokenKind::Underscore => TokenKindM::Underscore,
            TokenKind::Arrow => TokenKindM::Arrow,
            TokenKind::PipeGt => TokenKindM::PipeGt,
            TokenKind::Semi => TokenKindM::Semi,
            TokenKind::Plus => TokenKindM::Plus,
            TokenKind::Minus => TokenKindM::Minus,
            TokenKind::Star => TokenKindM::Star,
            TokenKind::Eof => TokenKindM::Eof,
        }
    }
}

/// Model of a token.
pub struct TokenM {
    pub kind: TokenKindM,
    pub span: Span,
}

impl View for Token {
    type V = TokenM;

    open spec fn view(&self) -> TokenM {
        TokenM { kind: self.kind@, span: self.span }
    }
}

pub open spec fn tokens_view(s: Seq<Token>) -> Seq<TokenM> {
    s.map_values(|t: Token| t@)
}

#[derive(Debug, Clone, PartialEq, Eq)]
pub struct LexError {
    pub span: Span,
    pub message: String,
}

/// Model of a lexical error.
pub struct LexErrorM {
    pub span: Span,
    pub message: Seq<char>,
}

impl View for LexError {
    type V = LexErrorM;

    open spec fn view(&self) -> LexErrorM {
        LexErrorM { span: self.span, message: self.message@ }
    }
}


/// The variant of a token kind, as a number.
pub open spec fn kind_tag(k: TokenKindM) -> nat {
    match k {
        TokenKindM::Ident(_) => 0,
        TokenKindM::Number(_) => 1,
        TokenKindM::Pub => 2,
        TokenKindM::Fn => 3,
        TokenKindM::Effect => 4,
        TokenKindM::Handle => 5,
        TokenKindM::Case => 6,
        TokenKindM::Return => 7,
        TokenKindM::Measure => 8,
        TokenKindM::Div => 9,
        TokenKindM::If => 10,
        TokenKindM::Else => 11,
        TokenKindM::Type => 12,
        TokenKindM::Use => 13,
        TokenKindM::Move => 14,
        TokenKindM::Inplace => 15,
        TokenKindM::Freeze => 16,
        TokenKindM::Spawn => 17,
        TokenKindM::Scope => 18,
        TokenKindM::LParen => 19,
        TokenKindM::RParen => 20,
        TokenKindM::LBrace => 21,
        TokenKindM::RBrace => 22,
        TokenKindM::LBracket => 23,
        TokenKindM::RBracket => 24,
        TokenKindM::Comma => 25,
        TokenKindM::Colon => 26,
        TokenKindM::Dot => 27,
        TokenKindM::Bang => 28,
        TokenKindM::Caret => 29,
        TokenKindM::Eq => 30,
        TokenKindM::Underscore => 31,
        TokenKindM::Arrow => 32,
        TokenKindM::PipeGt => 33,
        TokenKindM::Semi => 34,
        TokenKindM::Plus => 35,
        TokenKindM::Minus => 36,
        TokenKindM::Star => 37,
        TokenKindM::Eof => 38,
    }
}

/// The variant of a token kind, as a number.
pub fn kind_index(k: &TokenKind) -> (r: u8)
    ensures
        r == kind_tag(k@),
{
    match k {
        TokenKind::Ident(_) => 0,
        TokenKind::Number(_) => 1,
        TokenKind::Pub => 2,
        TokenKind::Fn => 3,
        TokenKind::Effect => 4,
        TokenKind::Handle => 5,
        TokenKind::Case => 6,
        TokenKind::Return => 7,
        TokenKind::Measure => 8,
        TokenKind::Div => 9,
        TokenKind::If => 10,
        TokenKind::Else => 11,
        TokenKind::Type => 12,
        TokenKind::Use => 13,
        TokenKind::Move => 14,
        TokenKind::Inplace => 15,
        TokenKind::Freeze => 16,
        TokenKind::Spawn => 17,
        TokenKind::Scope => 18,
        TokenKind::LParen => 19,
        TokenKind::RParen => 20,
        TokenKind::LBrace => 21,
        TokenKind::RBrace => 22,
        TokenKind::LBracket => 23,
        TokenKind::RBracket => 24,
        TokenKind::Comma => 25,
        TokenKind::Colon => 26,
        TokenKind::Dot => 27,
        TokenKind::Bang => 28,
        TokenKind::Caret => 29,
        TokenKind::Eq => 30,
        TokenKind::Underscore => 31,
        TokenKind::Arrow => 32,
        TokenKind::PipeGt => 33,
        TokenKind::Semi => 34,
        TokenKind::Plus => 35,
        TokenKind::Minus => 36,
        TokenKind::Star => 37,
        TokenKind::Eof => 38,
    }
}

impl TokenKind {
    /// An equal copy.
    pub fn duplicate(&self) -> (r: Self)
        ensures
            r@ == self@,
    {
        match self {
            TokenKind::Ident(s) => TokenKind::Ident(owned(s.as_str())),
            TokenKind::Number(n) => TokenKind::Number(*n),
            TokenKind::Pub => TokenKind::Pub,
            TokenKind::Fn => TokenKind::Fn,
            TokenKind::Effect => TokenKind::Effect,
            TokenKind::Handle => TokenKind::Handle,
            TokenKind::Case => TokenKind::Case,
            TokenKind::Return => TokenKind::Return,
            TokenKind::Measure => TokenKind::Measure,
            TokenKind::Div => TokenKind::Div,
            TokenKind::If => TokenKind::If,
            TokenKind::Else => TokenKind::Else,
            TokenKind::Type => TokenKind::Type,
            TokenKind::Use => TokenKind::Use,
            TokenKind::Move => TokenKind::Move,
            TokenKind::Inplace => TokenKind::Inplace,
            TokenKind::Freeze => TokenKind::Freeze,
            TokenKind::Spawn => TokenKind::Spawn,
            TokenKind::Scope => TokenKind::Scope,
            TokenKind::LParen => TokenKind::LParen,
            TokenKind::RParen => TokenKind::RParen,
            TokenKind::LBrace => TokenKind::LBrace,
            TokenKind::RBrace => TokenKind::RBrace,
            TokenKind::LBracket => TokenKind::LBracket,
            TokenKind::RBracket => TokenKind::RBracket,
            TokenKind::Comma => TokenKind::Comma,
            TokenKind::Colon => TokenKind::Colon,
            TokenKind::Dot => TokenKind::Dot,
            TokenKind::Bang => TokenKind::Bang,
            TokenKind::Caret => TokenKind::Caret,
            TokenKind::Eq => TokenKind::Eq,
            TokenKind::Underscore => TokenKind::Underscore,
            TokenKind::Arrow => TokenKind::Arrow,
            TokenKind::PipeGt => TokenKind::PipeGt,
            TokenKind::Semi => TokenKind::Semi,
            TokenKind::Plus => TokenKind::Plus,
            TokenKind::Minus => TokenKind::Minus,
            TokenKind::Star => TokenKind::Star,
            TokenKind::Eof => TokenKind::Eof,
        }
    }
}

impl Token {
    /// An equal copy.
    pub fn duplicate(&self) -> (r: Self)
        ensures
            r@ == self@,
    {
        Token { kind: self.kind.duplicate(), span: self.span }
    }
}

// ---------------------------------------------------------------------------------------
// The lexical grammar.
pub open spec fn is_digit(b: u8) -> bool {
    48 <= b <= 57
}

pub open spec fn is_alpha(b: u8) -> bool {
    (65 <= b <= 90) || (97 <= b <= 122)
}

pub open spec fn is_ident_byte(b: u8) -> bool {
    is_digit(b) || is_alpha(b) || b == 95
}

/// The first position from `i` on that holds a newline, or the end.
pub open spec fn comment_end(b: Seq<u8>, i: nat) -> nat
    decreases b.len() - i,
{
    if i >= b.len() || b[i as int] == 10 {
        i
    } else {
        comment_end(b, i + 1)
    }
}

/// The first position from `i` on that holds neither a digit nor `_`, or the end.
pub open spec fn number_end(b: Seq<u8>, i: nat) -> nat
    decreases b.len() - i,
{
    if i >= b.len() || !(is_digit(b[i as int]) || b[i as int] == 95) {
        i
    } else {
        number_end(b, i + 1)
    }
}

/// The first position from `i` on that does not continue an identifier, or the end.
pub open spec fn ident_end(b: Seq<u8>, i: nat) -> nat
    decreases b.len() - i,
{
    if i >= b.len() || !is_ident_byte(b[i as int]) {
        i
    } else {
        ident_end(b, i + 1)
    }
}

/// The decimal value of the digits in `b[i..j]`; `_` separates digit groups.
pub open spec fn digits_value(b: Seq<u8>, i: nat, j: nat) -> nat
    decreases j,
{
    if j <= i {
        0
    } else if b[j - 1] == 95 {
        digits_value(b, i, (j - 1) as nat)
    } else {
        digits_value(b, i, (j - 1) as nat) * 10 + (b[j - 1] - 48) as nat
    }
}

/// The characters of ASCII bytes.
/// The keyword that `text` spells, or an identifier.
pub open spec fn keyword_m(text: Seq<char>) -> TokenKindM {
    if text == "pub"@ {
        TokenKindM::Pub
    } else if text == "fn"@ {
        TokenKindM::Fn
    } else if text == "effect"@ {
        TokenKindM::Effect
    } else if text == "handle"@ {
        TokenKindM::Handle
    } else if text == "case"@ {
        TokenKindM::Case
    } else if text == "return"@ {
        TokenKindM::Return
    } else if text == "measure"@ {
        TokenKindM::Measure
    } else if text == "div"@ {
        TokenKindM::Div
    } else if text == "if"@ {
        TokenKindM::If
    } else if text == "else"@ {
        TokenKindM::Else
    } else if text == "type"@ {
        TokenKindM::Type
    } else if text == "use"@ {
        TokenKindM::Use
    } else if text == "move"@ {
        TokenKindM::Move
    } else if text == "inplace"@ {
        TokenKindM::Inplace
    } else if text == "freeze"@ {
        TokenKindM::Freeze
    } else if text == "spawn"@ {
        TokenKindM::Spawn
    } else if text == "scope"@ {
        TokenKindM::Scope
    } else {
        TokenKindM::Ident(text)
    }
}

/// The token of a single-character punctuation byte.
pub open spec fn punct_m(b: u8) -> Option<TokenKindM> {
    if b == 40 {
        Some(TokenKindM::LParen)
    } else if b == 41 {
        Some(TokenKindM::RParen)
    } else if b == 123 {
        Some(TokenKindM::LBrace)
    } else if b == 125 {
        Some(TokenKindM::RBrace)
    } else if b == 91 {
        Some(TokenKindM::LBracket)
    } else if b == 93 {
        Some(TokenKindM::RBracket)
    } else if b == 44 {
        Some(TokenKindM::Comma)
    } else if b == 58 {
        Some(TokenKindM::Colon)
    } else if b == 46 {
        Some(TokenKindM::Dot)
    } else if b == 33 {
        Some(TokenKindM::Bang)
    } else if b == 94 {
        Some(TokenKindM::Caret)
    } else if b == 61 {
        Some(TokenKindM::Eq)
    } else if b == 59 {
        Some(TokenKindM::Semi)
    } else if b == 43 {
        Some(TokenKindM::Plus)
    } else if b == 42 {
        Some(TokenKindM::Star)
    } else {
        None
    }
}

/// The width in UTF-8 of the character that a byte denotes.
pub open spec fn byte_width(b: u8) -> nat {
    if b < 128 {
        1
    } else {
        2
    }
}

/// Bytes of operators that the reduced surface reserves.
pub open spec fn is_reserved(b: u8) -> bool {
    b == 47 || b == 37 || b == 60 || b == 62 || b == 34 || b == 39
}

/// The end of the character at `i`, within the input.
pub open spec fn char_end(b: Seq<u8>, i: nat) -> nat {
    if i + byte_width(b[i as int]) <= b.len() {
        i + byte_width(b[i as int])
    } else {
        b.len()
    }
}

pub open spec fn span_m(i: nat, j: nat) -> Span {
    Span { start: i as usize, end: j as usize }
}

/// Whether the byte after `i` is `x`.
pub open spec fn next_is(b: Seq<u8>, i: nat, x: u8) -> bool {
    i + 1 < b.len() && b[i + 1int] == x
}

/// What the byte at `i` starts.
pub enum LexStep {
    Skip(nat),
    Emit(TokenKindM, nat),
    Fail(LexErrorM),
}

pub open spec fn lex_step(b: Seq<u8>, i: nat) -> LexStep {
    let c = b[i as int];
    if c == 32 || c == 9 || c == 13 || c == 10 {
        LexStep::Skip(i + 1)
    } else if c == 47 && next_is(b, i, 47) {
        LexStep::Skip(comment_end(b, i + 2))
    } else if is_digit(c) {
        let e = number_end(b, i);
        let v = digits_value(b, i, e);
        if v > u64::MAX {
            LexStep::Fail(LexErrorM { span: span_m(i, e), message: "Nat literal is too large"@ })
        } else {
            LexStep::Emit(TokenKindM::Number(v as u64), e)
        }
    } else if is_alpha(c) {
        let e = ident_end(b, i + 1);
        LexStep::Emit(keyword_m(ascii_chars(b.subrange(i as int, e as int))), e)
    } else if c == 95 {
        LexStep::Emit(TokenKindM::Underscore, i + 1)
    } else if punct_m(c) is Some {
        LexStep::Emit(punct_m(c)->0, i + 1)
    } else if c == 45 && next_is(b, i, 62) {
        LexStep::Emit(TokenKindM::Arrow, i + 2)
    } else if c == 124 && next_is(b, i, 62) {
        LexStep::Emit(TokenKindM::PipeGt, i + 2)
    } else if c == 45 {
        LexStep::Emit(TokenKindM::Minus, i + 1)
    } else if is_reserved(c) {
        LexStep::Fail(
            LexErrorM {
                span: span_m(i, char_end(b, i)),
                message: "`"@ + seq![c as char] + "` is not yet in the reduced surface"@,
            },
        )
    } else {
        LexStep::Fail(
            LexErrorM {
                span: span_m(i, char_end(b, i)),
                message: "unexpected character `"@ + seq![c as char] + "`"@,
            },
        )
    }
}

pub open spec fn lex_step_next(b: Seq<u8>, i: nat) -> nat {
    match lex_step(b, i) {
        LexStep::Skip(j) => j,
        LexStep::Emit(_, j) => j,
        LexStep::Fail(_) => b.len(),
    }
}

pub proof fn lemma_ends(b: Seq<u8>, i: nat)
    ensures
        i <= comment_end(b, i),
        i < b.len() ==> comment_end(b, i) <= b.len(),
        i <= number_end(b, i),
        i < b.len() ==> number_end(b, i) <= b.len(),
        i <= ident_end(b, i),
        i <= b.len() ==> ident_end(b, i) <= b.len(),
        i <= b.len() ==> comment_end(b, i) <= b.len(),
        i <= b.len() ==> number_end(b, i) <= b.len(),
    decreases b.len() - i,
{
    if i < b.len() {
        lemma_ends(b, i + 1);
    }
}

pub proof fn lemma_step_advances(b: Seq<u8>, i: nat)
    requires
        i < b.len(),
    ensures
        i < lex_step_next(b, i) <= b.len(),
{
    lemma_ends(b, i + 2);
    lemma_ends(b, i + 1);
    lemma_ends(b, i);
    let c = b[i as int];
    if is_digit(c) {
        assert(number_end(b, i) == number_end(b, i + 1));
    }
}

/// The tokens of `b` from position `i` on, ending with end-of-input, or the first error.
pub open spec fn lex_from(b: Seq<u8>, i: nat) -> Result<Seq<TokenM>, LexErrorM>
    decreases b.len() - i,
{
    if i >= b.len() {
        Ok(seq![TokenM { kind: TokenKindM::Eof, span: span_m(b.len(), b.len()) }])
    } else {
        proof {
            lemma_step_advances(b, i);
        }
        match lex_step(b, i) {
            LexStep::Skip(j) => lex_from(b, j),
            LexStep::Emit(kind, j) => match lex_from(b, j) {
                Ok(rest) => Ok(seq![TokenM { kind, span: span_m(i, j) }] + rest),
                Err(e) => Err(e),
            },
            LexStep::Fail(e) => Err(e),
        }
    }
}

/// The tokens of a source's bytes, or the first lexical error.
pub open spec fn lex_m(b: Seq<u8>) -> Result<Seq<TokenM>, LexErrorM> {
    lex_from(b, 0)
}

pub open spec fn with_prefix(pre: Seq<TokenM>, r: Result<Seq<TokenM>, LexErrorM>) -> Result<
    Seq<TokenM>,
    LexErrorM,
> {
    match r {
        Ok(t) => Ok(pre + t),
        Err(e) => Err(e),
    }
}

// ---------------------------------------------------------------------------------------
// Trusted conversions.
/// The character that the byte `b` denotes, as a `String`, through `char::to_string`.
#[verifier::external_body]
fn byte_char_string(b: u8) -> (r: String)
    ensures
        r@ == seq![b as char],
{
    (b as char).to_string()
}

// ---------------------------------------------------------------------------------------
// The lexer.
fn keyword_or_ident(text: String) -> (r: TokenKind)
    ensures
        r@ == keyword_m(text@),
{
    let t = text.as_str();
    if str_eq(t, "pub") {
        TokenKind::Pub
    } else if str_eq(t, "fn") {
        TokenKind::Fn
    } else if str_eq(t, "effect") {
        TokenKind::Effect
    } else if str_eq(t, "handle") {
        TokenKind::Handle
    } else if str_eq(t, "case") {
        TokenKind::Case
    } else if str_eq(t, "return") {
        TokenKind::Return
    } else if str_eq(t, "measure") {
        TokenKind::Measure
    } else if str_eq(t, "div") {
        TokenKind::Div
    } else if str_eq(t, "if") {
        TokenKind::If
    } else if str_eq(t, "else") {
        TokenKind::Else
    } else if str_eq(t, "type") {
        TokenKind::Type
    } else if str_eq(t, "use") {
        TokenKind::Use
    } else if str_eq(t, "move") {
        TokenKind::Move
    } else if str_eq(t, "inplace") {
        TokenKind::Inplace
    } else if str_eq(t, "freeze") {
        TokenKind::Freeze
    } else if str_eq(t, "spawn") {
        TokenKind::Spawn
    } else if str_eq(t, "scope") {
        TokenKind::Scope
    } else {
        TokenKind::Ident(text)
    }
}

fn punct(b: u8) -> (r: Option<TokenKind>)
    ensures
        match punct_m(b) {
            Some(k) => r matches Some(t) && t@ == k,
            None => r is None,
        },
{
    if b == 40 {
        Some(TokenKind::LParen)
    } else if b == 41 {
        Some(TokenKind::RParen)
    } else if b == 123 {
        Some(TokenKind::LBrace)
    } else if b == 125 {
        Some(TokenKind::RBrace)
    } else if b == 91 {
        Some(TokenKind::LBracket)
    } else if b == 93 {
        Some(TokenKind::RBracket)
    } else if b == 44 {
        Some(TokenKind::Comma)
    } else if b == 58 {
        Some(TokenKind::Colon)
    } else if b == 46 {
        Some(TokenKind::Dot)
    } else if b == 33 {
        Some(TokenKind::Bang)
    } else if b == 94 {
        Some(TokenKind::Caret)
    } else if b == 61 {
        Some(TokenKind::Eq)
    } else if b == 59 {
        Some(TokenKind::Semi)
    } else if b == 43 {
        Some(TokenKind::Plus)
    } else if b == 42 {
        Some(TokenKind::Star)
    } else {
        None
    }
}

/// The end of the comment whose text starts at `i`.
fn scan_comment(bytes: &[u8], i: usize) -> (r: usize)
    requires
        i <= bytes@.len(),
    ensures
        r == comment_end(bytes@, i as nat),
{
    let mut j = i;
    while j < bytes.len() && bytes[j] != 10
        invariant
            i <= j <= bytes@.len(),
            comment_end(bytes@, i as nat) == comment_end(bytes@, j as nat),
        decreases bytes@.len() - j,
    {
        j += 1;
    }
    j
}

/// The end of the identifier continued at `i`.
fn scan_ident(bytes: &[u8], i: usize) -> (r: usize)
    requires
        i <= bytes@.len(),
    ensures
        r == ident_end(bytes@, i as nat),
        i <= r <= bytes@.len(),
{
    let mut j = i;
    while j < bytes.len() && (is_ident(bytes[j]))
        invariant
            i <= j <= bytes@.len(),
            ident_end(bytes@, i as nat) == ident_end(bytes@, j as nat),
        decreases bytes@.len() - j,
    {
        j += 1;
    }
    j
}

fn is_ident(b: u8) -> (r: bool)
    ensures
        r == is_ident_byte(b),
{
    (48 <= b && b <= 57) || (65 <= b && b <= 90) || (97 <= b && b <= 122) || b == 95
}

/// The number literal starting at `i`: its end, and its value unless that exceeds `u64`.
fn scan_number(bytes: &[u8], i: usize) -> (r: (usize, Option<u64>))
    requires
        i <= bytes@.len(),
    ensures
        r.0 == number_end(bytes@, i as nat),
        match r.1 {
            Some(v) => v == digits_value(bytes@, i as nat, r.0 as nat),
            None => digits_value(bytes@, i as nat, r.0 as nat) > u64::MAX,
        },
{
    let mut j = i;
    let mut value: u64 = 0;
    let mut overflow = false;
    while j < bytes.len() && ((48 <= bytes[j] && bytes[j] <= 57) || bytes[j] == 95)
        invariant
            i <= j <= bytes@.len(),
            number_end(bytes@, i as nat) == number_end(bytes@, j as nat),
            overflow == (digits_value(bytes@, i as nat, j as nat) > u64::MAX),
            !overflow ==> value == digits_value(bytes@, i as nat, j as nat),
        decreases bytes@.len() - j,
    {
        let b = bytes[j];
        if b != 95 && !overflow {
            let next: u128 = (value as u128) * 10 + ((b - 48) as u128);
            if next > 0xffff_ffff_ffff_ffffu128 {
                overflow = true;
            } else {
                value = next as u64;
            }
        }
        j += 1;
    }
    if overflow {
        (j, None)
    } else {
        (j, Some(value))
    }
}

proof fn lemma_ident_ascii(b: Seq<u8>, i: nat)
    ensures
        forall|k: int| i <= k < ident_end(b, i) ==> is_ident_byte(#[trigger] b[k]),
    decreases b.len() - i,
{
    if i < b.len() && is_ident_byte(b[i as int]) {
        lemma_ident_ascii(b, i + 1);
    }
}

/// What the byte at `i` starts: a skipped stretch, a token, or an error.
fn lex_one(bytes: &[u8], i: usize) -> (r: Result<(Option<Token>, usize), LexError>)
    requires
        i < bytes@.len(),
    ensures
        match lex_step(bytes@, i as nat) {
            LexStep::Skip(j) => r matches Ok((None, k)) && k == j,
            LexStep::Emit(kind, j) => r matches Ok((Some(t), k)) && k == j && t@ == (TokenM {
                kind,
                span: span_m(i as nat, j),
            }),
            LexStep::Fail(e) => r matches Err(x) && x@ == e,
        },
{
    let ghost b = bytes@;
    let n = bytes.len();
    let c = bytes[i];
    proof {
        lemma_ends(b, i as nat);
        lemma_ends(b, i as nat + 1);
    }
    if c == 32 || c == 9 || c == 13 || c == 10 {
        return Ok((None, i + 1));
    }
    if c == 47 && i + 1 < n && bytes[i + 1] == 47 {
        return Ok((None, scan_comment(bytes, i + 2)));
    }
    if 48 <= c && c <= 57 {
        let (e, v) = scan_number(bytes, i);
        return match v {
            Some(v) => Ok((Some(Token { kind: TokenKind::Number(v), span: Span::new(i, e) }), e)),
            None => Err(lex_error(i, e, owned("Nat literal is too large"))),
        };
    }
    if (65 <= c && c <= 90) || (97 <= c && c <= 122) {
        let e = scan_ident(bytes, i + 1);
        proof {
            lemma_ident_ascii(b, i as nat + 1);
        }
        let text = utf8_lossy_string(bytes, i, e);
        let kind = keyword_or_ident(text);
        return Ok((Some(Token { kind, span: Span::new(i, e) }), e));
    }
    if c == 95 {
        return Ok((Some(Token { kind: TokenKind::Underscore, span: Span::new(i, i + 1) }), i + 1));
    }
    match punct(c) {
        Some(kind) => {
            return Ok((Some(Token { kind, span: Span::new(i, i + 1) }), i + 1));
        },
        None => {},
    }
    if c == 45 && i + 1 < n && bytes[i + 1] == 62 {
        return Ok((Some(Token { kind: TokenKind::Arrow, span: Span::new(i, i + 2) }), i + 2));
    }
    if c == 124 && i + 1 < n && bytes[i + 1] == 62 {
        return Ok((Some(Token { kind: TokenKind::PipeGt, span: Span::new(i, i + 2) }), i + 2));
    }
    if c == 45 {
        return Ok((Some(Token { kind: TokenKind::Minus, span: Span::new(i, i + 1) }), i + 1));
    }
    let width: usize = if c < 128 {
        1
    } else {
        2
    };
    let end = if width <= n - i {
        i + width
    } else {
        n
    };
    let shown = byte_char_string(c);
    if c == 47 || c == 37 || c == 60 || c == 62 || c == 34 || c == 39 {
        let mut message = owned("`");
        push(&mut message, shown.as_str());
        push(&mut message, "` is not yet in the reduced surface");
        Err(lex_error(i, end, message))
    } else {
        let mut message = owned("unexpected character `");
        push(&mut message, shown.as_str());
        push(&mut message, "`");
        Err(lex_error(i, end, message))
    }
}

fn lex_error(start: usize, end: usize, message: String) -> (r: LexError)
    ensures
        r@ == (LexErrorM { span: span_m(start as nat, end as nat), message: message@ }),
{
    LexError { span: Span::new(start, end), message }
}

/// The tokens of `src`, each with the byte span it came from, ending with an end-of-input
/// token; spaces, tabs, line breaks and `//` comments separate tokens. Fails at the first
/// byte that starts no token.
pub fn lex(src: &str) -> (r: Result<Vec<Token>, LexError>)
    ensures
        match lex_m(src.spec_bytes()) {
            Ok(toks) => r matches Ok(v) && tokens_view(v@) == toks,
            Err(e) => r matches Err(x) && x@ == e,
        },
{
    let bytes = src.as_bytes();
    let n = bytes.len();
    let ghost b = bytes@;
    let mut out: Vec<Token> = Vec::new();
    let mut idx: usize = 0;
    while idx < n
        invariant
            b == bytes@,
            b == src.spec_bytes(),
            n == b.len(),
            idx <= n,
            lex_m(b) == with_prefix(tokens_view(out@), lex_from(b, idx as nat)),
        decreases n - idx,
    {
        proof {
            lemma_step_advances(b, idx as nat);
            lemma_ends(b, idx as nat);
            lemma_ends(b, idx as nat + 1);
            lemma_ends(b, idx as nat + 2);
        }
        let step = lex_one(bytes, idx);
        match step {
            Ok((tok, next)) => {
                match tok {
                    Some(t) => {
                        let ghost before = tokens_view(out@);
                        proof {
                            let rest = lex_from(b, next as nat);
                            assert(with_prefix(before, with_prefix(seq![t@], rest)) == with_prefix(
                                before.push(t@),
                                rest,
                            )) by {
                                if let Ok(tl) = rest {
                                    assert(before + (seq![t@] + tl) =~= before.push(t@) + tl);
                                }
                            }
                        }
                        out.push(t);
                        assert(tokens_view(out@) =~= before.push(t@));
                    },
                    None => {},
                }
                idx = next;
            },
            Err(e) => {
                assert(lex_from(b, idx as nat) == Err::<Seq<TokenM>, LexErrorM>(e@));
                return Err(e);
            },
        }
    }
    proof {
        assert(idx == n);
        assert(lex_from(b, idx as nat) == Ok::<Seq<TokenM>, LexErrorM>(
            seq![TokenM { kind: TokenKindM::Eof, span: span_m(n as nat, n as nat) }],
        ));
    }
    let eof = Token { kind: TokenKind::Eof, span: Span::new(n, n) };
    let ghost before = tokens_view(out@);
    out.push(eof);
    assert(tokens_view(out@) =~= before + seq![eof@]);
    Ok(out)
}

} // verus!
