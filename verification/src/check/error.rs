//! Type errors of the graded checker: the rule that rejected, its section, the rejected
//! term's text, a message, and a structured kind.

use vstd::prelude::*;

use crate::core_ast::{Term, Type};
use crate::check::typing::err_m;
use crate::core_text::type_text;
use crate::text::{owned, push};

verus! {

#[derive(Debug, Clone, PartialEq, Eq)]
pub enum TypeErrorKind {
    UnboundVariable(String),
    TypeMismatch { expected: Type, found: Type },
    ExpectedFunction(Type),
    ExpectedContinuation(Type),
    HandlerContinuationUsage(String),
    NonStrictStructuralRecursion,
    Solver(String),
}

/// Model of an error kind.
pub enum TypeErrorKindM {
    UnboundVariable(Seq<char>),
    TypeMismatch { expected: Type, found: Type },
    ExpectedFunction(Type),
    ExpectedContinuation(Type),
    HandlerContinuationUsage(Seq<char>),
    NonStrictStructuralRecursion,
    Solver(Seq<char>),
}

impl View for TypeErrorKind {
    type V = TypeErrorKindM;

    open spec fn view(&self) -> TypeErrorKindM {
        match self {
            TypeErrorKind::UnboundVariable(s) => TypeErrorKindM::UnboundVariable(s@),
            TypeErrorKind::TypeMismatch { expected, found } => TypeErrorKindM::TypeMismatch {
                expected: *expected,
                found: *found,
            },
            TypeErrorKind::ExpectedFunction(t) => TypeErrorKindM::ExpectedFunction(*t),
            TypeErrorKind::ExpectedContinuation(t) => TypeErrorKindM::ExpectedContinuation(*t),
            TypeErrorKind::HandlerContinuationUsage(s) => TypeErrorKindM::HandlerContinuationUsage(
                s@,
            ),
            TypeErrorKind::NonStrictStructuralRecursion => {
                TypeErrorKindM::NonStrictStructuralRecursion
            },
            TypeErrorKind::Solver(s) => TypeErrorKindM::Solver(s@),
        }
    }
}

#[derive(Debug, Clone, PartialEq, Eq)]
pub struct TypeError {
    pub rule: &'static str,
    pub section: &'static str,
    pub term: String,
    pub message: String,
    pub kind: Box<TypeErrorKind>,
}

/// Model of a type error.
pub struct TypeErrorM {
    pub rule: Seq<char>,
    pub section: Seq<char>,
    pub term: Seq<char>,
    pub message: Seq<char>,
    pub kind: TypeErrorKindM,
}

impl View for TypeError {
    type V = TypeErrorM;

    open spec fn view(&self) -> TypeErrorM {
        TypeErrorM {
            rule: self.rule@,
            section: self.section@,
            term: self.term@,
            message: self.message@,
            kind: (*self.kind)@,
        }
    }
}

/// `rule section rejected `term`: message`.
pub open spec fn type_error_text(e: TypeErrorM) -> Seq<char> {
    e.rule + " "@ + e.section + " rejected `"@ + e.term + "`: "@ + e.message
}

impl TypeError {
    pub fn new(
        rule: &'static str,
        section: &'static str,
        term: &Term,
        message: String,
        kind: TypeErrorKind,
    ) -> (r: Self)
        ensures
            r@ == err_m(rule@, section@, term@, message@, kind@),
    {
        reveal(err_m);
        Self { rule, section, term: term.to_text(), message, kind: Box::new(kind) }
    }

    /// The diagnostic line for this error.
    pub fn to_text(&self) -> (r: String)
        ensures
            r@ == type_error_text(self@),
    {
        let mut out = owned(self.rule);
        push(&mut out, " ");
        push(&mut out, self.section);
        push(&mut out, " rejected `");
        push(&mut out, self.term.as_str());
        push(&mut out, "`: ");
        push(&mut out, self.message.as_str());
        out
    }
}

/// `expected T, found U`.
pub open spec fn mismatch_text(expected: Type, found: Type) -> Seq<char> {
    "expected "@ + type_text(expected) + ", found "@ + type_text(found)
}

pub(crate) fn mismatch_message(expected: &Type, found: &Type) -> (r: String)
    ensures
        r@ == mismatch_text(*expected, *found),
{
    let mut out = owned("expected ");
    push(&mut out, expected.to_text().as_str());
    push(&mut out, ", found ");
    push(&mut out, found.to_text().as_str());
    out
}

} // verus!
