//! Errors of elaboration.

use vstd::prelude::*;

use crate::surface::ast::Span;
use crate::text::owned;

verus! {

#[derive(Debug, Clone, PartialEq, Eq)]
pub struct ElaborateError {
    pub span: Span,
    pub message: String,
}

/// Model of an elaboration error.
pub struct ElabErrM {
    pub span: Span,
    pub message: Seq<char>,
}

impl View for ElaborateError {
    type V = ElabErrM;

    open spec fn view(&self) -> ElabErrM {
        ElabErrM { span: self.span, message: self.message@ }
    }
}

impl ElaborateError {
    pub fn new(span: Span, message: &str) -> (r: Self)
        ensures
            r@ == (ElabErrM { span, message: message@ }),
    {
        Self { span, message: owned(message) }
    }
}

} // verus!
