//! The reduced Atli core: grade algebra, core terms, a small-step interpreter, a graded
//! checker with its boundedness solver, a term generator, and the surface front end.

pub mod core_ast;
pub mod core_text;
pub mod grade;
pub mod text;
pub mod check;
pub mod interp;
pub mod gen;
pub mod surface;
pub mod elaborate;
pub mod diagnostics;
pub mod codegen;
pub mod cli;
