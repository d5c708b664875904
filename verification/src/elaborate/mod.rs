//! Elaboration of surface programs into core terms.

pub mod error;
pub mod uniqueness;
pub mod lower;
pub mod lowering;
pub mod program;
