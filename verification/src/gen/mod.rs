//! Witness analysis and generation of core terms.

pub mod derive_spec;
pub mod derive;
pub mod closure;
pub mod facts;
pub mod rec_scan;
pub mod generate;
pub mod sample;
