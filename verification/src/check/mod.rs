//! Graded checker for the reduced core: typing with effect rows, boundedness constraints
//! (solved by `solve`), continuation-use facts, divergence and coverage.
//!
//! A `CheckedWitness` is built only from a `CertifiedGrade`, which only `PendingGrade::certify`
//! produces from the certificate of a completed `solve` run.

pub mod env;
pub mod error;
pub mod infer;
pub mod solve;
pub mod typing;
pub mod usage;

pub use error::{TypeError, TypeErrorKind};
pub use solve::{CertifiedGrade, PendingGrade, SolverCertificate, SolverStats};

use vstd::prelude::*;

use crate::check::env::{Env, PartialWitness};
use crate::check::infer::Checker;
use crate::check::solve::{
    components_over, covers, eval_m, sccs_m, solve, solve_all_m, zeros, ConstraintSystem, UnknownId,
};
use crate::check::typing::{empty_env, infer_m, PartialM, SysM};
use crate::core_ast::{Term, Witness, WitnessM};
use crate::grade::Bound;

verus! {

/// The witness of a derivation once its boundedness is known.
pub open spec fn witness_m(p: PartialM, bound: Bound) -> WitnessM {
    WitnessM {
        ty: p.ty,
        effects: p.effects,
        bound,
        region: p.region,
        uses: p.uses,
        divergence: p.divergence,
        coverage: p.coverage,
    }
}

/// The constraint system the checker starts from.
pub open spec fn empty_sys() -> SysM {
    SysM { unknowns: 0, constraints: Seq::empty() }
}

/// The solution of a system along a given order of its components.
pub open spec fn solution_m(sys: SysM, sccs: Seq<Seq<UnknownId>>) -> Seq<Bound> {
    solve_all_m(sys.constraints, zeros(sys.unknowns), sccs).0
}

/// A checked term: its witness with a certified boundedness, and the solver's statistics.
#[derive(Debug, Clone, PartialEq, Eq)]
pub struct CheckedWitness {
    witness: Witness,
    stats: SolverStats,
    certified_bound: CertifiedGrade,
}

impl CheckedWitness {
    pub closed spec fn witness_spec(&self) -> Witness {
        self.witness
    }

    pub closed spec fn stats_spec(&self) -> SolverStats {
        self.stats
    }

    pub closed spec fn bound_spec(&self) -> CertifiedGrade {
        self.certified_bound
    }

    pub fn witness(&self) -> (r: &Witness)
        ensures
            *r == self.witness_spec(),
    {
        &self.witness
    }

    pub fn solver_stats(&self) -> (r: &SolverStats)
        ensures
            *r == self.stats_spec(),
    {
        &self.stats
    }

    /// Certified allocation grade for downstream consumers.
    pub fn certified_bound(&self) -> (r: CertifiedGrade)
        ensures
            r == self.bound_spec(),
    {
        self.certified_bound
    }

    fn new(partial: PartialWitness, certified: CertifiedGrade, stats: SolverStats) -> (r: Self)
        ensures
            r.witness_spec()@ == witness_m(partial@, certified.bound()),
            r.witness_spec().bound == certified.bound(),
            r.bound_spec() == certified,
            r.stats_spec() == stats,
    {
        let witness = Witness {
            ty: partial.ty,
            effects: partial.effects,
            bound: certified.get(),
            region: partial.region,
            continuation_uses: partial.continuation_uses,
            divergence: partial.divergence,
            coverage: partial.coverage,
        };
        Self { witness, stats, certified_bound: certified }
    }
}

/// Checks a closed core term: its typing derivation (`infer_m` from the empty environment
/// and system) either fails with the error it reports, or its bound expression is
/// evaluated at the solved system.
pub fn check(term: &Term) -> (r: Result<CheckedWitness, TypeError>)
    ensures
        match infer_m(term@, empty_env(), empty_sys()) {
            (Err(e), _) => r matches Err(x) && x@ == e,
            (Ok(p), sys) => r matches Ok(c) && {
                &&& c.witness_spec()@ == witness_m(p, c.bound_spec().bound())
                &&& ({
                    let sccs = sccs_m(sys.constraints, sys.unknowns);
                    &&& components_over(sccs, sys.unknowns)
                    &&& covers(sccs, sys.unknowns)
                    &&& c.bound_spec().bound() == eval_m(p.bound, solution_m(sys, sccs))
                    &&& c.stats_spec().scc_count == sccs.len()
                    &&& c.stats_spec().widening_fires == solve_all_m(
                        sys.constraints,
                        zeros(sys.unknowns),
                        sccs,
                    ).2
                })
            },
        },
{
    let mut checker = Checker { system: ConstraintSystem::new() };
    let env = Env::new();
    assert(checker.system.constraint_seq() =~= Seq::empty());
    let partial = match checker.infer(term, &env) {
        Ok(p) => p,
        Err(e) => return Err(e),
    };
    let output = solve(&checker.system);
    let pending = PendingGrade::<CheckedWitness>::new(partial.bound.duplicate());
    let certified = pending.certify(&output.certificate);
    let ghost sys = SysM {
        unknowns: checker.system.unknowns(),
        constraints: checker.system.constraint_seq(),
    };
    proof {
        let sccs = sccs_m(sys.constraints, sys.unknowns);
        assert(certified.bound() == eval_m(partial@.bound, solution_m(sys, sccs)));
    }
    Ok(CheckedWitness::new(partial, certified, output.stats))
}

} // verus!
