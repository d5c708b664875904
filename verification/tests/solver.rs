use lib::check::solve::{solve, BoundExpr, ConstraintSystem, PendingGrade};
use lib::grade::Bound;

#[test]
fn solver_handles_multi_node_scc() {
    let mut system = ConstraintSystem::new();
    let a = system.fresh_unknown();
    let b = system.fresh_unknown();
    system.constrain(
        a,
        BoundExpr::unknown(b).join(BoundExpr::constant(Bound::finite(1))),
    );
    system.constrain(b, BoundExpr::unknown(a));
    let solved = solve(&system);
    assert_eq!(solved.certificate.value(a), Bound::finite(1));
    assert_eq!(solved.certificate.value(b), Bound::finite(1));
    assert!(solved.stats.scc_sizes.contains(&2));
}

#[test]
fn solver_widens_growing_cycle_to_omega() {
    let mut system = ConstraintSystem::new();
    let a = system.fresh_unknown();
    system.constrain(
        a,
        BoundExpr::unknown(a).seq(BoundExpr::constant(Bound::finite(1))),
    );
    let solved = solve(&system);
    assert_eq!(solved.certificate.value(a), Bound::Omega);
    assert!(solved.stats.widening_fires > 0);
}

#[test]
fn solver_golden_multi_node_scc_converges() {
    let mut system = ConstraintSystem::new();
    let a = system.fresh_unknown();
    let b = system.fresh_unknown();
    system.constrain(
        a,
        BoundExpr::unknown(b).join(BoundExpr::constant(Bound::finite(2))),
    );
    system.constrain(b, BoundExpr::unknown(a));
    let solved = solve(&system);
    assert_eq!(solved.certificate.value(a), Bound::finite(2));
    assert_eq!(solved.certificate.value(b), Bound::finite(2));
    assert!(solved.stats.scc_sizes.contains(&2));
}

#[test]
fn solver_golden_widening_fires_for_growing_cycle() {
    let mut system = ConstraintSystem::new();
    let a = system.fresh_unknown();
    system.constrain(
        a,
        BoundExpr::unknown(a).seq(BoundExpr::constant(Bound::finite(1))),
    );
    let solved = solve(&system);
    assert_eq!(solved.certificate.value(a), Bound::Omega);
    assert!(solved.stats.widening_fires > 0);
}

#[test]
fn unconstrained_unknown_solves_to_zero_and_counts() {
    let mut system = ConstraintSystem::new();
    assert!(system.is_empty());
    let a = system.fresh_unknown();
    assert_eq!(system.len(), 1);
    assert!(system.constraints().is_empty());
    let solved = solve(&system);
    assert_eq!(solved.certificate.value(a), Bound::ZERO());
}

#[test]
fn acyclic_chain_is_solved_dependents_first() {
    let mut system = ConstraintSystem::new();
    let a = system.fresh_unknown();
    let b = system.fresh_unknown();
    system.constrain(b, BoundExpr::constant(Bound::finite(3)));
    system.constrain(
        a,
        BoundExpr::unknown(b).seq(BoundExpr::constant(Bound::finite(2))),
    );
    let solved = solve(&system);
    assert_eq!(solved.certificate.value(b), Bound::finite(3));
    // Components are processed in reverse Tarjan order, so `a` reads `b` before `b` is solved.
    assert_eq!(solved.certificate.value(a), Bound::finite(2));
    assert_eq!(solved.stats.widening_fires, 0);
    assert_eq!(solved.stats.scc_count, 2);
}

#[test]
fn pending_grade_certifies_against_solution() {
    let mut system = ConstraintSystem::new();
    let a = system.fresh_unknown();
    system.constrain(a, BoundExpr::constant(Bound::finite(4)));
    let solved = solve(&system);
    let pending: PendingGrade<()> =
        PendingGrade::new(BoundExpr::unknown(a).join(BoundExpr::constant(Bound::finite(6))));
    assert_eq!(pending.certify(&solved.certificate).get(), Bound::finite(6));
    let expr = BoundExpr::unknown(a).seq(BoundExpr::constant(Bound::finite(1)));
    assert_eq!(expr.eval(&solved.certificate), Bound::finite(5));
}
