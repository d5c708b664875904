use lib::grade::{Bound, Eff, Label, Region, Q};

const QS: [Q; 3] = [Q::Zero, Q::One, Q::Omega];
const BS: [Bound; 4] = [
    Bound::Finite(0),
    Bound::Finite(1),
    Bound::Finite(7),
    Bound::Omega,
];

#[test]
fn q_addition_and_multiplication_tables_match_spec() {
    assert_eq!(Q::One.add(Q::One), Q::Omega, "1 + 1 = ω, calculus.md §2.1");
    assert_eq!(Q::Omega.mul(Q::Zero), Q::Zero);
    assert_eq!(Q::Omega.mul(Q::One), Q::Omega);
}

#[test]
fn q_semiring_laws_hold_on_finite_carrier() {
    for a in QS {
        assert_eq!(a.add(Q::Zero), a);
        assert_eq!(Q::Zero.add(a), a);
        assert_eq!(a.mul(Q::One), a);
        assert_eq!(Q::One.mul(a), a);
        assert_eq!(a.mul(Q::Zero), Q::Zero);
        assert_eq!(Q::Zero.mul(a), Q::Zero);
        for b in QS {
            assert_eq!(a.add(b), b.add(a));
            for c in QS {
                assert_eq!(a.add(b).add(c), a.add(b.add(c)));
                assert_eq!(a.mul(b).mul(c), a.mul(b.mul(c)));
                assert_eq!(a.mul(b.add(c)), a.mul(b).add(a.mul(c)));
            }
        }
    }
}

#[test]
fn effect_join_laws_hold() {
    let empty = Eff::empty();
    let l = Eff::singleton(Label::L());
    assert_eq!(empty.join(&l), l);
    assert_eq!(l.join(&empty), l);
    assert_eq!(l.join(&l), l, "idempotent union, calculus.md §2.2");
    assert!(empty.is_subset(&l));
    assert_eq!(l.without(Label::L()), empty);
}

#[test]
fn bound_operations_match_spec() {
    assert_eq!(
        Bound::Finite(1).sequential(Bound::Finite(2)),
        Bound::Finite(3)
    );
    assert_eq!(Bound::Finite(2).join(Bound::Finite(7)), Bound::Finite(7));
    assert_eq!(Bound::Omega.sequential(Bound::Finite(1)), Bound::Omega);
    assert_eq!(Bound::Omega.join(Bound::Finite(1)), Bound::Omega);
}

#[test]
fn bound_monoid_and_join_laws_hold_on_samples() {
    for a in BS {
        assert_eq!(a.sequential(Bound::ZERO()), a);
        assert_eq!(Bound::ZERO().sequential(a), a);
        assert_eq!(a.join(Bound::ZERO()), a);
        assert_eq!(a.join(a), a);
        for b in BS {
            assert_eq!(a.join(b), b.join(a));
            for c in BS {
                assert_eq!(a.sequential(b).sequential(c), a.sequential(b.sequential(c)));
                assert_eq!(a.join(b).join(c), a.join(b.join(c)));
            }
        }
    }
}

#[test]
fn region_single_arena_laws_are_trivial() {
    let r = Region::Arena;
    assert_eq!(r.meet(r), r);
    assert!(r.outlives(r));
}

#[test]
fn sequential_saturates_at_omega_instead_of_overflowing() {
    assert_eq!(Bound::Finite(u32::MAX).sequential(Bound::Finite(1)), Bound::Omega);
    assert_eq!(Bound::Finite(u32::MAX - 1).sequential(Bound::Finite(1)), Bound::Finite(u32::MAX));
}

#[test]
fn bound_finite_views_round_trip() {
    assert_eq!(Bound::finite(5).as_finite(), Some(5));
    assert_eq!(Bound::Omega.as_finite(), None);
    assert!(Bound::ZERO().is_finite());
    assert!(!Bound::Omega.is_finite());
}

#[test]
fn effect_rows_list_labels_once_and_answer_membership() {
    let a = Label::intern("A");
    let b = Label::intern("B");
    let row = Eff::singleton(a).join(&Eff::singleton(b)).join(&Eff::singleton(a));
    assert_eq!(row.labels().len(), 2);
    assert!(row.contains(a));
    assert!(row.contains(b));
    assert!(!row.contains(Label::L()));
    assert!(!row.is_empty());
    assert!(Eff::empty().is_empty());
    assert_eq!(row.without(a), Eff::singleton(b));
    assert_eq!(Label::intern("A").name(), "A");
}

#[test]
fn effect_rows_list_labels_in_ascending_order() {
    let row = Eff::singleton(Label::intern("Zed"))
        .join(&Eff::singleton(Label::intern("Alpha")))
        .join(&Eff::singleton(Label::intern("Mid")));
    let names: Vec<&str> = row.labels().iter().map(|l| l.name()).collect();
    assert_eq!(names, vec!["Alpha", "Mid", "Zed"]);
    assert_eq!(row.to_text(), "{Alpha,Mid,Zed}");
    assert_eq!(Eff::empty().to_text(), "∅");
    assert_eq!(Eff::singleton(Label::L()).to_text(), "{L}");
}
