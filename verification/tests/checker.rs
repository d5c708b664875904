use lib::check::check;
use lib::core_ast::{CoverageTag, Handler, OpClause, RecursionTag, Term, Type};
use lib::grade::{Bound, Label};

fn nat_fix(tag: RecursionTag, body: Term) -> Term {
    Term::Fix {
        func: "f".into(),
        param: "x".into(),
        param_ty: Type::Nat,
        body: Box::new(body),
        tag,
    }
}

#[test]
fn strict_structural_descent_is_finite() {
    let fix = nat_fix(
        RecursionTag::StructuralDescent,
        Term::CaseNat {
            scrutinee: Box::new(Term::var("x")),
            zero_body: Box::new(Term::zero()),
            succ_var: "pred".into(),
            succ_body: Box::new(Term::App(Box::new(Term::var("f")), Box::new(Term::var("pred")))),
        },
    );
    let checked = check(&Term::App(Box::new(fix), Box::new(Term::natural(3)))).expect("accepted");
    assert_eq!(checked.witness().ty, Type::Nat);
    assert!(checked.witness().bound.is_finite());
    assert!(checked.witness().coverage.contains(CoverageTag::FixStructural));
}

#[test]
fn unbound_variable_is_reported_with_its_name() {
    let err = check(&Term::var("nowhere")).expect_err("unbound");
    assert_eq!(err.rule, "Var");
    assert_eq!(err.section, "§4.1");
    assert_eq!(err.message, "unbound variable `nowhere`");
    assert_eq!(err.term, "nowhere");
    assert_eq!(err.to_text(), "Var §4.1 rejected `nowhere`: unbound variable `nowhere`");
}

#[test]
fn applying_a_number_is_not_a_function() {
    let err = check(&Term::App(Box::new(Term::zero()), Box::new(Term::zero()))).expect_err("not a function");
    assert_eq!(err.rule, "App");
    assert_eq!(err.message, "expected function, found Nat");
}

#[test]
fn resuming_a_number_is_not_a_continuation() {
    let err = check(&Term::Resume {
        kont: Box::new(Term::zero()),
        arg: Box::new(Term::zero()),
    })
    .expect_err("not a continuation");
    assert_eq!(err.rule, "Resume");
    assert_eq!(err.message, "expected continuation, found Nat");
}

#[test]
fn handled_perform_counts_one_resumed_continuation() {
    let handler = Handler::single(
        "r".into(),
        Box::new(Term::var("r")),
        OpClause {
            op_label: Label::L(),
            op_param: "p".into(),
            op_k: "k".into(),
            op_body: Box::new(Term::Resume {
                kont: Box::new(Term::var("k")),
                arg: Box::new(Term::var("p")),
            }),
        },
    );
    let term = Term::Handle {
        body: Box::new(Term::Perform(Label::L(), Box::new(Term::natural(1)))),
        handler,
    };
    let checked = check(&term).expect("accepted");
    let w = checked.witness();
    assert!(w.effects.is_empty());
    assert_eq!(w.continuation_uses.introduced, 1);
    assert_eq!(w.continuation_uses.resumed, 1);
    assert_eq!(w.continuation_uses.dropped, 0);
    assert!(w.coverage.contains(CoverageTag::HandleResuming));
    assert_eq!(w.bound, Bound::ZERO());
}

#[test]
fn unhandled_perform_keeps_its_label_in_the_row() {
    let checked = check(&Term::Perform(Label::L(), Box::new(Term::zero()))).expect("accepted");
    assert!(checked.witness().effects.contains(Label::L()));
    assert_eq!(checked.witness().bound, Bound::ZERO());
}

#[test]
fn fix_group_with_unknown_entry_is_malformed() {
    let term = Term::FixGroup { bindings: Vec::new(), entry: "main".into() };
    let err = check(&term).expect_err("empty group");
    assert_eq!(err.rule, "FixGroup");
    assert_eq!(err.message, "fix* entry `main` is not a member of the binding group");
}

#[test]
fn rendering_of_terms_and_types() {
    let t = Term::Lam {
        param: "x".into(),
        param_ty: Type::Arrow(Box::new(Type::Nat), Box::new(Type::Unit)),
        body: Box::new(Term::succ(Term::var("x"))),
    };
    assert_eq!(t.to_text(), "(λx:(Nat -> Unit). succ(x))");
    assert_eq!(Term::natural(2).to_text(), "succ(succ(zero))");
}
