use lib::cli::{
    check_error_verdict, compiled_verdict, expects_nothing, nat_value, ok_line, oracle_verdict,
    parse_test_directives, render_value, test_plan,
};
use lib::codegen::{contains_effect_syntax, CertifiedArena};
use lib::check::check;
use lib::core_ast::Term;
use lib::elaborate::program::elaborate_program;
use lib::grade::Label;
use lib::surface::parser::parse_program;

#[test]
fn directives_are_read_from_leading_comments() {
    let src = "// expect: 55\n\n  // env: ATLI_MAX_ITERS=5\n//expect-compiled: 7\r\nfn main() -> Nat = 0\n// expect-oracle: 9\n";
    let d = parse_test_directives(src);
    assert_eq!(d.expect.as_deref(), Some("55"));
    assert_eq!(d.expect_compiled.as_deref(), Some("7"));
    assert_eq!(d.expect_oracle, None);
    assert_eq!(d.env, vec![("ATLI_MAX_ITERS".to_string(), "5".to_string())]);
    assert!(!expects_nothing(&d));
}

#[test]
fn file_without_directives_expects_nothing() {
    let d = parse_test_directives("fn main() -> Nat = 0\n// expect: 1\n");
    assert!(expects_nothing(&d));
    let d = parse_test_directives("// expect-check-error: extra-mention\n");
    assert_eq!(d.expect_check_error.as_deref(), Some("extra-mention"));
}

#[test]
fn check_error_verdicts() {
    assert_eq!(
        check_error_verdict("w.atli", "extra-mention", 0, "", ""),
        Err("w.atli: expected check failure containing `extra-mention`".to_string())
    );
    assert_eq!(
        check_error_verdict("w.atli", "extra-mention", 1, "", "other"),
        Err("w.atli: diagnostic did not contain `extra-mention`\nother".to_string())
    );
    assert_eq!(
        check_error_verdict("w.atli", "extra-mention", 1, "", "Handle extra-mention"),
        Ok("ok w.atli check-error".to_string())
    );
}

#[test]
fn run_verdicts_compare_trimmed_output() {
    assert_eq!(oracle_verdict("f.atli", "55\n", 0, "55\n", ""), None);
    assert_eq!(
        oracle_verdict("f.atli", "55", 2, "54 \n", "boom\n"),
        Some("f.atli: oracle expected `55`, got status 2 stdout `54` stderr `boom`".to_string())
    );
    assert_eq!(compiled_verdict("g.atli", "budget", 0, "x\n", "budget exhausted\n"), None);
    assert_eq!(
        compiled_verdict("g.atli", "3", -1, "3\n", ""),
        Some("g.atli: compiled expected `3`, got status -1 stdout `3` stderr ``".to_string())
    );
}

#[test]
fn ok_line_is_withheld_after_a_failure_of_the_same_file() {
    assert_eq!(ok_line("a.atli", None), Some("ok a.atli".to_string()));
    assert_eq!(ok_line("a.atli", Some("a.atli: oracle expected")), None);
    assert_eq!(ok_line("b.atli", Some("a.atli: oracle expected")), Some("ok b.atli".to_string()));
}

#[test]
fn values_render_as_numbers() {
    assert_eq!(nat_value(&Term::natural(12)), Some(12));
    assert_eq!(render_value(&Term::natural(7)), "7");
    assert_eq!(nat_value(&Term::unit()), None);
    assert_eq!(render_value(&Term::unit()), "()");
}

#[test]
fn effect_syntax_is_found_under_binders() {
    let pure = Term::App(Box::new(Term::var("f")), Box::new(Term::natural(1)));
    assert!(!contains_effect_syntax(&pure));
    let perform = Term::Lam {
        param: "x".to_string(),
        param_ty: lib::core_ast::Type::Nat,
        body: Box::new(Term::Perform(Label::L(), Box::new(Term::var("x")))),
    };
    assert!(contains_effect_syntax(&perform));
}

#[test]
fn arena_has_exactly_the_certified_slots() {
    let parsed = parse_program("fn main() -> Nat = 3\n").ok().expect("parse");
    let elaborated = elaborate_program(&parsed).ok().expect("elaborate");
    let checked = check(&elaborated.term).ok().expect("check");
    let arena = CertifiedArena::from_checked(&checked).ok().expect("arena");
    match checked.certified_bound().get() {
        lib::grade::Bound::Finite(beta) => assert_eq!(arena.slots(), beta),
        lib::grade::Bound::Omega => assert_eq!(arena.slots(), 64),
    }
}

#[test]
fn span_listing_is_ordered_by_term() {
    let parsed = parse_program("fn main() -> Nat = 2 + 1\n").ok().expect("parse");
    let elaborated = elaborate_program(&parsed).ok().expect("elaborate");
    let lines = elaborated.spans.debug_lines();
    assert!(!lines.is_empty());
    let terms: Vec<&str> = lines.iter().map(|l| l.split(" => ").nth(1).unwrap()).collect();
    let mut sorted = terms.clone();
    sorted.sort();
    assert_eq!(terms, sorted);
    assert!(lines.iter().any(|l| l.starts_with("19..24 => ")));
}

#[test]
fn test_plan_prefers_specific_expectations() {
    let d = parse_test_directives("// expect: 55
//expect-compiled: 7
fn main() -> Nat = 0
");
    let plan = test_plan(&d);
    assert_eq!(plan.check_error, None);
    assert_eq!(plan.oracle.as_deref(), Some("55"));
    assert_eq!(plan.compiled.as_deref(), Some("7"));
    let d = parse_test_directives("// expect-check-error: extra-mention
// expect: 1
");
    let plan = test_plan(&d);
    assert_eq!(plan.check_error.as_deref(), Some("extra-mention"));
    assert_eq!(plan.oracle, None);
    assert_eq!(plan.compiled, None);
}
