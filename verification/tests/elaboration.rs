use lib::core_ast::Term;
use lib::elaborate::program::{elaborate_program, ElaboratedProgram};
use lib::interp::{eval, Outcome};
use lib::surface::parser::parse_program;

fn elaborate(src: &str) -> ElaboratedProgram {
    let parsed = parse_program(src).ok().expect("parse");
    elaborate_program(&parsed).ok().expect("elaborate")
}

fn elaboration_error(src: &str) -> (usize, usize, String) {
    let parsed = parse_program(src).ok().expect("parse");
    let err = elaborate_program(&parsed).err().expect("elaboration error");
    (err.span.start, err.span.end, err.message)
}

fn value_of(term: Term) -> String {
    let report = eval(term, 4096, false);
    assert_eq!(report.outcome, Outcome::Value);
    report.final_term.to_text()
}

#[test]
fn arithmetic_prelude_injects_only_used_functions() {
    let plain = elaborate("fn main() -> Nat = 3\n");
    assert!(plain.prelude.is_empty());
    assert!(!plain.term.to_text().contains("__atli_add"));

    let arith = elaborate("fn main() -> Nat = (7 - 2) * 2 + 4\n");
    assert_eq!(arith.prelude, vec!["__atli_pred", "__atli_add", "__atli_sub", "__atli_mul"]);
    let core = arith.term.to_text();
    assert!(core.contains("__atli_add"));
    assert!(core.contains("__atli_sub"));
    assert!(core.contains("__atli_mul"));
    assert_eq!(value_of(arith.term), Term::natural(14).to_text());
}

#[test]
fn multiplication_brings_addition_and_subtraction_brings_predecessor() {
    let mul = elaborate("fn main() -> Nat = 2 * 3\n");
    assert_eq!(mul.prelude, vec!["__atli_add", "__atli_mul"]);
    assert_eq!(value_of(mul.term), Term::natural(6).to_text());
    let sub = elaborate("fn main() -> Nat = 2 - 3\n");
    assert_eq!(sub.prelude, vec!["__atli_pred", "__atli_sub"]);
    assert_eq!(value_of(sub.term), Term::natural(0).to_text());
}

#[test]
fn functions_are_let_bound_around_main() {
    let program = elaborate("fn twice(n: Nat) -> Nat = n + n\nfn main() -> Nat = twice(4)\n");
    assert_eq!(program.main.to_text(), Term::App(Box::new(Term::var("twice")), Box::new(Term::natural(4))).to_text());
    assert!(program.term.to_text().contains("twice"));
    assert_eq!(value_of(program.term), Term::natural(8).to_text());
}

#[test]
fn self_recursive_function_becomes_fix() {
    let program = elaborate(
        "fn down(n: Nat) -> Nat = case n { 0 -> 0; p -> down(p) }\nfn main() -> Nat = down(3)\n",
    );
    assert!(program.term.to_text().contains("fix"));
    assert_eq!(value_of(program.term), Term::natural(0).to_text());
}

#[test]
fn mutually_recursive_functions_become_a_group() {
    let program = elaborate(
        "fn even(n: Nat) -> Nat measure n = case n { 0 -> 1; p -> odd(p) }\n\
         fn odd(n: Nat) -> Nat measure n = case n { 0 -> 0; p -> even(p) }\n\
         fn main() -> Nat = even(4)\n",
    );
    assert_eq!(value_of(program.term), Term::natural(1).to_text());
}

#[test]
fn missing_main_is_reported_at_the_start() {
    assert_eq!(
        elaboration_error("fn f() -> Nat = 0\n"),
        (0, 0, "expected `fn main`".to_string())
    );
}

#[test]
fn main_must_take_no_parameters() {
    assert_eq!(
        elaboration_error("fn main(n: Nat) -> Nat = n\n"),
        (3, 7, "`main` must take no parameters".to_string())
    );
}

#[test]
fn effect_operation_must_be_named_op() {
    let (_, _, message) = elaboration_error("effect L { go(x: Nat) -> Nat }\nfn main() -> Nat = 0\n");
    assert_eq!(message, "reduced core supports only operation name `op`");
}

#[test]
fn recursive_functions_must_be_unary_on_nat() {
    let (_, _, message) =
        elaboration_error("fn f(a: Nat, b: Nat) -> Nat = f(a, b)\nfn main() -> Nat = 0\n");
    assert_eq!(message, "recursive reduced-core functions must be unary `Nat -> ...`");
}

#[test]
fn unbound_variable_in_main_is_reported() {
    let (_, _, message) = elaboration_error("fn main() -> Nat = y\n");
    assert_eq!(message, "unbound surface variable `y`");
}

#[test]
fn spans_of_lowered_terms_are_recorded() {
    let program = elaborate("fn main() -> Nat = 3\n");
    let three = Term::natural(3).to_text();
    let span = program.spans.span_for_term_string(three.as_str()).expect("span of main's body");
    assert_eq!((span.start, span.end), (19, 20));
}
