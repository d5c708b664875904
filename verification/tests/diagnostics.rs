use lib::check::error::{TypeError, TypeErrorKind};
use lib::diagnostics::{render_source_error, render_type_error, ExitCode, SourceError};
use lib::elaborate::error::ElaborateError;
use lib::elaborate::lowering::SpanTable;
use lib::surface::ast::Span;
use lib::surface::parser::parse_program;

#[test]
fn exit_codes_are_zero_one_two() {
    assert_eq!(ExitCode::Success.code(), 0);
    assert_eq!(ExitCode::Diagnostics.code(), 1);
    assert_eq!(ExitCode::Internal.code(), 2);
}

#[test]
fn parse_error_is_rendered_with_line_and_caret() {
    let src = "effect L { op(x: Nat) -> Nat }\nfn main() -> Nat = if 1 { 1 } else { 0 }\n";
    let err = parse_program(src).err().expect("unsupported construct");
    assert_eq!((err.span.start, err.span.end), (50, 52));
    let rendered = render_source_error("t.atli", src, &err);
    let expected = format!(
        "error: {}\n --> t.atli:2:20\n  |\n 2 | fn main() -> Nat = if 1 {{ 1 }} else {{ 0 }}\n  |                    ^^\n",
        err.message
    );
    assert_eq!(rendered, expected);
}

#[test]
fn reused_unique_value_gets_a_note_at_the_first_use() {
    let src = "let a a\n";
    let err = ElaborateError {
        span: Span::new(6, 7),
        message: "cannot use `a`: consumed here -> bytes 4..5; used again here -> bytes 6..7"
            .to_string(),
    };
    assert_eq!(err.message(), "cannot use `a`: consumed here; used again here");
    let secondary = err.secondary_span().expect("first use");
    assert_eq!((secondary.0.start, secondary.0.end), (4, 5));
    assert_eq!(secondary.1, "first consumption here");
    let rendered = render_source_error("u.atli", src, &err);
    assert_eq!(
        rendered,
        "error: cannot use `a`: consumed here; used again here\n --> u.atli:1:7\n  |\n 1 | let a a\n  |       ^\n\
         note: first consumption here\n --> u.atli:1:5\n  |\n 1 | let a a\n  |     ^\n"
    );
}

#[test]
fn plain_elaboration_message_is_kept() {
    let err = ElaborateError { span: Span::new(0, 0), message: "expected `fn main`".to_string() };
    assert_eq!(err.message(), "expected `fn main`");
    assert!(err.secondary_span().is_none());
    let rendered = render_source_error("e.atli", "", &err);
    assert_eq!(rendered, "error: expected `fn main`\n --> e.atli:1:1\n  |\n 1 | \n  | ^\n");
}

#[test]
fn caret_is_clamped_to_the_line() {
    let src = "ab\ncd\n";
    let err = ElaborateError { span: Span::new(4, 40), message: "m".to_string() };
    let rendered = render_source_error("c.atli", src, &err);
    assert_eq!(rendered, "error: m\n --> c.atli:2:2\n  |\n 2 | cd\n  |  ^\n");
}

#[test]
fn type_error_without_recorded_span_points_at_the_start() {
    let err = TypeError {
        rule: "Succ",
        section: "§4.2",
        term: "succ(())".to_string(),
        message: "expected Nat".to_string(),
        kind: Box::new(TypeErrorKind::Solver("x".to_string())),
    };
    let rendered = render_type_error("t.atli", "fn main() -> Nat = 0\n", &err, &SpanTable::new());
    assert_eq!(
        rendered,
        format!("error: {}\n --> t.atli:1:1\n  |\n 1 | fn main() -> Nat = 0\n  | ^\n", err.to_text())
    );
}

#[test]
fn line_numbers_of_two_digits_are_not_padded() {
    let mut src = String::new();
    for _ in 0..11 {
        src.push_str("x\n");
    }
    let err = ElaborateError { span: Span::new(20, 21), message: "m".to_string() };
    let rendered = render_source_error("l.atli", &src, &err);
    assert_eq!(rendered, "error: m\n --> l.atli:11:1\n  |\n11 | x\n  | ^\n");
}
