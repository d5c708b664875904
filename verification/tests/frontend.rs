use lib::surface::lexer::{lex, TokenKind};

#[test]
fn lexer_tokens_include_spans_and_comments_are_ignored() {
    let tokens = lex("// hi\nfn main() -> Nat = 0\n").ok().expect("lex");
    assert!(matches!(tokens[0].kind, TokenKind::Fn));
    assert_eq!(tokens[0].span.start, 6);
    assert!(tokens.iter().any(|token| matches!(token.kind, TokenKind::Arrow)));
}

#[test]
fn lexer_reads_numbers_with_separators_and_keywords() {
    let tokens = lex("case 1_000 |> x_1 handle").ok().expect("lex");
    assert!(matches!(tokens[0].kind, TokenKind::Case));
    assert!(matches!(tokens[1].kind, TokenKind::Number(1000)));
    assert_eq!((tokens[1].span.start, tokens[1].span.end), (5, 10));
    assert!(matches!(tokens[2].kind, TokenKind::PipeGt));
    assert!(matches!(&tokens[3].kind, TokenKind::Ident(name) if name == "x_1"));
    assert!(matches!(tokens[4].kind, TokenKind::Handle));
    assert!(matches!(tokens[5].kind, TokenKind::Eof));
    assert_eq!((tokens[5].span.start, tokens[5].span.end), (24, 24));
}

#[test]
fn lexer_rejects_reserved_and_unknown_characters() {
    let err = lex("fn < 1").err().expect("reserved");
    assert_eq!(err.message, "`<` is not yet in the reduced surface");
    assert_eq!((err.span.start, err.span.end), (3, 4));
    let err = lex("a ? b").err().expect("unknown");
    assert_eq!(err.message, "unexpected character `?`");
    let err = lex("99999999999999999999").err().expect("too large");
    assert_eq!(err.message, "Nat literal is too large");
    assert_eq!((err.span.start, err.span.end), (0, 20));
    let err = lex("é").err().expect("non-ascii");
    assert_eq!((err.span.start, err.span.end), (0, 2));
}

use lib::surface::parser::parse_program;

#[test]
fn parser_reports_reduced_surface_unsupported_constructs() {
    let err = parse_program("fn main() -> Nat = if 1 { 1 } else { 0 }").err().expect("unsupported if");
    assert!(err.message.contains("not yet in the reduced surface"));
    assert_eq!(err.span.start, 19);
}

#[test]
fn parser_reads_functions_effects_and_handlers() {
    let src = "effect L { op(x: Nat) -> Nat }\n\
               pub fn twice(n: Nat) -> Nat = n + n * 2\n\
               fn main() -> Nat ! {L} = handle L.op(1) |> twice { return(r) -> r; L.op(p), k -> k(p) }\n";
    let program = parse_program(src).ok().expect("parse");
    assert_eq!(program.decls.len(), 3);
}

#[test]
fn parser_rejects_type_declarations_and_stray_tokens() {
    let err = parse_program("type T = Nat").err().expect("type decl");
    assert_eq!(err.message, "type declarations are not yet in the reduced surface");
    assert_eq!(err.span.start, 0);
    let err = parse_program("fn main() -> Nat = )").err().expect("stray");
    assert_eq!(err.message, "expected expression");
    let err = parse_program("fn main() -> Nat = 1 < 2").err().expect("lex error");
    assert_eq!(err.message, "`<` is not yet in the reduced surface");
}
