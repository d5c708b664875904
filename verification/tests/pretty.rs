use lib::elaborate::program::elaborate_program;
use lib::surface::parser::parse_program;
use lib::surface::pretty::pretty_program;

const SOURCES: [&str; 5] = [
    "fn main() -> Nat = 1 + 2 * 3\n",
    "fn down(n: Nat) -> Nat = case n { 0 -> 0; p -> down(p) }\nfn main() -> Nat = down(3)\n",
    "effect L { op(x: Nat) -> Nat }\nfn main() -> Nat = handle L.op(1) { return(x) -> x; L.op(p), k -> k(p) }\n",
    "fn even(n: Nat) -> Nat measure n = case n { 0 -> 1; p -> odd(p) }\nfn odd(n: Nat) -> Nat measure n = case n { 0 -> 0; p -> even(p) }\nfn main() -> Nat = even(4)\n",
    "fn twice(n: Nat) -> Nat = { m = n + n; m }\nfn main() -> Nat = 3 |> twice\n",
];

#[test]
fn pretty_prints_declarations_with_blank_lines() {
    let parsed = parse_program("fn main() -> Nat = 1 + 2\n").ok().expect("parse");
    assert_eq!(pretty_program(&parsed), "fn main() -> Nat = (1 + 2)\n\n");
}

#[test]
fn pretty_prints_effects_handlers_and_cases() {
    let parsed = parse_program(SOURCES[2]).ok().expect("parse");
    assert_eq!(
        pretty_program(&parsed),
        "effect L { op(x: Nat) -> Nat }\n\nfn main() -> Nat = handle L.op(1) { return(x) -> x; L.op(p), k -> k(p) }\n\n"
    );
    let parsed = parse_program(SOURCES[1]).ok().expect("parse");
    assert_eq!(
        pretty_program(&parsed),
        "fn down(n: Nat) -> Nat = case n { 0 -> 0; p -> down(p) }\n\nfn main() -> Nat = down(3)\n\n"
    );
}

#[test]
fn pretty_prints_measures_blocks_and_pipes() {
    let parsed = parse_program(SOURCES[4]).ok().expect("parse");
    assert_eq!(
        pretty_program(&parsed),
        "fn twice(n: Nat) -> Nat = { m = (n + n); m }\n\nfn main() -> Nat = 3 |> twice\n\n"
    );
    let parsed = parse_program(SOURCES[3]).ok().expect("parse");
    assert!(pretty_program(&parsed).starts_with("fn even(n: Nat) -> Nat measure n = case n"));
}

#[test]
fn pretty_reparse_elaboration_is_stable() {
    for src in SOURCES {
        let parsed = parse_program(src).ok().expect("parse");
        let pretty = pretty_program(&parsed);
        let reparsed = parse_program(&pretty).ok().expect("reparse pretty output");
        let first = elaborate_program(&parsed).ok().expect("first elaboration");
        let second = elaborate_program(&reparsed).ok().expect("second elaboration");
        assert_eq!(first.term.to_text(), second.term.to_text(), "{src}");
    }
}
