# Atli, verified

A small functional language whose type checker computes the frame allocation of native
code, written in Verus: every function of the library carries a contract over a
mathematical model of its data, and Verus proves that the code meets it.

```text
source → lex → parse → elaborate → check (β certificate) → interpret
```

## Layout

- `src/grade.rs` — the grade algebra: usage semiring, effect rows, bounds, regions.
- `src/core_ast.rs`, `src/core_text.rs` — core terms, their models and concrete syntax.
- `src/interp.rs` — the small-step reference interpreter.
- `src/check/` — the graded checker and its boundedness constraint solver.
- `src/gen/` — witness derivation, continuation-usage facts and the term generator.
- `src/surface/` — lexer, the grammar as spec functions on tokens, the parser proved to compute it, and the pretty-printer of the surface language.
- `src/elaborate/` — uniqueness rules, lowering to core terms, whole-program elaboration.
- `src/diagnostics.rs` — errors rendered against the source.
- `src/codegen.rs` — the certified frame arena for native code.
- `src/cli.rs` — the decisions of the command line: values, example directives, verdicts.
- `tests/` — tests of the library.
- `app/` — the `atli` command line: file and process I/O around the library.
