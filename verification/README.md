# lib — the front end of a small compiled language, verified

The library splits source text into tokens, reads them into syntax trees
kept in arenas of a `Context`, resolves every name to the object it stands
for, and checks and infers types. Each stage is an executable function whose
contract is a spec function of the same stage (`lex`, `sp_module`,
`sr_module`, `tc_module`); Verus proves that the code computes exactly what
the spec function says, error messages included.

Where a stage meets an input it does not handle (an assignment during name
resolution, a struct declaration, a function without a body, a tree with a
cycle, ...) it stops with a *fault*; the `try_*` functions return faults, and the functions
without `try_` require inputs on which no fault can arise.

Layout:

- `src/text.rs` — decimal and string helpers.
- `src/lexer.rs` — tokens, the lexer, and what the token stream says of the text.
- `src/parser.rs` — syntax tree nodes, their views, the grammar as spec
  functions, and the parser.
- `src/ordering.rs` — parsed trees refer only to earlier nodes, so they have
  no cycles; name resolution and type checking handle any tree without
  cycles, whatever the order of its ids.
- `src/resolver.rs` — the `Context` (arenas, objects, types, references) and
  the whole pipeline for one module.
- `src/symbols.rs` — objects, types, scopes, and name resolution.
- `src/type_checker.rs` — type checking and literal type inference.
- `src/type_check.rs` — how untyped numeric types meet typed ones.
- `src/utils.rs` — valid names.
- `app/main.rs` — reads `main.gala` and runs the pipeline on it.
