# kermlc

A KerML front end and kernel engine, verified with Verus, together with the tooling
that indexes the KerML specification for tool clients.

## Layout

- `src/` — the verified library.
  - `lexer`, `parser`, `ast`: tokens and the recursive-descent parser with error recovery.
  - `lower`: the parse result turned into the semantic model (`hir`), which also keeps
    the memberships made between namespaces and their members.
  - `direction`: the direction of a feature as seen from a type, through
    specializations and conjugations.
  - `decl_count`: how many definitions a parse declares, which bounds what lowering
    numbers.
  - `scope`, `resolve`: name resolution, reports for what stays unresolved, and the
    detection of specialization cycles.
  - `typeck`: inherited features through specialization and conjugation, and named
    conjugation declarations.
  - `validate`: the semantic checks (multiplicities, conjugation targets, duplicates,
    redefinitions).
  - `pipeline`, `compile_source` (in `lib.rs`): the resolution and type checking fixpoint
    and the full compilation of one source text.
  - `serial`: the JSON-LD elements of a compiled model.
  - `spec_mcp`: the index of the KerML specification (clauses, figures, BNF productions,
    implementation lookups) served by the `spec-mcp` command.
- `tests/` — the test suite.
- `app/` — the `kermlc` command line: file I/O, diagnostic rendering, JSON output and the
  stdio tool server.
