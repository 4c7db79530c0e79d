# cilantro

A compiler for a small scripting language to WebAssembly text (`.wat`) for WASI, written in
Verus: every stage states what it computes in its contract, and Verus proves it.

- `src/lexer.rs`: the token stream of a source, byte by byte.
- `src/grammar.rs`, `src/productions.rs`, `src/follows.rs`, `src/table.rs`, `src/bits.rs`: the
  grammar, its FOLLOWS sets and the SLR(1) parse table.
- `src/parser.rs`, `src/tree.rs`: the table-driven parser and the concrete syntax tree;
  `src/budget.rs`: the proof that the parser's step budget suffices on the language's tables.
- `src/trim.rs`, `src/scope.rs`, `src/extract.rs`, `src/ast.rs`, `src/typecheck.rs`,
  `src/stdlib.rs`: the semantic passes and the abstract syntax tree.
- `src/codegen.rs`: WAT generation; `src/wasm.rs`: WAT to WebAssembly bytes (through `wat`).
- `src/pipeline.rs`: the stages put together.
- `src/visual.rs`: the text of tokens, the drawings of trees, and the parse table, productions,
  items and stacks as text; `src/token_drawing.rs`: tokens drawn against their source;
  `src/errors.rs`: type, syntax and scope errors shown against the source.
- `app/main.rs`: the command-line program: reads a source and `lib.wat`, prints each stage,
  writes `out/prog.wat` and runs it with `wasmtime`.
