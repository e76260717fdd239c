# hako

Hako is a small language for writing drivers and kernel components. This
crate holds its syntax trees, a parser for box declarations,
implementations and flows, and a renderer for the box/flow tree, all verified with
Verus.

Layout:

- `src/ast.rs` — the syntax trees.
- `src/model.rs` — their mathematical models (strings as character
  sequences).
- `src/text.rs` — byte and character classes, and the standard-library text
  operations the parser uses.
- `src/grammar.rs`, `src/rules.rs` — what the parser means: functions on the
  input's UTF-8 bytes, from layout and words up to whole programs.
- `src/parser.rs` — the parser, proved to follow `grammar` and `rules`.
- `src/progress.rs` — every parsing step fails or moves forward within the
  input.
- `src/shift.rs` — parsing does not depend on what comes before the cursor.
- `src/render.rs` — Hako text for the box/flow tree.
- `src/laws.rs` — properties that hold for every input.
- `app/` — reading files and `Display` for errors and programs.
