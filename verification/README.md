# acsl_formatter

A formatter for ACSL annotations (`/*@ ... */` and `//@ ...`) in C source files, written
in Verus: every function carries a contract over a mathematical model, and Verus proves it.

## Layout

- `src/ast.rs` — expression trees (`Expr`) and their model (`SpecExpr`), operators.
- `src/text.rs` — character-level helpers (trimming, splitting, joining, replacing).
- `src/lexer.rs` — the tokenizer, specified by `lex_step`.
- `src/parser.rs` — the Pratt parser, specified by `parse_bp` and `parse_text`;
  annotation clauses (`parse_annotation_list`).
- `src/format.rs` — simplification of negated comparisons and printing with the
  parentheses that precedence and associativity need (`format_spec`).
- `src/annotate.rs` — clause layout, line wrapping with hanging indentation, and the
  scan of a whole C file (`file_text`).
- `src/diff.rs` — the unified diff printed by the command-line tool.
- `src/laws.rs`, `src/roundtrip.rs` — properties of the library as a whole: plain text
  is kept, a file splits at each annotation, annotations that cannot be read are kept,
  wrapping keeps the words and the width, space normalisation only deletes spaces and
  leaves none of its patterns,
  simplification is idempotent, and formatted text reads back as the simplified tree it
  came from.
- `src/names.rs` — every name and number in a tree read from a text is well formed, and
  simplification keeps it so; this lets the read-back property speak of texts.
- `src/spelling.rs` — the tokens of a text spell it without its whitespace, at increasing
  positions.
- `src/ascii.rs` — every clause text is ASCII, so the layout's widths, counted in
  characters, are widths in bytes.
- `app/main.rs` — the `acslfmt` command: argument handling and file I/O.

## Use

```text
acslfmt [--diff|-d] path/to/file.c
```

rewrites the file in place, or prints a unified diff with `--diff`.
