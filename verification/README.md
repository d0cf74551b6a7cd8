# mdmath-lsp

A language server that evaluates `math:` and `sheet:` blocks in Markdown
documents and shows the results as diagnostics, hovers, inlay hints and
code actions. Fenced code blocks, inline code and appended results
(`2 + 2 = 4`) are left out of evaluation; `/math` or `/sheet` closes a
block. Sheet tables are not evaluated: in `sheet:` mode their rows (lines
that start with `|`) are left out, and the other lines are plain
statements.

The calculation engine is a library verified with Verus; the server around
it is ordinary Rust.

## Layout

- `src/` — the verified library:
  - `chars.rs`: character classes and UTF-8/UTF-16 widths.
  - `text.rs`: spans, byte offsets and editor positions, incremental edits.
  - `markdown.rs`: locating the statements of `math:`/`sheet:` blocks,
    list blocks, fences, inline code and appended results.
  - `lexer.rs`, `syntax.rs`, `parser.rs`: the statement language.
  - `units.rs`: the unit table and which conversions exist.
  - `eval.rs`: evaluation of statements in a shared scope, each statement
    at most once, with cycle detection. Numbers are supplied by an
    `Arithmetic`, so the library decides everything but the floating-point
    operations themselves.
  - `scope.rs`: which assignment a variable refers to.
  - `outcome.rs`: what is sure of an evaluation before it runs: the shape
    of its value or the error it reports.
  - `value.rs`: what each construct evaluates to, number for number, in
    terms of the operations of the `Arithmetic`.
  - `format.rs`: how values are shown.
  - `analysis.rs`: analyzing a whole document.
  - `requests.rs`: answers to hover, inlay-hint and code-action requests.
- `tests/` — tests of the library, run with `f64` arithmetic.
- `app/` — the stdio server: the LSP protocol types, `f64` arithmetic and
  the request loop.

Each public function states its behaviour in `requires`/`ensures` over
mathematical models (`Seq<char>` for text, views of the data types), and
the laws of the library (round trips between offsets and positions, the
order of statements, how variables are bound, which conversions exist, …)
are proof functions named `law_*`.
