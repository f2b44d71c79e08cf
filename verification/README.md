# wpl_format

A verified formatter for WPL (WarpLabs Parsing Language) rule files.

`formatter::format`, `format_with_indent`, `format_or_original` and
`WplFormatter` lay out package, rule and group blocks one item per line with
a fixed indentation, keep string literals, raw strings, `<...>` formats,
raw-function calls and pattern separators such as `{||}` verbatim, and put
annotations on one line. The functions in `src/` are verified with Verus
against a specification of the formatting walk (`formatter::step`,
`formatter::format_text`); the one exception is the small wrapper around
`String::push`, whose contract is taken on trust.

Pattern separators are recognised in `src/tree.rs` from the text itself: a
brace block that follows other text outside a `//` comment, does not open a
`package`, `rule` or `plg_pipe(...)` body (the keyword and name are found as
the words before the brace, words ending at white space and braces), and
closes on the same line without a nested `{`. This reads the text, not the
grammar's parse tree, and can disagree with it, for instance on a `//`
inside a string literal.
`WplFormatter::format_chars` accepts any other well-formed set of ranges;
`app/` uses it with the ranges of the grammar's parse tree.

Layout:

- `src/text.rs` — white space, trimming and copying of characters.
- `src/scan.rs` — readers for literals, bracketed blocks and raw calls.
- `src/tree.rs` — pattern separator ranges, the range lookup, the
  indentation inferred for a closing bracket without opener, and the plain
  steps around a parse tree's separator nodes (widening to braces, brace
  block candidates, byte offsets to character indices).
- `src/lines.rs` — newline normalisation, annotation spacing, and the final
  tidying of output lines.
- `src/formatter.rs` — the formatting walk and the public API.
- `src/indentation.rs` — the indentation width shows only in the spaces
  that begin lines: two widths give the same error, or texts equal once
  those spaces are removed.
- `src/laws.rs` — properties proved for every input: line endings count the
  same however written, formatting changes only
  white space, reports only bracket and raw-string errors, and yields lines
  without trailing white space, without runs of blank lines, ending in one
  line break.
- `app/lib.rs` — the tree-sitter `Language` of the grammar (FFI), error
  messages, and formatting with the separators of the grammar's parse tree.
