# pln-parse

Parser and validator for Panel Layout Notation (PLN), a one-line notation for
split-panel layouts such as `((files=20% | editor1 | editor2)=3fr / terminal)`.

The library in `src/` is verified with Verus:

- `spec.rs` states the grammar as a function from the input's characters to a
  layout model or an error (message, byte span, kind).
- `parser.rs` is the recursive-descent parser; `parse` is proved to compute
  exactly that function.
- `validate.rs` checks that `col` sizes appear only in `|` splits and `row`
  sizes only in `/` splits; validation succeeds exactly when that holds.
- `structure.rs` proves that every parsed tree is well formed: spans lie in the
  input, every split has at least two children, and children follow one
  another inside their parent's span.
- `nesting.rs` proves that `(x)` and leading white space before `x` parse to
  the same tree as `x`, with spans moved.
- `quoting.rs` proves that a name written between quotes, with its quote
  characters escaped, reads back as itself.
- `printing.rs` states the accepted language from the other side: a printer
  that writes a tree as text, bare or quoted names, with any white space around each parenthesis,
  operator and `=` and at both ends, and the law that parsing that text gives
  the tree back, spans aside.
- `rendering.rs` proves that every error that parsing and validation report
  points into the input, so it can always be rendered against it.
- `error.rs` renders an error against its source (line, column, source line,
  carets), with the rendering stated exactly.
- `text.rs` holds UTF-8 widths, character classes and string building.

Size values are kept as the decimal literal written in the input (for example
`"1.5"`); the command-line program in `app/` converts them to numbers for its
JSON output.
