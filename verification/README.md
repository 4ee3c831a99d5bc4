# inline_text

Verified text logic for inline rich text in a GPUI interface.

- `src/tokens.rs`: inline tokens. `tokenize` replaces source ranges by short
  labels, `serialize` turns display text back into source, `snap` and
  `expand` keep cursors and selections from splitting a token.
- `src/edits.rs`: `edited` keeps tokens in step with an edit of the display
  text (and a stable sort by start).
- `src/padding.rs`: `CodePadding`, display-only spacing around inline code,
  with maps between source and display offsets.
- `src/runs.rs`: splitting shaped runs at code-font boundaries, laying out
  highlight runs, and range lookups.
- `src/selection.rs`: the byte range that the selected characters of a line
  span.
- `src/text.rs`, `src/ranges.rs`: UTF-8 byte views of strings, slicing, and
  range lengths.
- `src/token_laws.rs` and the `law_*` proof functions elsewhere: what the
  operations promise together (serializing tokenized text gives the text
  back, serializing splits between tokens, expanding is idempotent, offsets
  map back through padding, edits keep tokens ordered and over the same
  text, ...).
- `app/`: the GPUI elements (the text area and the inline text element),
  which convert GPUI values to and from the library and do the rendering.
- `tests/`: tests of the library.
