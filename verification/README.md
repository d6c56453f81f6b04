# Moonowl

The reading logic of Moonowl, a PDF reader, as a Verus library: the
functions in `src/` carry contracts that Verus proves, resting on a few
trusted wrappers around the standard library, `unicode-normalization` and
`toml`.

- `src/search.rs` — folding a page's text for search, finding matches, and
  the scan across a document that settles on the match below the reader.
- `src/select.rs` — a selection across pages, the word or line around a
  caret, and a quote with its line endings mended.
- `src/keymap.rs`, `src/keymap/bound.rs`, `src/keymap/canonical.rs` — the
  table of actions, reading a chord (and reading its spelling back), and the
  bindings in force once `keys.toml` is laid over the defaults; what a
  keystroke comes to.
- `src/keys.rs`, `src/settings.rs` — the text of `keys.toml` parsed through
  `toml`, which entries of the reader's files are taken, and what is said of
  the rest.
- `src/palette.rs`, `src/gpu.rs`, `src/layout.rs` — colours read from a
  theme, runs of whole pixels cut apart and shelved, rows of a spread, and
  a page turned a quarter at a time.
- `src/pdfium.rs`, `src/markup.rs`, `src/render.rs`, `src/shell.rs` — what is
  decided from what the renderer and the disk answer, and what a file
  dragged over a window comes to.
- `src/fixture/` — the test documents, byte for byte: a PDF writer with its
  cross-reference table, MD5 and RC4 for the locked ones, and an outline.
- `src/text.rs`, `src/unicode.rs` — strings as sequences of characters, and
  the few calls into the standard library and `unicode-normalization`.

`app/` is the program around the library: the command line, the files on
disk, and what is arithmetic in floating point. `tests/` exercises the
library from outside.
