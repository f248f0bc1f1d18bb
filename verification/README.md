# list_lang

A library for the `.list` data language — a text format of nested arrays,
names and `key:value` pairs separated by `;` — with a small command language
for reading and editing documents, a compressed binary file format, and the
`list` program around it (an interactive prompt and a terminal editor).

The library in `src/` is verified with Verus: each public function states what
it returns and how it changes its arguments in terms of mathematical models
(`Val` for values, `DocModel` for documents, `Outcome` for what a command comes
to), and `src/laws.rs` proves properties that span several operations.

Layout:

- `src/text.rs`, `src/pattern.rs`: characters (with the `\d` and `\w` classes
  of the regex crate), trimming, digits and patterns.
- `src/value.rs`, `src/parser.rs`: values, their text form, and the parser.
- `src/data.rs`: documents and their variables; reads and edits.
- `src/semantics.rs`, `src/command.rs`: the command language, specified and
  implemented.
- `src/binary.rs`: the binary file frame and its compression (flate2).
- `src/rust_api.rs`: `List` and `ListItem`, a convenient interface.
- `src/combine.rs`: joining and subtracting documents.
- `src/ide.rs`, `src/session.rs`, `src/c_ffi.rs`: the decisions of the
  editor, the prompt and the C interface.
- `src/laws.rs`, `src/reparse.rs`: properties across operations, among them
  that the text form of a plain document reads back as the same document.
- `app/`: the program — argument parsing (clap), files, bincode
  serialization, the terminal (ratatui, crossterm) and the C entry points.
- `tests/`: tests of the library.
