# fleischwolf

A verified library that turns OpenDocument files and PDF glyph streams into a simple document
model, and keeps documents and text chunks in a SQLite store.

- `backend` opens an OpenDocument file: a zip archive with XML inside. `archive` and `parse` hold
  the calls into the `zip` and `roxmltree` crates.
- `xml` is the tree that everything else reads. `styles` collects declared styles and resolves the
  formatting that a style name stands for, and `runs` writes formatted text as Markdown.
- `blocks`, `lists`, `tables` and `sheets` turn elements into the blocks of `document`. `list_laws`
  states what holds of every list.
- `lines` merges the glyphs of a page into pieces of lines. It knows no coordinates: whoever calls
  answers questions about gaps. `line_laws` states what the merging keeps.
- `store` parses the address of the SQLite store, holds its statements and reads rows back. It calls
  `sqlx` for the address and `serde_json` for metadata.

Every function states in its contract what it returns. Proof functions whose names begin with
`law_` state what holds across functions.

`app/` is the unverified rest: the database connection, the geometry of glyphs in floating point,
and the backend trait.
