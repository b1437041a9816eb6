# qams

The `init` / `update` logic of the QAMS command-line tool (Quality Assurance
Management System), as a Verus-verified library.

- `src/text.rs` — characters of a string, Unicode whitespace, trimming.
- `src/csv.rs` — the CSV reader (lines, blank lines, comma-separated trimmed
  cells), the agent list and the review metadata fields.
- `src/csv_concat.rs` — the rows of two texts joined by a line break.
- `src/html.rs` — HTML escaping, identifiers, the review metadata form fields
  and their insertion after the date field of the scorecard page.
- `src/store.rs` — how an instance keeps its review metadata fields between
  runs, and that they read back unchanged.
- `src/options.rs` — the default `options.toml` and when it is written.
- `src/update.rs` — which inputs an `update` run needs, and its messages.
- `app/` — the command line, the file system and the scorecard page itself,
  which the `qams_core` crate of the same workspace renders.
