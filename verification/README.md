# ledr

A plain text accounting library with exact rational arithmetic, and the
text processing that reads, checks, tidies and writes ledger files. The
library is written in Verus: each public function states what it does in
its `requires` and `ensures`, and Verus proves the code meets them.

## Layout

- `src/util` – `Quant` (exact decimal arithmetic, rounding and display),
  calendar days and periods.
- `src/syntax` – source files and the line lexer; `rewrite` proves that a
  directive written back reads as the same directive.
- `src/parsing` – the loader, a step function that reads a ledger and its
  includes one file at a time, with the file system left to the caller.
- `src/tidy.rs` – tidying a ledger file without changing its meaning, and
  showing the difference.
- `src/input` – fuzzy matching, the usage history of a ledger, quick entry
  words, drafting new entries and new ledgers.
- `src/reports`, `src/render`, `src/ui` – tables, diagnostics and styled
  lines of text.
- `src/gl` – conflicts between declared and observed exchange rates.
- `app/` – the `ledr` command: arguments, files, the terminal.
- `tests/` – tests run against the compiled library.
