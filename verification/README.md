# cpx_core

A Verus-verified library for preparing support case text for AI-assisted workflows.
Sensitive values (customer names, tenant and subscription ids, e-mail addresses, user
names, host names, IPv4 addresses, resource ids, URLs, other UUIDs) are replaced by
typed symbols such as `C1`, `E2` or `URL1`, and the sanitized case is rendered as a
`cpx-v1` projection artifact. Symbolic output can be rehydrated with the case's symbol
table: every symbol is replaced by its original value. `symbolize` only accepts a case
whose sanitized text rehydrates exactly to the input, so the round trip is a proved
property of every accepted case.

Layout:

- `src/text.rs` – character classes, trimming, line splitting, search and decimal
  numerals, stated over `Seq<char>`.
- `src/detect.rs` – tokens, wrapping punctuation and the detectors for each kind of
  value.
- `src/ingest.rs` – normalizing raw case text into a document.
- `src/symbolize.rs` – the symbol table, the sanitizing passes and `symbolize`.
- `src/project.rs` – case ids and the projection artifact.
- `src/workflow.rs` – the decisions the command line makes (ingest summary, accepted
  format, vault and passphrase handling, exit codes).
- `src/rehydrate.rs` – restoring symbolic text from a symbol table, and the round-trip
  law.
- `src/vault.rs` – the vault handle; opening vault files is not available yet.
- `app/` – the `cpx` command line (argument parsing, files, standard streams).
- `tests/` – tests run against the compiled library.
