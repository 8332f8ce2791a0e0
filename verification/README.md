# kabuto

A library for collecting and reading Japanese annual securities reports
(EDINET): choosing which listed documents to fetch, taking the main XBRL
instance out of a downloaded archive, extracting the five-year summary
figures and the narrative sections from it, building the listed-company
master list, and planning the loading and copying of records into the
database. Each function in `src/` is verified with Verus against a
contract stated over mathematical models of its inputs and outputs.

- `src/` — the verified library (`edinet`, `xbrl`, `master`, `ingest`,
  `repack`, `company`, `decision`, `codelist`, and string helpers in `text`).
  Calls into `zip`, `quick-xml`, `regex`, `unicode-normalization` and
  `encoding_rs` stand behind small trusted wrappers, each with a doc comment
  saying what its contract claims.
- `tests/` — tests of the library on concrete values.
- `app/` — the command-line program and the desktop backend: HTTP, files,
  the database, and the floating-point correlation.
