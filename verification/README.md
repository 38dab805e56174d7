# golangci_cmd

Runs `golangci-lint` and shows what it found in compact form: the number of issues and files, the
linters that found most, and the files with most issues, each with its main linters.

- `src/` is the library, verified with Verus. It decides how `golangci-lint` is called (which
  arguments, which output format for which version), and what is shown of the outcome.
- `app/` starts the process, reads the report file and decodes its JSON with serde.
- `tests/` holds the tests of the library.

Names that occur equally often are ranked in the order in which they first occur, so the same
output always gives the same report.

Two things are taken on trust from the standard library: that `String::push` appends a character,
and that `String::from_utf8_lossy` depends on the bytes alone, decodes valid UTF-8, and gives a
text with at least one U+FFFD where the bytes are not valid UTF-8.
