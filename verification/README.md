# sooth

The truth about your tests: `sooth` runs a test command, reads the JUnit-XML
report it produces, and tells you which tests are flaky, which are slow, and
which failures are new. Every run appends its observations to a local
history, so evidence accumulates from runs you make anyway.

This crate is written in Verus. The library under `src/` holds the logic,
each public function with a contract that Verus proves; the program under
`app/` does the input and output around it.

## Layout

- `src/text.rs`, `src/decimal.rs`, `src/keyed.rs`: strings, numbers and
  sorted keyed lists, with the spec functions the contracts speak of.
- `src/xml.rs`, `src/junit.rs`: the JUnit-XML report parser over quick-xml's
  pull reader; `src/phpunit_log.rs`: failures mined from PHPUnit console
  logs.
- `src/analyzers/`: the flaky pass over repeated runs, the history pass over
  accumulated observations, and the explanation of a red run.
- `src/verify.rs`: classification of failures re-run in isolation.
- `src/history.rs`: the history line format, its reader, the import ledger;
  `src/readback.rs`: the proofs that what is written reads back.
- `src/gate.rs`, `src/preset.rs`, `src/quarantine.rs`, `src/runner.rs`:
  changed-test selection, runner presets, the quarantine list, run outcomes.
- `src/format.rs`, `src/report.rs`: the human report's lines and the JSON.
- `src/cli.rs`, `src/session.rs`: the command-line arguments and the
  decisions of a `run`, `explain`, `import` or `history` invocation.
- `app/`: `main`, argument parsing with clap, processes, files and git.
- `tests/`: the test suite, run against the compiled library.
