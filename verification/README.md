# tensile

A small test framework: suites of named tests and groups, a filter on their paths, progress reports
while they run, and a console that shows them.

- `src/` is the library, verified with Verus. It decides which tests are run, what is reported, how
  it is shown and whether a run counts as a success. A run is a machine that is told what happened
  and says what to do next, so the library itself neither waits nor writes.
- `app/` waits for futures, spawns them on an executor, catches panics and writes to the terminal.
- `tests/` runs the library on suites and values.

| module     | what it holds                                                      |
|------------|--------------------------------------------------------------------|
| `tree`     | suites, and the trees that they stand for                          |
| `options`  | the filter and the colouring                                       |
| `outcome`  | how values and panics decide a test                                |
| `starter`  | which tests are kept, and how they are set going                   |
| `launcher` | the start of single tests, and which have been started             |
| `printer`  | the run of a started suite as a machine                            |
| `progress` | what a run reports                                                 |
| `run`      | whole runs: what is reported and counted from the first to the last |
| `stats`    | counts of results                                                  |
| `report`   | the result of a run, its summary and its verdict                   |
| `console`  | reports as coloured text and as commands to a terminal             |
| `session`  | a run that is shown on the console                                 |
| `text`     | substrings, paths and decimal numbers                              |
| `laws`     | what holds of the runner as a whole                                |
