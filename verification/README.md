# tutui

A load-test dashboard whose logic is verified with Verus.

A scenario reports events (metrics declared, phases begun, observations, log lines, how it ended).
The library folds them into per-second series, histograms, label breakdowns and per-phase summaries,
judges them against thresholds, and lays out the screens and reports.

- `src/` is the library. Its functions are verified, but for the few that only call another crate or
  the standard library: these are marked `external_body`, and Verus believes what they state.
  - `rounding`, `number`: binary64 arithmetic on bit patterns, rounded as IEEE 754 has it.
  - `text`, `slug`, `sorted`, `doc`, `paths`: strings, maps in key order, text with numbers in it, and
    paths.
  - `hist`, `json`, `time`: what is taken from `hdrhistogram`, `serde_json` and `chrono`.
  - `protocol`, `rows`, `scenario`, `config`: events, label rows, scenarios and run configs.
  - `metrics`, `store`, `verdict`: aggregation, phases, thresholds and verdicts.
  - `app`, `runner`, `process`, `replay`, `cli`: the states of a run and what moves them.
  - `report`, `render`, `markdown`, `ui`: summaries, reports and screens.
  - `laws`: what holds of the library as a whole.
- `tests/` runs the library on concrete values.
- `app/` is the program: terminal, files, child processes, JSON and the clock.

Numbers are held by their bit patterns; writing them in decimal is left to the program, which gets
documents whose pieces are text and numbers with the notation they are to be written in.

## External scenarios

The `process` scenario runs any command and reads one JSON object per line from its stdout; a line
that holds no event is shown as an info log line. The child gets its parameters as JSON in the
`TUTUI_PARAMS` environment variable, and `{"type":"stop"}` on stdin when the run is stopped; it then
has `stop_grace_seconds` (5 unless given) before it is killed.

| type | fields | meaning |
|---|---|---|
| `hello` | `scenario`, `metrics: [{name, kind, unit?, description?}]` | declares metrics: `counter`, `gauge` or `histogram` |
| `phase` | `name` | begins a phase |
| `observe` | `metric`, `value`, `labels?` | one observation |
| `batch` | `observations` | several of them |
| `log` | `level`, `message` | a log line: `debug`, `info`, `warn` or `error` |
| `done` | `summary?` | the scenario has finished; its summary is copied into the report |
| `error` | `message` | the scenario has failed |

Metrics that were never declared are counted as unknown and otherwise ignored.

In breakdowns a label set is written as `name=value` pairs set apart by blanks. Where these read as
another label set (`a=1 b=2` for the value `1 b=2` of `a`), that one is written so, and the first one in
a coded form: `name:value` pairs, with blanks, equals signs, colons and percent signs as `%20`, `%3D`,
`%3A` and `%25`. So each label set has a row of its own.
