# lib: a small `grep -E`-style line matcher with proved contracts

`echo <line> | program -E <pattern>` prints `Found` (exit 0) when the line
matches the pattern and `Not found` (exit 1) otherwise.

- `src/matcher.rs`: single-character matchers (`\d`, `\w`, literals, `.`,
  classes, `$`, groups, back references, `+`, `?`) and their verdicts.
- `src/alternatives.rs`: the list of alternatives that grow together.
- `src/compile.rs`: the pattern compiler, specified one character at a time.
- `src/search.rs`: the search, specified as a step function over the state of
  one attempt; `test_pattern` is proved equal to it.
- `src/laws.rs`: properties of the whole (literal patterns find substrings,
  anchored ones find prefixes, `(u|v)` finds either, empty lines never match,
  patterns without `\` always get an answer, ...).
- `app/main.rs`: reading the line and the arguments, printing, exit codes.
