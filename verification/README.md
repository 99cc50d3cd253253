# rusty_rtos_json

A `no_std`-shaped JSON validator and in-place query engine over byte slices,
verified with Verus.

- `validate` / `is_valid`: strict ECMA-404 (no trailing commas, no leading
  zeroes, no unescaped control characters, no over-long UTF-8, no lone
  surrogate escapes, nesting at most `MAX_DEPTH` = 32), answering `Valid`,
  `Illegal`, `MaxDepthExceeded`, `Partial` or `BadParameter`.
- `search`: a dotted, bracketed path (`a.b[2].c`) to a value, answered as an
  offset and a sub-slice of the caller's buffer.
- `iterate` / `pairs`: the members of an object or the elements of an array,
  one at a time, with caller-owned cursors.

Every entry point is proved free of panics and overflow on every input, and
its result is stated exactly in its contract.

`src/grammar.rs` states JSON's grammar top-down, apart from the validator's
flat bracket machine, and proves that every JSON text nested no deeper than
32 levels is `Valid`. It also proves exactly what the machine accepts: JSON,
plus one form that JSON lacks, an object member with a scalar value followed
directly by a collection (`{"a":1 [2]}`), which the machine lets through.

## Layout

- `src/chars.rs`: byte classes, hex digits, UTF-8 lead bytes.
- `src/scan.rs`: the scanners for whitespace, strings, literals and numbers,
  each with the specification it is proved against.
- `src/validate.rs`: the bracket machine and the document validator.
- `src/grammar.rs`: the grammar, and what the validator accepts of it.
- `src/search.rs`: the query engine, and its laws.
- `src/window.rs`: scanning a window of a buffer is scanning a sub-slice.
- `tests/`: scenarios and adversarial workloads.
- `app/main.rs`: instruction-count workloads for both halves.
