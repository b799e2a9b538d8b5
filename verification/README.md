# speedate: number parsing

A Verus library that parses decimal integers of sixty-four bits, and decides which numbers are
floats.

- `src/decimal.rs`: what digits, runs of digits and decimal points mean.
- `src/numbers.rs`: the parsers and what they promise.
- `src/laws.rs`: properties that relate the parsers to each other and to written numbers.
- `app/`: the parsers with `f64` as the type of floats. The library itself holds no floating-point
  number: its float parsers are generic in the type of floats and take the float parser as an
  argument.
- `tests/`: the parsers run on concrete inputs, together with `lexical-parse-float`.
