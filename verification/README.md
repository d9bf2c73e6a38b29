# Verified decimal calculator

Arbitrary-precision decimal numbers with parsing, the four operations and
formatting, written in Verus and proved against their contracts.

The library (`src/`) holds three decimal types that share one model of
digits and values:

- `legacy` — big-endian digits; sums and differences at the larger scale,
  exact products, division truncated to twenty more fractional digits, the
  "divisor too small" error, and the old calculator's printers
  (`to_string_legacy`) with their grouping and rounding quirks. `compute_output`
  answers one request and `session_output` runs a whole batch transcript.
- `rounding` — little-endian digits and a signed scale; division rounds its
  last digit half up. `calculator_line` and `session_output` give the batch
  calculator's answers. Its digit algorithms (alignment, sum, difference,
  schoolbook product, long division) are shared with `plain`.
- `plain` — numbers kept in normal form, with numeric comparison, exact
  sums, differences and products, division truncated to twenty digits, and
  the line-oriented batch printer (`batch_line`).

Sizes are bounded only by the machine and by the integer types the
calculators count in: `legacy` and `rounding` keep scales in `i32`, so their
operations take digit counts and scales up to 2^29 (`size_ok`) and their
calculators operand texts up to 2^28 and about 2^30 characters; a `legacy`
product needs one factor short enough for the `u32` digit accumulators
(`mul_len_ok`); `plain` asks only that the digit vectors of an operation have
`usize` lengths (`fits_with`, checked at run time by `operands_fit`).

`digits` holds the values of digit sequences and the facts about them;
`text` holds characters, trimming, words and counts.

Each module ends with its laws: public proof functions such as "parsing the
printed text gives the number back", "commas are ignored", commutativity,
and, for `plain`, "`(a - b) + b` is `a`" and the order laws of `compare`.

`app/main.rs` is the command-line front end (terminal and standard input,
files); `tests/` runs the library on examples.
