# simd_text

A text processing toolkit: UTF-8 validation, line splitting, field
extraction, integer parsing and number extraction, character classification
with nibble lookup tables, base64, streaming line scanning and composable
pipelines.

`src/` is the library, written in Verus. Each operation carries a contract
over a mathematical model of what it computes:

- `utf8` — validity is vstd's `valid_utf8`; the error position is the end
  of the longest valid prefix (and is proved unique).
- `positions` — the ordered positions of the bytes that satisfy a
  predicate, shared by line splitting, field splitting and classification.
- `lines` — line ranges (LF and CRLF), their iterator, and a streaming
  scanner whose lines are proved to be those of the whole input.
- `fields` — splitting by a delimiter (proved lossless) and records.
- `classify` — the lookup tables, proved to match exactly the given ASCII
  characters, however many.
- `numbers` — integer parsing for every integer type (proved to give the
  decimal value), number extraction (proved to leave no digit out), and the
  checks before float parsing.
- `base64` — encoding and decoding (padding only at the end), with the
  round trip proved.
- `pipeline_mod` — stages run over the same input.

`app/` holds what depends on the machine or on floating point: run-time
CPU feature detection, float parsing, and the reader-driven line scanner.
`tests/` holds the tests.
