# akari

A small templating and data library, verified with Verus.

`src/` is the verified library:

- `fraction`, `gcd`: exact fractions in lowest terms, with checked and
  operator arithmetic, ordering, and the integer recurrence of continued
  fractions.
- `hash`: the `FxHasher` and identity `IdHasher` hash functions.
- `writer`, `bin_inner`: the output and input byte buffers.
- `json_text`, `json_parse`, `json_parser`, `stack_parser`,
  `stack_agreement`, `json_serialize`: JSON string escaping, primitive
  scanners, a recursive parser, a resumable stack-based parser and a compact
  serializer, with the laws that tie them together (the two parsers agree on
  every text, reading back what was written, resuming after more input
  arrives).
- `parse_error`: structured parse errors and their text.
- `lexer`, `template_blocks`, `path`: the template lexer, template
  inheritance and statement matching on token streams, and template path
  resolution.

`app/` is the command-line program around it: the dynamic `Value` type and
the template evaluator (whose numbers are `f64`), template loading from disk,
and the JSON glue between `Value` and the library.
