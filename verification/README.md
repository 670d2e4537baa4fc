# attricat_formula

Verified core of a catalog extension that computes numeric attributes from formulas such as
`price_gross = price_net * (1 + vat_rate)`.

`src/` is proved with Verus:

- `formula`, `parser`, `numeral`: the formula language — its grammar as spec functions, the
  recursive-descent parser proved to follow it (byte positions in syntax errors included),
  numeric literals that must read as finite `f64`, and the sorted list of attribute codes a
  formula reads.
- `config`, `rules`, `cycles`, `loading`, `definition`: blueprint attributes and formula
  configurations — code/ID lookups, normalisation (with its laws: durable form,
  idempotence), depth-first cycle detection, the execution-time check, and loading the
  namespaced formula table from a blueprint's TOML definition.
- `events`: which events and commands are served, which formulas a change of values makes
  stale in which context, and which stored value is an attribute's direct value.
- `text`: whitespace, UTF-8 widths, lexicographic order of texts, decimal notation.

`app/` holds what is not verified: JSON decoding and encoding, calls to the catalog host
(through the `Host` trait), and the evaluation of formulas, whose arithmetic is `f64`.
