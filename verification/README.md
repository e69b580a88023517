# fixed_u128

An unsigned fixed-point number with 18 decimal places, held as a `u128` raw
value (the number times 10^18), verified with Verus.

- `src/fixed.rs`: `FixedU128` and its arithmetic; each operation's contract
  gives its exact raw result through the spec functions at the top of the file.
- `src/text.rs`: the text form (`str_with_precision`, `from_str_with_precision`,
  `debug_string`) and the round-trip law.
- `src/decimal.rs`: writing and reading decimal digits as `u128` does.
- `src/integer.rs`: the `FixedInt` trait, implemented for the primitive
  integer types, for the `*_int` operations and `from_rational`.
- `src/wide.rs`: the 256-bit steps, done by `primitive_types::U256` behind
  trusted wrappers whose contracts state the arithmetic they perform.
- `src/laws.rs`: laws relating the operations.
- `app/lib.rs`: a copy of the type carrying SCALE codec, serde, `Debug`,
  `Saturating`, `Bounded` and the per-thing conversions.
