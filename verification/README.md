# Balanced-ternary integers, verified

`src/value.rs` defines `Trit`. `src/ternary/mod.rs` holds the fixed-width, most-significant-first
codec (`int_to_trits`, `trits_to_int`, `max_magnitude`) and never-silent arithmetic (`add`, `sub`,
`mul`, `neg`, the full adder `add_with_carry`). `src/ternary/big_ternary.rs` holds the growable,
least-significant-first `BigTernary` and the fixed-width boundary `FixedWidthTrits`.

The model lives in `src/ternary/spec.rs` (`msb_value`, `lsf_value`, `max_mag`, `is_canonical`,
`trim`), its lemmas in `src/ternary/lemmas.rs`, and the library-wide properties in
`src/ternary/laws.rs`. Every function's contract states its result over that model.
