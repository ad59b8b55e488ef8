# exaloglog

Approximate distinct counting with ExaLogLog sketches, verified with Verus.

- `src/` is the verified library: hashing, registers, sparse and dense sketches,
  merging, precision reduction, the byte form and the exact coefficients of the
  estimators. `src/state.rs` holds the model, `src/laws.rs` and its neighbours what
  holds of sketches as a whole.
- `tests/` runs the library.
- `app/` adds what takes floating point or traits of other crates: the estimators
  themselves, target errors, serde and error traits.
