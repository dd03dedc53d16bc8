# opendp_num

A backend-neutral layer of exact and directed numerics, verified with Verus.
Providers (Dashu, Malachite, MPFR) are zero-sized markers; every capability
takes and returns the library's plain numbers, so equivalent inputs, rounding
and errors are directly comparable across providers.

## Layout

- `src/number.rs`, `src/ratio.rs`: natural, integer and rational numbers held
  as 64-bit words, and their mathematical model (integers and pairs of
  integers).
- `src/binary.rs`: IEEE 754 binary32/binary64 encodings, the exact value of an
  encoding, and the specification of correct directed rounding with its laws
  (uniqueness, enclosure, sign preservation, exactness on representable
  values, nearest between down and up).
- `src/capability.rs`, `src/operation.rs`, `src/rounding.rs`, `src/error.rs`:
  the capability traits, operation markers, directions and errors.
- `src/backend/`: the providers. Dashu's directed arithmetic and conversions
  are decided by exact rational comparison; the shared input checks,
  shortcuts and result reading of the float-based operations live in
  `directed.rs`.
- `src/laws.rs`: properties that relate several operations or providers.
- `src/fuzz/`: the backend-independent oracles and input decoders of the
  differential fuzzing targets.
- `app/`: the `f32`/`f64` façades that call the providers' float libraries,
  the reusable harness, and fuzzing support that writes reports.
- `tests/`: executable checks on concrete values.
