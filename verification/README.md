# decimal_bytes

Arbitrary precision decimals with a byte encoding whose byte order is the order of the
numbers, verified with Verus.

| Type | Digits | Scale | Storage |
|------|--------|-------|---------|
| `Decimal` | any number | exponents from -16383 to 131072 | sortable bytes |
| `Decimal64` | up to 16 | 0 to 18, held with the value | 8 bytes |
| `Decimal64NoScale` | up to 18 | -18 to 18, kept elsewhere | 8 bytes |

All types hold NaN and the two infinities. The order is negative infinity, negative
numbers, zero, positive numbers, positive infinity, NaN; NaN is equal to itself.

## Layout

- `src/` is the verified library. `value` says what a decimal stands for; `encoding`,
  `parse`, `notation` and `rounding` give bytes and text their meaning and compute them;
  `decimal`, `decimal64` and `decimal64_no_scale` are the types. What holds of them as a
  whole stands in `order`, `roundtrip` and the modules named `_laws`, as proof functions
  named `law_`.
- `interop` converts to and from `rust_decimal` and `bigdecimal`. It is the one module
  that calls other crates; what it takes for granted of them is written at its wrappers.
- `app/` gives the types `Display`, `Error`, `Ord`, serde and conversions from floats.
- `tests/` runs the library from outside.
