# custom_id

Stores typed values in Discord custom ids (at most 100 UTF-16 code units).

A value implementing `Bittable` is laid down as a run of bits; `CustomIdConv`
packs the bits sixteen to a code unit, least significant bit first, and reads
them back. Everything in `src/` is verified with Verus:

- `bits.rs` — `BitBuffer`, a `bitvec` bit-vector behind trusted wrappers.
- `bittable.rs` — the `Bittable` trait and its contract: the layout of a
  value (`spec_bits`), what reading gives (`spec_read`), and the read-back law
  that every implementation proves.
- `ints.rs`, `uint.rs` — `bool` and the integer types.
- `string.rs`, `vec.rs`, `option.rs`, `snowflake.rs` — strings (UTF-8 with a
  byte-sized length), vectors (byte-sized count), options (a presence bit) and
  Discord ids.
- `utf16.rs`, `conv.rs` — UTF-16 encoding and lossy decoding, packing, and
  `CustomIdConv` with the custom id round-trip and length laws.
- `variant_ids.rs` — the rule that numbers the variants of an enum.

`app/` holds what stays outside the verified library: the error type with its
`std::error::Error` impl, conversions from `twilight_model` ids, and
floating-point values.
