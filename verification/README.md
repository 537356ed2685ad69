# vint

Compression of `u32` arrays made mostly of small values, verified with Verus.

- `src/vint.rs`: the seven-bits-per-byte format, `VIntArray`, its reader and
  the length frame of `serialize`.
- `src/vint_encode_most_common.rs`: the format whose first byte can say that
  the array's most common value follows.
- `src/average_delta_encoded.rs`: values as distances to their average line.
- `src/bitpacked_ra_step.rs`, `src/bitpacked_ra.rs`: those distances packed
  in whole bytes or in bits.
- `src/util.rs`: bit and byte helpers.
- `app/lib.rs`: reading and writing values through `std::io`.
