//! Compression of `u32` arrays made mostly of small values.
//!
//! Each value is stored in as few bytes as it needs. In `VIntArray` every byte
//! carries seven bits of the value, and its high bit says whether another byte
//! follows: 0..=127 takes one byte (8 is `0b00001000`), and 136 takes two,
//! `0b10001000` `0b00000001`.

pub mod util;
pub mod vint;
pub mod vint_encode_most_common;
pub mod average_delta_encoded;
pub mod bitpacked_ra_step;
pub mod bitpacked_ra;
