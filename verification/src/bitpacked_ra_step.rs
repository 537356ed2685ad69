//! Random access to values encoded as distances to their average line (see
//! `average_delta_encoded`), each distance stored in the same number of
//! bytes: as few as the largest distance needs. The bytes of a distance are
//! written least significant first, which is the machine's own order on
//! little-endian targets.

use vstd::prelude::*;
use crate::average_delta_encoded::AverageEncodedDelta;
use crate::average_delta_encoded::average_increase;
use crate::average_delta_encoded::decode_average_encoded_delta;
use crate::average_delta_encoded::decode_ok;
use crate::average_delta_encoded::decoded_value;
use crate::average_delta_encoded::delta_and_average_encode;
use crate::average_delta_encoded::delta_encodable;
use crate::average_delta_encoded::delta_offset;
use crate::average_delta_encoded::lemma_average_delta_roundtrip;
use crate::average_delta_encoded::lemma_seq_max_ge;
use crate::average_delta_encoded::lemma_seq_max_attained;
use crate::average_delta_encoded::lemma_seq_max_step;
use crate::average_delta_encoded::lemma_shifted_deltas_nonnegative;
use crate::average_delta_encoded::seq_max;
use crate::average_delta_encoded::shifted_deltas;
use crate::average_delta_encoded::unsigned_deltas;
use crate::util::le_byte;
use crate::util::le_byte_of;
use crate::util::le_prefix;

verus! {

/// The number of bytes kept for each value.
#[derive(Debug, Clone, Copy)]
pub enum BytesRequired {
    One,
    Two,
    Three,
    Four,
}

impl BytesRequired {
    /// The number of bytes, 1 to 4.
    pub open spec fn count(&self) -> nat {
        match self {
            BytesRequired::One => 1,
            BytesRequired::Two => 2,
            BytesRequired::Three => 3,
            BytesRequired::Four => 4,
        }
    }

    /// The number of bytes, 1 to 4.
    pub fn as_usize(&self) -> (r: usize)
        ensures
            r == self.count(),
    {
        match self {
            BytesRequired::One => 1,
            BytesRequired::Two => 2,
            BytesRequired::Three => 3,
            BytesRequired::Four => 4,
        }
    }
}

/// The number of bytes that `val` needs.
pub open spec fn bytes_needed(val: u32) -> nat {
    if val < 0x100 {
        1
    } else if val < 0x1_0000 {
        2
    } else if val < 0x100_0000 {
        3
    } else {
        4
    }
}

/// The number of bytes that a value needs is the least that holds it: it is
/// below 2 to the power of eight times that number, and (beyond one byte) not
/// below 2 to the power of eight times one byte fewer.
pub proof fn lemma_bytes_needed_is_least_width(v: u32)
    ensures
        1 <= bytes_needed(v) <= 4,
        (v as nat) < vstd::arithmetic::power2::pow2(8 * bytes_needed(v)),
        bytes_needed(v) > 1 ==> vstd::arithmetic::power2::pow2(
            (8 * (bytes_needed(v) - 1)) as nat,
        ) <= v,
{
    vstd::arithmetic::power2::lemma2_to64();
}

fn get_bytes_required(val: u32) -> (r: BytesRequired)
    ensures
        r.count() == bytes_needed(val),
        (val as nat) < vstd::arithmetic::power2::pow2(8 * r.count()),
        r.count() > 1 ==> vstd::arithmetic::power2::pow2((8 * (r.count() - 1)) as nat) <= val,
{
    proof {
        lemma_bytes_needed_is_least_width(val);
    }
    if val < 0x100 {
        BytesRequired::One
    } else if val < 0x1_0000 {
        BytesRequired::Two
    } else if val < 0x100_0000 {
        BytesRequired::Three
    } else {
        BytesRequired::Four
    }
}

/// The result of `encode_vals_bitpacked_average_endcoded`.
#[derive(Debug)]
pub struct EncodingInfo {
    pub avg_increase: u32,
    pub offset: i32,
    pub encoded: Vec<u8>,
    pub bytes_per_element: BytesRequired,
}

/// The first `w` bytes of each value, one value after the other.
pub open spec fn packed_body(vals: Seq<u32>, w: nat) -> Seq<u8>
    decreases vals.len(),
{
    if vals.len() == 0 {
        Seq::empty()
    } else {
        packed_body(vals.drop_last(), w) + le_prefix(vals.last(), w)
    }
}

/// The bytes that `encode_vals` writes: the first `w` bytes of each value,
/// and one zero byte at the end.
pub open spec fn packed_bytes(vals: Seq<u32>, w: nat) -> Seq<u8> {
    packed_body(vals, w).push(0)
}

/// The value of the `w` bytes of `s` from `start` on, least significant
/// first.
pub open spec fn le_value(s: Seq<u8>, start: int, w: nat) -> u32 {
    (if w <= 1 {
        s[start] as int
    } else if w == 2 {
        s[start] + 0x100 * s[start + 1]
    } else if w == 3 {
        s[start] + 0x100 * s[start + 1] + 0x1_0000 * s[start + 2]
    } else {
        s[start] + 0x100 * s[start + 1] + 0x1_0000 * s[start + 2] + 0x100_0000 * s[start + 3]
    }) as u32
}

/// The bytes per value that `encode_vals_bitpacked_average_endcoded` picks:
/// as many as the largest distance needs.
pub open spec fn delta_width(vals: Seq<u32>) -> nat {
    bytes_needed(seq_max(shifted_deltas(vals)) as u32)
}

/// Appends the first `w` bytes of `val`.
fn push_le_prefix(out: &mut Vec<u8>, val: u32, w: usize)
    requires
        w <= 4,
    ensures
        final(out)@ == old(out)@ + le_prefix(val, w as nat),
{
    let mut k: usize = 0;
    while k < w
        invariant
            k <= w <= 4,
            out@ == old(out)@ + le_prefix(val, k as nat),
        decreases w - k,
    {
        out.push(le_byte_of(val, k));
        assert(le_prefix(val, (k + 1) as nat) == le_prefix(val, k as nat).push(le_byte(val, k as nat)));
        k = k + 1;
    }
}

/// Writes the first `bytes_required` bytes of each value, then a zero byte.
pub fn encode_vals(vals: &[u32], bytes_required: BytesRequired) -> (r: (BytesRequired, Vec<u8>))
    requires
        bytes_required.count() * vals.len() + 1 <= usize::MAX,
    ensures
        r.0 == bytes_required,
        r.1@ == packed_bytes(vals@, bytes_required.count()),
{
    let w = bytes_required.as_usize();
    let total_num_bytes = w * vals.len();
    let mut encoded: Vec<u8> = Vec::with_capacity(1 + total_num_bytes);
    let mut i: usize = 0;
    while i < vals.len()
        invariant
            i <= vals.len(),
            w == bytes_required.count(),
            w <= 4,
            encoded@ == packed_body(vals@.take(i as int), w as nat),
        decreases vals.len() - i,
    {
        push_le_prefix(&mut encoded, vals[i], w);
        assert(vals@.take(i + 1).drop_last() == vals@.take(i as int));
        i = i + 1;
    }
    assert(vals@.take(vals.len() as int) == vals@);
    encoded.push(0);
    (bytes_required, encoded)
}

/// Encodes `vals` as distances to their average line, each in as many bytes
/// as the largest distance needs.
pub fn encode_vals_bitpacked_average_endcoded(vals: &[u32]) -> (r: EncodingInfo)
    requires
        delta_encodable(vals@),
        delta_width(vals@) * vals.len() + 1 <= usize::MAX,
    ensures
        r.avg_increase == average_increase(vals@),
        r.offset == delta_offset(vals@),
        r.bytes_per_element.count() == delta_width(vals@),
        r.encoded@ == packed_bytes(unsigned_deltas(vals@), delta_width(vals@)),
        forall|i: int|
            0 <= i < vals.len() ==> (#[trigger] shifted_deltas(vals@)[i] as int)
                < vstd::arithmetic::power2::pow2(8 * r.bytes_per_element.count()),
        r.bytes_per_element.count() > 1 ==> exists|i: int|
            0 <= i < vals.len() && vstd::arithmetic::power2::pow2(
                (8 * (r.bytes_per_element.count() - 1)) as nat,
            ) <= #[trigger] shifted_deltas(vals@)[i] as int,
{
    proof {
        lemma_width_is_least(vals@);
    }
    let delta_info = delta_and_average_encode(vals);
    let data = &delta_info.data;
    let mut max_val: i32 = data[0];
    let mut i: usize = 1;
    assert(data@.take(1).len() == 1);
    while i < data.len()
        invariant
            data@ == shifted_deltas(vals@),
            data.len() == vals.len(),
            1 <= i <= data.len(),
            max_val == seq_max(data@.take(i as int)),
        decreases data.len() - i,
    {
        proof {
            lemma_seq_max_step(data@, i as int);
        }
        if data[i] > max_val {
            max_val = data[i];
        }
        i = i + 1;
    }
    assert(data@.take(data.len() as int) == data@);
    let bytes_required = get_bytes_required(max_val as u32);
    let mut unsigned: Vec<u32> = Vec::new();
    let mut j: usize = 0;
    while j < data.len()
        invariant
            data@ == shifted_deltas(vals@),
            j <= data.len(),
            unsigned@ == unsigned_deltas(vals@).take(j as int),
        decreases data.len() - j,
    {
        unsigned.push(data[j] as u32);
        assert(unsigned_deltas(vals@).take(j + 1) == unsigned_deltas(vals@).take(j as int).push(
            data@[j as int] as u32,
        ));
        j = j + 1;
    }
    assert(unsigned_deltas(vals@).take(data.len() as int) == unsigned_deltas(vals@));
    let (bytes_per_element, encoded) = encode_vals(&unsigned, bytes_required);
    EncodingInfo {
        avg_increase: delta_info.avg_increase,
        offset: delta_info.offset,
        encoded,
        bytes_per_element,
    }
}

/// The value at `index`: its `bytes_per_element` bytes read as a distance,
/// then decoded from the average line.
pub fn decode_bit_packed_val(info: &EncodingInfo, index: usize) -> (r: u32)
    requires
        index * info.bytes_per_element.count() + info.bytes_per_element.count()
            <= info.encoded.len(),
        decode_ok(
            le_value(
                info.encoded@,
                index * info.bytes_per_element.count(),
                info.bytes_per_element.count(),
            ) as i32,
            index,
            info.offset,
            info.avg_increase,
        ),
    ensures
        r == decoded_value(
            le_value(
                info.encoded@,
                index * info.bytes_per_element.count(),
                info.bytes_per_element.count(),
            ) as i32,
            index,
            info.offset,
            info.avg_increase,
        ),
{
    let w = info.bytes_per_element.as_usize();
    let bit_pos_start = index * w;
    let bytes = &info.encoded;
    let mut out: u32 = bytes[bit_pos_start] as u32;
    if w >= 2 {
        out = out + bytes[bit_pos_start + 1] as u32 * 0x100;
    }
    if w >= 3 {
        out = out + bytes[bit_pos_start + 2] as u32 * 0x1_0000;
    }
    if w >= 4 {
        out = out + bytes[bit_pos_start + 3] as u32 * 0x100_0000;
    }
    decode_average_encoded_delta(out as i32, index, info.offset, info.avg_increase)
}

/// The number of bytes given each distance holds every distance, and one
/// byte fewer would not hold the largest.
pub proof fn lemma_width_is_least(vals: Seq<u32>)
    requires
        delta_encodable(vals),
    ensures
        1 <= delta_width(vals) <= 4,
        forall|i: int|
            0 <= i < vals.len() ==> (#[trigger] shifted_deltas(vals)[i] as int)
                < vstd::arithmetic::power2::pow2(8 * delta_width(vals)),
        delta_width(vals) > 1 ==> exists|i: int|
            0 <= i < vals.len() && vstd::arithmetic::power2::pow2(
                (8 * (delta_width(vals) - 1)) as nat,
            ) <= #[trigger] shifted_deltas(vals)[i] as int,
{
    let d = shifted_deltas(vals);
    let mx = seq_max(d);
    lemma_seq_max_attained(d);
    let k = choose|k: int| 0 <= k < d.len() && d[k] == mx;
    lemma_shifted_deltas_nonnegative(vals, k);
    assert((mx as u32) as int == mx as int);
    lemma_bytes_needed_is_least_width(mx as u32);
    assert forall|i: int| 0 <= i < vals.len() implies (#[trigger] shifted_deltas(vals)[i] as int)
        < vstd::arithmetic::power2::pow2(8 * delta_width(vals)) by {
        lemma_seq_max_ge(d, i);
    }
    if delta_width(vals) > 1 {
        assert(vstd::arithmetic::power2::pow2((8 * (delta_width(vals) - 1)) as nat) <= d[k] as int);
    }
}

proof fn lemma_packed_body_len(vals: Seq<u32>, w: nat)
    ensures
        packed_body(vals, w).len() == vals.len() * w,
    decreases vals.len(),
{
    if vals.len() > 0 {
        lemma_packed_body_len(vals.drop_last(), w);
        assert((vals.len() - 1) * w + w == vals.len() * w) by (nonlinear_arith);
    }
}

proof fn lemma_packed_body_index(vals: Seq<u32>, w: nat, p: int, k: int)
    requires
        0 <= p < vals.len(),
        0 <= k < w,
    ensures
        p * w + k < packed_body(vals, w).len(),
        packed_body(vals, w)[p * w + k] == le_byte(vals[p], k as nat),
    decreases vals.len(),
{
    let n = vals.len();
    lemma_packed_body_len(vals, w);
    lemma_packed_body_len(vals.drop_last(), w);
    assert(p * w + k < n * w) by (nonlinear_arith)
        requires
            p < n,
            k < w,
    ;
    if p < n - 1 {
        assert(p * w + k < (n - 1) * w) by (nonlinear_arith)
            requires
                p < n - 1,
                k < w,
        ;
        lemma_packed_body_index(vals.drop_last(), w, p, k);
    } else {
        assert(p * w == (n - 1) * w);
    }
}

proof fn lemma_le_value(s: Seq<u8>, start: int, w: nat, v: u32)
    requires
        1 <= w <= 4,
        0 <= start,
        start + w <= s.len(),
        bytes_needed(v) <= w,
        forall|k: int| 0 <= k < w ==> #[trigger] s[start + k] == le_byte(v, k as nat),
    ensures
        le_value(s, start, w) == v,
{
    assert(s[start + 0] == le_byte(v, 0));
    let x = v as int;
    assert(x == x % 0x100 + 0x100 * (x / 0x100));
    assert(x / 0x100 == x / 0x100 % 0x100 + 0x100 * (x / 0x1_0000)) by {
        vstd::arithmetic::div_mod::lemma_div_denominator(x, 0x100, 0x100);
    }
    assert(x / 0x1_0000 == x / 0x1_0000 % 0x100 + 0x100 * (x / 0x100_0000)) by {
        vstd::arithmetic::div_mod::lemma_div_denominator(x, 0x1_0000, 0x100);
    }
    if w >= 2 {
        assert(s[start + 1] == le_byte(v, 1));
    }
    if w >= 3 {
        assert(s[start + 2] == le_byte(v, 2));
    }
    if w >= 4 {
        assert(s[start + 3] == le_byte(v, 3));
    }
}

/// Reading back the bytes kept for position `pos` and decoding them gives
/// the value there, provided that the offset is not positive and the
/// decoding does not overflow; the bytes read lie within the encoding.
pub proof fn lemma_bitpacked_roundtrip(vals: Seq<u32>, pos: usize)
    requires
        vals.len() <= usize::MAX,
        delta_encodable(vals),
        delta_offset(vals) <= 0,
        pos < vals.len(),
        decode_ok(shifted_deltas(vals)[pos as int], pos, delta_offset(vals), average_increase(vals)),
    ensures
        ({
            let w = delta_width(vals);
            let bytes = packed_bytes(unsigned_deltas(vals), w);
            &&& pos * w + w <= bytes.len()
            &&& le_value(bytes, pos * w, w) as i32 == shifted_deltas(vals)[pos as int]
            &&& decoded_value(
                le_value(bytes, pos * w, w) as i32,
                pos,
                delta_offset(vals),
                average_increase(vals),
            ) == vals[pos as int]
        }),
{
    let w = delta_width(vals);
    let us = unsigned_deltas(vals);
    let body = packed_body(us, w);
    let bytes = packed_bytes(us, w);
    let p = pos as int;
    let d = shifted_deltas(vals)[p];
    lemma_shifted_deltas_nonnegative(vals, p);
    lemma_seq_max_ge(shifted_deltas(vals), p);
    let mx = seq_max(shifted_deltas(vals));
    assert(us[p] == d as u32);
    assert(bytes_needed(us[p]) <= w);
    lemma_packed_body_len(us, w);
    assert(p * w + w <= us.len() * w) by (nonlinear_arith)
        requires
            p < us.len(),
    ;
    assert forall|k: int| 0 <= k < w implies #[trigger] bytes[p * w + k] == le_byte(us[p], k as nat) by {
        lemma_packed_body_index(us, w, p, k);
    }
    lemma_le_value(bytes, p * w, w, us[p]);
    lemma_average_delta_roundtrip(vals, pos);
}

} // verus!
