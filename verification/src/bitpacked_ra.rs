//! Values encoded as distances to their average line (see
//! `average_delta_encoded`), each distance packed into as many bits as the
//! largest one needs, inside 32-bit words.
//!
//! The packing is partial: a distance whose bits would reach past the end
//! of its word is left out, and a distance is written into the word whose
//! index is its first bit position rounded down to a multiple of 32.
//! `vec_to_bytes_u32` writes each word least significant byte first, which is
//! the machine's own order on little-endian targets.

use vstd::prelude::*;
use crate::average_delta_encoded::average_increase;
use crate::average_delta_encoded::delta_and_average_encode;
use crate::average_delta_encoded::delta_encodable;
use crate::average_delta_encoded::delta_offset;
use crate::average_delta_encoded::lemma_seq_max_step;
use crate::average_delta_encoded::lemma_seq_max_attained;
use crate::average_delta_encoded::lemma_seq_max_ge;
use crate::average_delta_encoded::lemma_shifted_deltas_nonnegative;
use crate::average_delta_encoded::seq_max;
use crate::average_delta_encoded::shifted_deltas;
use crate::average_delta_encoded::unsigned_deltas;
use crate::util::le_byte;
use crate::util::le_byte_of;
use crate::util::le_prefix;

verus! {

/// The result of `encode_vals_bitpacked_average_endcoded`.
#[derive(Debug)]
pub struct EncodingInfo {
    pub avg_increase: u32,
    pub offset: i32,
    pub encoded: Vec<u32>,
    pub num_bits: u8,
}

/// The number of binary digits of `v`: 0 for 0.
pub open spec fn bits_needed(v: nat) -> nat
    decreases v,
{
    if v == 0 {
        0
    } else {
        1 + bits_needed(v / 2)
    }
}

proof fn lemma_bits_needed_bound(v: nat, k: nat)
    requires
        v < vstd::arithmetic::power2::pow2(k),
    ensures
        bits_needed(v) <= k,
    decreases k,
{
    if v > 0 {
        if k == 0 {
            vstd::arithmetic::power2::lemma2_to64();
        } else {
            vstd::arithmetic::power2::lemma_pow2_unfold(k);
            lemma_bits_needed_bound(v / 2, (k - 1) as nat);
        }
    }
}

/// The bit length of a number: it is below 2 to that power, and (when it is
/// not 0) at least 2 to that power less one.
pub proof fn lemma_bits_needed_is_bit_length(v: nat)
    ensures
        v < vstd::arithmetic::power2::pow2(bits_needed(v)),
        v > 0 ==> vstd::arithmetic::power2::pow2((bits_needed(v) - 1) as nat) <= v,
    decreases v,
{
    vstd::arithmetic::power2::lemma2_to64();
    if v > 0 {
        let b = bits_needed(v);
        lemma_bits_needed_is_bit_length(v / 2);
        vstd::arithmetic::power2::lemma_pow2_unfold(b);
        if v / 2 > 0 {
            vstd::arithmetic::power2::lemma_pow2_unfold((b - 1) as nat);
        }
    }
}

fn get_required_num_bits(v: u32) -> (r: u8)
    ensures
        r == bits_needed(v as nat),
        (v as nat) < vstd::arithmetic::power2::pow2(r as nat),
        v > 0 ==> vstd::arithmetic::power2::pow2((r - 1) as nat) <= v,
{
    proof {
        lemma_bits_needed_is_bit_length(v as nat);
    }
    proof {
        vstd::arithmetic::power2::lemma2_to64();
        lemma_bits_needed_bound(v as nat, 32);
    }
    let mut n: u8 = 0;
    let mut x: u32 = v;
    while x > 0
        invariant
            n + bits_needed(x as nat) == bits_needed(v as nat),
            bits_needed(v as nat) <= 32,
        decreases x,
    {
        x = x / 2;
        n = n + 1;
    }
    n
}

/// Whether the bits of the value at `i` stay within one 32-bit word by the
/// test of the encoder: the word of its first bit is that of the bit just
/// past its last.
pub open spec fn in_one_word(i: nat, num_bits: nat) -> bool {
    (i * num_bits) / 32 == (i * num_bits + num_bits) / 32
}

/// The index into the words at which the value at `i` is written: its first
/// bit position rounded down to a multiple of 32.
pub open spec fn word_slot(i: nat, num_bits: nat) -> int {
    (i * num_bits) - (i * num_bits) % 32
}

/// The number of words of the encoding.
pub open spec fn word_count(len: nat, num_bits: nat) -> nat {
    1 + (num_bits * len) / 32
}

/// The bits that the value at `i` puts into word `j`: the value shifted to
/// its first bit position within the word when its bits stay in one word
/// and `j` is its slot, and nothing otherwise.
pub open spec fn word_part(us: Seq<u32>, num_bits: nat, i: nat, j: int) -> u32 {
    if i < us.len() && in_one_word(i, num_bits) && word_slot(i, num_bits) == j {
        us[i as int] << (((i * num_bits) % 32) as u32)
    } else {
        0
    }
}

/// The OR of the parts that the first `n` values put into word `j`.
pub open spec fn word_bits(us: Seq<u32>, num_bits: nat, j: int, n: nat) -> u32
    decreases n,
{
    if n == 0 {
        0
    } else {
        word_bits(us, num_bits, j, (n - 1) as nat) | word_part(us, num_bits, (n - 1) as nat, j)
    }
}

/// The words of the encoding: word `j` is the OR of the parts that all the
/// values put into it.
pub open spec fn packed_words(us: Seq<u32>, num_bits: nat) -> Seq<u32> {
    Seq::new(word_count(us.len(), num_bits), |j: int| word_bits(us, num_bits, j, us.len()))
}

/// The inputs on which the encoder writes within its words: every value
/// that it writes has its slot inside the encoding.
pub open spec fn packable(us: Seq<u32>, num_bits: nat) -> bool {
    forall|i: nat|
        i < us.len() && #[trigger] in_one_word(i, num_bits) ==> word_slot(i, num_bits)
            < word_count(us.len(), num_bits)
}

/// The number of bits that the encoder gives each value: as many as the
/// largest distance needs.
pub open spec fn delta_num_bits(vals: Seq<u32>) -> nat {
    bits_needed((seq_max(shifted_deltas(vals)) as u32) as nat)
}

/// The number of bits given each distance holds every distance, and one bit
/// fewer would not hold the largest.
pub proof fn lemma_num_bits_is_least(vals: Seq<u32>)
    requires
        delta_encodable(vals),
    ensures
        forall|i: int|
            0 <= i < vals.len() ==> (#[trigger] shifted_deltas(vals)[i] as int)
                < vstd::arithmetic::power2::pow2(delta_num_bits(vals)),
        delta_num_bits(vals) > 0 ==> exists|i: int|
            0 <= i < vals.len() && vstd::arithmetic::power2::pow2((delta_num_bits(vals) - 1) as nat)
                <= #[trigger] shifted_deltas(vals)[i] as int,
{
    let d = shifted_deltas(vals);
    let mx = seq_max(d);
    lemma_seq_max_attained(d);
    let k = choose|k: int| 0 <= k < d.len() && d[k] == mx;
    lemma_shifted_deltas_nonnegative(vals, k);
    assert((mx as u32) as int == mx as int);
    lemma_bits_needed_is_bit_length((mx as u32) as nat);
    assert forall|i: int| 0 <= i < vals.len() implies (#[trigger] shifted_deltas(vals)[i] as int)
        < vstd::arithmetic::power2::pow2(delta_num_bits(vals)) by {
        lemma_seq_max_ge(d, i);
    }
    if delta_num_bits(vals) > 0 {
        assert(vstd::arithmetic::power2::pow2((delta_num_bits(vals) - 1) as nat) <= d[k] as int);
    }
}

proof fn lemma_or_zero(x: u32)
    ensures
        x | 0u32 == x,
{
    assert(x | 0u32 == x) by (bit_vector);
}

/// Encodes `vals` as distances to their average line and packs the
/// distances into 32-bit words.
pub fn encode_vals_bitpacked_average_endcoded(vals: &[u32]) -> (r: EncodingInfo)
    requires
        delta_encodable(vals@),
        delta_num_bits(vals@) * vals.len() <= usize::MAX,
        packable(unsigned_deltas(vals@), delta_num_bits(vals@)),
    ensures
        r.avg_increase == average_increase(vals@),
        r.offset == delta_offset(vals@),
        r.num_bits == delta_num_bits(vals@),
        r.encoded@ == packed_words(unsigned_deltas(vals@), delta_num_bits(vals@)),
        forall|i: int|
            0 <= i < vals.len() ==> (#[trigger] shifted_deltas(vals@)[i] as int)
                < vstd::arithmetic::power2::pow2(r.num_bits as nat),
        r.num_bits > 0 ==> exists|i: int|
            0 <= i < vals.len() && vstd::arithmetic::power2::pow2((r.num_bits - 1) as nat)
                <= #[trigger] shifted_deltas(vals@)[i] as int,
{
    proof {
        lemma_num_bits_is_least(vals@);
    }
    let delta = delta_and_average_encode(vals);
    let data = &delta.data;
    let mut max: i32 = data[0];
    let mut i: usize = 1;
    assert(data@.take(1).len() == 1);
    while i < data.len()
        invariant
            data@ == shifted_deltas(vals@),
            data.len() == vals.len(),
            1 <= i <= data.len(),
            max == seq_max(data@.take(i as int)),
        decreases data.len() - i,
    {
        proof {
            lemma_seq_max_step(data@, i as int);
        }
        if data[i] > max {
            max = data[i];
        }
        i = i + 1;
    }
    assert(data@.take(data.len() as int) == data@);
    let max_val = max as u32;
    let num_bits = get_required_num_bits(max_val);
    let nb = num_bits as usize;
    let total_num_bits = nb * data.len();
    let ghost us = unsigned_deltas(vals@);
    let mut encoded: Vec<u32> = Vec::new();
    let mut k: usize = 0;
    while k < 1 + total_num_bits / 32
        invariant
            k <= 1 + total_num_bits / 32,
            total_num_bits == nb * vals.len(),
            encoded@ == Seq::new(k as nat, |j: int| 0u32),
        decreases 1 + total_num_bits / 32 - k,
    {
        encoded.push(0);
        k = k + 1;
    }
    let ghost wc = word_count(us.len(), nb as nat);
    assert(encoded@ == Seq::new(wc, |j: int| word_bits(us, nb as nat, j, 0)));
    let mut i: usize = 0;
    while i < data.len()
        invariant
            data@ == shifted_deltas(vals@),
            data.len() == vals.len(),
            us == unsigned_deltas(vals@),
            nb == delta_num_bits(vals@),
            nb * vals.len() <= usize::MAX,
            packable(us, nb as nat),
            i <= data.len(),
            wc == word_count(us.len(), nb as nat),
            encoded@ == Seq::new(wc, |j: int| word_bits(us, nb as nat, j, i as nat)),
        decreases data.len() - i,
    {
        assert(i * nb + nb <= vals.len() * nb) by (nonlinear_arith)
            requires
                i < vals.len(),
        ;
        let bit_pos = i * nb;
        let ghost before = encoded@;
        if bit_pos / 32 != (bit_pos + nb) / 32 {
            assert forall|j: int| 0 <= j < wc implies #[trigger] word_bits(us, nb as nat, j, (i + 1) as nat)
                == before[j] by {
                lemma_or_zero(before[j]);
            }
            assert(encoded@ == Seq::new(wc, |j: int| word_bits(us, nb as nat, j, (i + 1) as nat)));
        } else {
            let closest_block = bit_pos - bit_pos % 32;
            assert(in_one_word(i as nat, nb as nat));
            assert(closest_block < encoded.len());
            let shifted_val = (data[i] as u32) << ((bit_pos % 32) as u32);
            let word = encoded[closest_block] | shifted_val;
            encoded.set(closest_block, word);
            assert forall|j: int| 0 <= j < wc implies #[trigger] word_bits(us, nb as nat, j, (i + 1) as nat)
                == encoded@[j] by {
                if j != closest_block {
                    lemma_or_zero(before[j]);
                }
            }
            assert(encoded@ == Seq::new(wc, |j: int| word_bits(us, nb as nat, j, (i + 1) as nat)));
        }
        i = i + 1;
    }
    assert(encoded@ == packed_words(us, nb as nat));
    EncodingInfo { avg_increase: delta.avg_increase, offset: delta.offset, encoded, num_bits }
}

/// The bytes of each word, least significant first, one word after the
/// other.
pub open spec fn words_le_bytes(words: Seq<u32>) -> Seq<u8>
    decreases words.len(),
{
    if words.len() == 0 {
        Seq::empty()
    } else {
        words_le_bytes(words.drop_last()) + le_prefix(words.last(), 4)
    }
}

/// The bytes of `data`, four per word, least significant first.
pub fn vec_to_bytes_u32(data: &[u32]) -> (r: Vec<u8>)
    ensures
        r@ == words_le_bytes(data@),
{
    let mut out: Vec<u8> = Vec::new();
    let mut i: usize = 0;
    while i < data.len()
        invariant
            i <= data.len(),
            out@ == words_le_bytes(data@.take(i as int)),
        decreases data.len() - i,
    {
        let el = data[i];
        let ghost before = out@;
        out.push(le_byte_of(el, 0));
        out.push(le_byte_of(el, 1));
        out.push(le_byte_of(el, 2));
        out.push(le_byte_of(el, 3));
        assert(data@.take(i + 1).drop_last() == data@.take(i as int));
        assert(le_prefix(el, 4) == seq![le_byte(el, 0), le_byte(el, 1), le_byte(el, 2), le_byte(el, 3)]);
        assert(out@ == before + le_prefix(el, 4));
        i = i + 1;
    }
    assert(data@.take(data.len() as int) == data@);
    out
}

} // verus!
