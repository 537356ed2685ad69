//! A variable-length encoding that spends one bit of the first byte of each
//! value on saying that the array's most common value comes next, so that
//! this value, right after another one, costs no byte at all.
//!
//! The first byte of a value holds its low six bits, the flag (`0x40`) and
//! the continuation bit (`0x80`); each further byte holds seven more bits and
//! the continuation bit, up to five bytes in all, so that every `u32` value
//! reads back. The groups of bits are taken from the value least significant
//! first, as a little-endian machine lays out its bytes.

use fnv::FnvHashMap;
use fnv::FnvHasher;
use std::hash::BuildHasherDefault;
use vstd::prelude::*;
use crate::util::is_high_bit_set;
use crate::util::set_high_bit_u8;
use crate::util::set_second_high_bit_u8;
use crate::util::unset_high_bit_u8;
use crate::util::is_second_high_bit_set;
use crate::util::unset_second_high_bit_u8;
use crate::vint::chunk_len;
use crate::vint::low7_sum;
use crate::vint::lemma_chunk_len_bounds;
use crate::vint::lemma_chunk_len_prefix;
use crate::vint::lemma_low7_sum_prefix;

verus! {

// ---------------------------------------------------------------------------
// The format
// ---------------------------------------------------------------------------

/// The number of bytes that `val` takes: one below 2^6, two below 2^13,
/// three below 2^20, four below 2^27, five above.
pub open spec fn mc_bytes_required(val: u32) -> nat {
    if val < 0x40 {
        1
    } else if val < 0x2000 {
        2
    } else if val < 0x10_0000 {
        3
    } else if val < 0x800_0000 {
        4
    } else {
        5
    }
}

/// The bytes that encode `val`; `flag` says whether the most common value
/// follows it.
pub open spec fn mc_encoding(val: u32, flag: bool) -> Seq<u8> {
    let f: int = if flag {
        64
    } else {
        0
    };
    let v = val as int;
    if v < 0x40 {
        seq![(v + f) as u8]
    } else if v < 0x2000 {
        seq![(v % 64 + f + 128) as u8, (v / 64) as u8]
    } else if v < 0x10_0000 {
        seq![(v % 64 + f + 128) as u8, (v / 64 % 128 + 128) as u8, (v / 0x2000) as u8]
    } else if v < 0x800_0000 {
        seq![
            (v % 64 + f + 128) as u8,
            (v / 64 % 128 + 128) as u8,
            (v / 0x2000 % 128 + 128) as u8,
            (v / 0x10_0000) as u8,
        ]
    } else {
        seq![
            (v % 64 + f + 128) as u8,
            (v / 64 % 128 + 128) as u8,
            (v / 0x2000 % 128 + 128) as u8,
            (v / 0x10_0000 % 128 + 128) as u8,
            (v / 0x800_0000) as u8,
        ]
    }
}

/// The encoding of `vals` with `mc` as the most common value: a value that
/// is followed by `mc` carries the flag, and that `mc` takes no bytes.
pub open spec fn mc_encoding_seq(vals: Seq<u32>, mc: u32) -> Seq<u8>
    decreases vals.len(),
{
    if vals.len() == 0 {
        Seq::empty()
    } else if vals.len() >= 2 && vals[1] == mc {
        mc_encoding(vals[0], true) + mc_encoding_seq(vals.skip(2), mc)
    } else {
        mc_encoding(vals[0], false) + mc_encoding_seq(vals.skip(1), mc)
    }
}

/// The value held by the first `n` bytes of `s`, taken modulo 2^32.
pub open spec fn mc_value(s: Seq<u8>, n: nat) -> u32 {
    (((s[0] % 64) as nat + 64 * low7_sum(s.drop_first(), (n - 1) as nat)) % 0x1_0000_0000) as u32
}

/// Whether the value that starts `s` is followed by the most common value.
pub open spec fn mc_flag(s: Seq<u8>) -> bool {
    s[0] % 128 >= 64
}

/// The values encoded in `s` with `mc` as the most common value; `None` when
/// `s` ends in the middle of a value.
pub open spec fn mc_decode(s: Seq<u8>, mc: u32) -> Option<Seq<u32>>
    decreases s.len(),
{
    if s.len() == 0 {
        Some(Seq::empty())
    } else {
        match chunk_len(s, 5) {
            Some(n) => {
                proof {
                    lemma_chunk_len_bounds(s, 5);
                }
                match mc_decode(s.skip(n as int), mc) {
                    Some(rest) => Some(
                        seq![mc_value(s, n)] + (if mc_flag(s) {
                            seq![mc]
                        } else {
                            Seq::empty()
                        }) + rest,
                    ),
                    None => None,
                }
            },
            None => None,
        }
    }
}

/// The bytes that `v` takes, summed over the places where `v` occurs in
/// `vals`.
pub open spec fn space_used(vals: Seq<u32>, v: u32) -> nat
    decreases vals.len(),
{
    if vals.len() == 0 {
        0
    } else {
        space_used(vals.drop_last(), v) + if vals.last() == v {
            mc_bytes_required(v)
        } else {
            0
        }
    }
}

// ---------------------------------------------------------------------------
// Lemmas on the format
// ---------------------------------------------------------------------------

proof fn lemma_digits(v: int)
    requires
        0 <= v < 0x1_0000_0000,
    ensures
        v == v % 64 + 64 * (v / 64),
        v / 64 == v / 64 % 128 + 128 * (v / 0x2000),
        v / 0x2000 == v / 0x2000 % 128 + 128 * (v / 0x10_0000),
        v / 0x10_0000 == v / 0x10_0000 % 128 + 128 * (v / 0x800_0000),
        v / 0x800_0000 < 32,
        v < 0x2000 ==> v / 64 < 128,
        v < 0x10_0000 ==> v / 0x2000 < 128,
        v < 0x800_0000 ==> v / 0x10_0000 < 128,
{
    assert(v == 64 * (v / 64) + v % 64);
    assert(v / 64 == 128 * (v / 64 / 128) + v / 64 % 128);
    assert(v / 64 / 128 == v / 0x2000) by {
        vstd::arithmetic::div_mod::lemma_div_denominator(v, 64, 128);
    }
    assert(v / 0x2000 == 128 * (v / 0x2000 / 128) + v / 0x2000 % 128);
    assert(v / 0x2000 / 128 == v / 0x10_0000) by {
        vstd::arithmetic::div_mod::lemma_div_denominator(v, 0x2000, 128);
    }
    assert(v / 0x10_0000 == 128 * (v / 0x10_0000 / 128) + v / 0x10_0000 % 128);
    assert(v / 0x10_0000 / 128 == v / 0x800_0000) by {
        vstd::arithmetic::div_mod::lemma_div_denominator(v, 0x10_0000, 128);
    }
}

/// How the chunk that starts `s` reads, byte by byte: where it ends and what
/// value it holds. The chunk has at most five bytes.
proof fn lemma_mc_chunk(s: Seq<u8>)
    requires
        chunk_len(s, 5) is Some,
    ensures
        ({
            let n = chunk_len(s, 5).unwrap();
            let b0 = (s[0] % 64) as int;
            &&& 1 <= n <= 5
            &&& n <= s.len()
            &&& (n == 1) == (s[0] < 128)
            &&& n >= 2 ==> (n == 2) == (s[1] < 128)
            &&& n >= 3 ==> (n == 3) == (s[2] < 128)
            &&& n >= 4 ==> (n == 4) == (s[3] < 128)
            &&& n == 1 ==> mc_value(s, n) == b0
            &&& n == 2 ==> mc_value(s, n) == b0 + 0x40 * (s[1] % 128)
            &&& n == 3 ==> mc_value(s, n) == b0 + 0x40 * (s[1] % 128) + 0x2000 * (s[2] % 128)
            &&& n == 4 ==> mc_value(s, n) == b0 + 0x40 * (s[1] % 128) + 0x2000 * (s[2] % 128)
                + 0x10_0000 * (s[3] % 128)
            &&& n == 5 ==> mc_value(s, n) == (b0 + 0x40 * (s[1] % 128) + 0x2000 * (s[2] % 128)
                + 0x10_0000 * (s[3] % 128) + 0x800_0000 * (s[4] % 128)) % 0x1_0000_0000
        }),
{
    lemma_chunk_len_bounds(s, 5);
    let n = chunk_len(s, 5).unwrap();
    let s1 = s.drop_first();
    let s2 = s1.drop_first();
    let s3 = s2.drop_first();
    let s4 = s3.drop_first();
    lemma_chunk_len_bounds(s1, 4);
    lemma_chunk_len_bounds(s2, 3);
    lemma_chunk_len_bounds(s3, 2);
    lemma_chunk_len_bounds(s4, 1);
    if n >= 2 {
        assert(s1[0] == s[1]);
    }
    if n >= 3 {
        assert(s2[0] == s[2]);
    }
    if n >= 4 {
        assert(s3[0] == s[3]);
    }
    if n >= 5 {
        assert(s4[0] == s[4]);
    }
    if n == 1 {
        assert(low7_sum(s1, 0) == 0);
    } else if n == 2 {
        assert(low7_sum(s2, 0) == 0);
        assert(low7_sum(s1, 1) == s[1] % 128);
    } else if n == 3 {
        assert(low7_sum(s3, 0) == 0);
        assert(low7_sum(s2, 1) == s[2] % 128);
        assert(low7_sum(s1, 2) == s[1] % 128 + 128 * (s[2] % 128));
    } else if n == 4 {
        assert(low7_sum(s4, 0) == 0);
        assert(low7_sum(s3, 1) == s[3] % 128);
        assert(low7_sum(s2, 2) == s[2] % 128 + 128 * (s[3] % 128));
        assert(low7_sum(s1, 3) == s[1] % 128 + 128 * (s[2] % 128 + 128 * (s[3] % 128)));
    } else {
        assert(low7_sum(s4.drop_first(), 0) == 0);
        assert(low7_sum(s4, 1) == s[4] % 128);
        assert(low7_sum(s3, 2) == s[3] % 128 + 128 * (s[4] % 128));
        assert(low7_sum(s2, 3) == s[2] % 128 + 128 * (s[3] % 128 + 128 * (s[4] % 128)));
        assert(low7_sum(s1, 4) == s[1] % 128 + 128 * (s[2] % 128 + 128 * (s[3] % 128 + 128 * (
        s[4] % 128))));
    }
}

/// The bytes of an encoding, one by one: each byte but the last has its high
/// bit set, the last (of fewer than five) has it clear, the flag is in the
/// first byte, and the groups of bits give back the value.
#[verifier::spinoff_prover]
proof fn lemma_mc_encoding_bytes(val: u32, flag: bool)
    ensures
        ({
            let e = mc_encoding(val, flag);
            let n = e.len();
            let v = val as int;
            &&& 1 <= n <= 5
            &&& n == mc_bytes_required(val)
            &&& (e[0] % 128 >= 64) == flag
            &&& n >= 2 ==> e[0] >= 128
            &&& n >= 3 ==> e[1] >= 128
            &&& n >= 4 ==> e[2] >= 128
            &&& n >= 5 ==> e[3] >= 128
            &&& n < 5 ==> e[n - 1] < 128
            &&& n == 1 ==> v == e[0] % 64
            &&& n == 2 ==> v == e[0] % 64 + 0x40 * (e[1] % 128)
            &&& n == 3 ==> v == e[0] % 64 + 0x40 * (e[1] % 128) + 0x2000 * (e[2] % 128)
            &&& n == 4 ==> v == e[0] % 64 + 0x40 * (e[1] % 128) + 0x2000 * (e[2] % 128)
                + 0x10_0000 * (e[3] % 128)
            &&& n == 5 ==> v == e[0] % 64 + 0x40 * (e[1] % 128) + 0x2000 * (e[2] % 128)
                + 0x10_0000 * (e[3] % 128) + 0x800_0000 * (e[4] % 128)
        }),
{
    lemma_digits(val as int);
}

/// Every value reads back from its encoding, with its flag, whatever
/// follows.
#[verifier::spinoff_prover]
pub proof fn lemma_mc_encoding_reads_back(val: u32, flag: bool, rest: Seq<u8>)
    ensures
        chunk_len(mc_encoding(val, flag) + rest, 5) == Some(mc_encoding(val, flag).len()),
        mc_value(mc_encoding(val, flag) + rest, mc_encoding(val, flag).len()) == val,
        mc_flag(mc_encoding(val, flag) + rest) == flag,
        mc_encoding(val, flag).len() == mc_bytes_required(val),
{
    let e = mc_encoding(val, flag);
    let s = e + rest;
    let n = e.len();
    lemma_mc_encoding_bytes(val, flag);
    assert forall|k: int| 0 <= k < n implies #[trigger] s[k] == e[k] by {}
    assert(s[0] == e[0]);
    assert forall|k: int| 0 <= k < n - 1 && k < s.len() implies #[trigger] s[k] >= 128 by {
        assert(s[k] == e[k]);
    }
    if n < 5 {
        assert(s[n - 1] == e[n - 1]);
    }
    crate::vint::lemma_chunk_len_scan(s, 5, (n - 1) as nat);
    lemma_mc_chunk(s);
    if n >= 2 {
        assert(s[1] == e[1]);
    }
    if n >= 3 {
        assert(s[2] == e[2]);
    }
    if n >= 4 {
        assert(s[3] == e[3]);
    }
    if n == 5 {
        assert(s[4] == e[4]);
        let x = s[0] % 64 + 0x40 * (s[1] % 128) + 0x2000 * (s[2] % 128) + 0x10_0000 * (s[3] % 128)
            + 0x800_0000 * (s[4] % 128);
        vstd::arithmetic::div_mod::lemma_small_mod(x as nat, 0x1_0000_0000);
    }
}

/// Decoding a concatenation of two well-formed byte strings gives the values
/// of the first followed by those of the second.
pub proof fn lemma_mc_decode_append(a: Seq<u8>, b: Seq<u8>, mc: u32)
    requires
        mc_decode(a, mc) is Some,
        mc_decode(b, mc) is Some,
    ensures
        mc_decode(a + b, mc) == Some(mc_decode(a, mc).unwrap() + mc_decode(b, mc).unwrap()),
    decreases a.len(),
{
    if a.len() == 0 {
        assert(a + b == b);
        assert(mc_decode(a, mc).unwrap() + mc_decode(b, mc).unwrap() == mc_decode(b, mc).unwrap());
    } else {
        let n = chunk_len(a, 5).unwrap();
        lemma_chunk_len_bounds(a, 5);
        lemma_chunk_len_prefix(a, b, 5);
        lemma_low7_sum_prefix(a.drop_first(), b, (n - 1) as nat);
        assert((a + b).drop_first() == a.drop_first() + b);
        assert((a + b)[0] == a[0]);
        assert((a + b).skip(n as int) == a.skip(n as int) + b);
        lemma_mc_decode_append(a.skip(n as int), b, mc);
        let head = seq![mc_value(a, n)] + (if mc_flag(a) {
            seq![mc]
        } else {
            Seq::empty()
        });
        assert(head + (mc_decode(a.skip(n as int), mc).unwrap() + mc_decode(b, mc).unwrap()) == (
        head + mc_decode(a.skip(n as int), mc).unwrap()) + mc_decode(b, mc).unwrap());
    }
}

/// Encoding values with any most common value and decoding the bytes with
/// the same most common value gives back the values.
pub proof fn lemma_mc_roundtrip(vals: Seq<u32>, mc: u32)
    ensures
        mc_decode(mc_encoding_seq(vals, mc), mc) == Some(vals),
    decreases vals.len(),
{
    if vals.len() == 0 {
        assert(vals == Seq::<u32>::empty());
    } else {
        let flag = vals.len() >= 2 && vals[1] == mc;
        let k: int = if flag {
            2
        } else {
            1
        };
        let tail = vals.skip(k);
        lemma_mc_roundtrip(tail, mc);
        let e = mc_encoding(vals[0], flag);
        let t = mc_encoding_seq(tail, mc);
        assert(mc_encoding_seq(vals, mc) == e + t);
        lemma_mc_encoding_reads_back(vals[0], flag, t);
        assert((e + t).skip(e.len() as int) == t);
        if flag {
            assert(seq![vals[0]] + seq![mc] + tail == vals);
        } else {
            assert(seq![vals[0]] + Seq::<u32>::empty() + tail == vals);
        }
    }
}

/// Each occurrence adds to the space of its value only.
proof fn lemma_space_used_prefix(vals: Seq<u32>, i: int, v: u32)
    requires
        0 <= i <= vals.len(),
    ensures
        space_used(vals.take(i), v) <= space_used(vals, v),
    decreases vals.len() - i,
{
    if i < vals.len() {
        lemma_space_used_prefix(vals, i + 1, v);
        assert(vals.take(i + 1).drop_last() == vals.take(i));
    } else {
        assert(vals.take(i) == vals);
    }
}

/// A value with some space occurs in the sequence.
proof fn lemma_space_used_occurs(vals: Seq<u32>, v: u32)
    requires
        space_used(vals, v) > 0,
    ensures
        vals.contains(v),
    decreases vals.len(),
{
    if vals.last() == v {
        assert(vals[vals.len() - 1] == v);
    } else {
        lemma_space_used_occurs(vals.drop_last(), v);
        let j = choose|j: int| 0 <= j < vals.drop_last().len() && vals.drop_last()[j] == v;
        assert(vals[j] == v);
    }
}

/// Appending the encoding of values to bytes that decode to some values
/// gives bytes that decode to those values followed by the new ones.
pub proof fn lemma_mc_append_encoded(data: Seq<u8>, vals: Seq<u32>, mc: u32)
    requires
        mc_decode(data, mc) is Some,
    ensures
        mc_decode(data + mc_encoding_seq(vals, mc), mc) == Some(mc_decode(data, mc).unwrap() + vals),
{
    lemma_mc_roundtrip(vals, mc);
    lemma_mc_decode_append(data, mc_encoding_seq(vals, mc), mc);
}

/// The chunks of `s`, each as the value it holds and its flag, in order; the
/// most common values that the flags stand for are not listed.
pub open spec fn mc_chunks(s: Seq<u8>) -> Seq<(u32, bool)>
    decreases s.len(),
{
    if s.len() == 0 {
        Seq::empty()
    } else {
        match chunk_len(s, 5) {
            Some(n) => {
                proof {
                    lemma_chunk_len_bounds(s, 5);
                }
                seq![(mc_value(s, n), mc_flag(s))] + mc_chunks(s.skip(n as int))
            },
            None => Seq::empty(),
        }
    }
}

/// The chunks of an encoding of a non-empty sequence: the first holds the
/// first value, and carries the flag exactly when the second value is the
/// most common one; the rest are the chunks of the values after those two,
/// or after the first alone.
proof fn lemma_mc_chunks_of_encoding(vals: Seq<u32>, mc: u32)
    requires
        vals.len() > 0,
    ensures
        ({
            let flagged = vals.len() >= 2 && vals[1] == mc;
            let k: int = if flagged {
                2
            } else {
                1
            };
            mc_chunks(mc_encoding_seq(vals, mc)) == seq![(vals[0], flagged)] + mc_chunks(
                mc_encoding_seq(vals.skip(k), mc),
            )
        }),
{
    let flagged = vals.len() >= 2 && vals[1] == mc;
    let k: int = if flagged {
        2
    } else {
        1
    };
    let e = mc_encoding(vals[0], flagged);
    let t = mc_encoding_seq(vals.skip(k), mc);
    assert(mc_encoding_seq(vals, mc) == e + t);
    lemma_mc_encoding_reads_back(vals[0], flagged, t);
    assert((e + t).skip(e.len() as int) == t);
}

/// In an encoding, a value carries the flagged exactly when the most common
/// value follows it: a chunk with the flagged stands for its value and the most
/// common value after it, and a chunk without the flagged is never followed by
/// a chunk that holds the most common value.
pub proof fn lemma_mc_flags_every_follower(vals: Seq<u32>, mc: u32)
    ensures
        forall|j: int|
            0 <= j < mc_chunks(mc_encoding_seq(vals, mc)).len() - 1 && !(#[trigger] mc_chunks(
                mc_encoding_seq(vals, mc),
            )[j]).1 ==> mc_chunks(mc_encoding_seq(vals, mc))[j + 1].0 != mc,
    decreases vals.len(),
{
    if vals.len() > 0 {
        let flagged = vals.len() >= 2 && vals[1] == mc;
        let k: int = if flagged {
            2
        } else {
            1
        };
        let tail = vals.skip(k);
        lemma_mc_chunks_of_encoding(vals, mc);
        lemma_mc_flags_every_follower(tail, mc);
        let c = mc_chunks(mc_encoding_seq(vals, mc));
        let ct = mc_chunks(mc_encoding_seq(tail, mc));
        assert forall|j: int| 0 <= j < c.len() - 1 && !(#[trigger] c[j]).1 implies c[j + 1].0
            != mc by {
            if j == 0 {
                lemma_mc_chunks_of_encoding(tail, mc);
                assert(tail[0] == vals[1]);
                assert(c[1] == ct[0]);
            } else {
                assert(c[j] == ct[j - 1]);
                assert(c[j + 1] == ct[j]);
            }
        }
    } else {
        assert(mc_encoding_seq(vals, mc).len() == 0);
    }
}

/// Two encodings one after the other, with the same most common value,
/// decode to the two sequences one after the other.
pub proof fn lemma_mc_encode_twice(a: Seq<u32>, b: Seq<u32>, mc: u32)
    ensures
        mc_decode(mc_encoding_seq(a, mc) + mc_encoding_seq(b, mc), mc) == Some(a + b),
{
    lemma_mc_roundtrip(a, mc);
    lemma_mc_append_encoded(mc_encoding_seq(a, mc), b, mc);
}

// ---------------------------------------------------------------------------
// The map from value to space, kept in an `FnvHashMap`
// ---------------------------------------------------------------------------

/// `fnv::FnvHasher`, the hasher of `FnvHashMap`, declared as an opaque
/// type.
#[verifier::external_type_specification]
#[verifier::external_body]
pub struct ExFnvHasher(FnvHasher);

/// `std::hash::BuildHasherDefault`, which builds the hashers of
/// `FnvHashMap`, declared as an opaque type.
#[verifier::external_type_specification]
#[verifier::external_body]
#[verifier::reject_recursive_types(H)]
pub struct ExBuildHasherDefault<H>(BuildHasherDefault<H>);

/// A map from value to the space it takes.
pub type SpaceMap = FnvHashMap<u32, u32>;

/// A value and the space it takes.
pub type SpaceEntry = (u32, u32);

/// The entries of a map from value to the space it takes.
pub uninterp spec fn space_map_contents(m: SpaceMap) -> Map<u32, u32>;

/// `FnvHashMap::default`: a map with no entry.
#[verifier::external_body]
fn space_map_new() -> (m: SpaceMap)
    ensures
        space_map_contents(m).dom().is_empty(),
{
    FnvHashMap::default()
}

/// `FnvHashMap::get`: the space recorded for `key`, `None` when the map has
/// no entry for it.
#[verifier::external_body]
fn space_map_get(m: &SpaceMap, key: u32) -> (r: Option<u32>)
    ensures
        r == (if space_map_contents(*m).contains_key(key) {
            Some(space_map_contents(*m)[key])
        } else {
            None
        }),
{
    m.get(&key).copied()
}

/// `FnvHashMap::insert`: the entry of `key` becomes `value`; the other
/// entries stay.
#[verifier::external_body]
fn space_map_insert(m: &mut SpaceMap, key: u32, value: u32)
    ensures
        space_map_contents(*final(m)) == space_map_contents(*old(m)).insert(key, value),
{
    m.insert(key, value);
}

/// `FnvHashMap::iter`, each entry copied out: every entry of the map comes
/// out once. The order in which they come out depends on how the map is
/// walked, and is not stated.
#[verifier::external_body]
fn space_map_entries(m: &SpaceMap) -> (r: Vec<SpaceEntry>)
    ensures
        forall|i: int|
            0 <= i < r@.len() ==> space_map_contents(*m).contains_key(#[trigger] r@[i].0)
                && space_map_contents(*m)[r@[i].0] == r@[i].1,
        forall|i: int, j: int| 0 <= i < j < r@.len() ==> r@[i].0 != r@[j].0,
        forall|k: u32| #[trigger]
            space_map_contents(*m).contains_key(k) ==> exists|i: int|
                0 <= i < r@.len() && r@[i].0 == k,
{
    m.iter().map(|(key, val)| (*key, *val)).collect()
}

// ---------------------------------------------------------------------------
// The array
// ---------------------------------------------------------------------------

/// An array of `u32` values in the encoding of this module.
#[derive(Debug, Clone)]
pub struct VIntArrayEncodeMostCommon {
    pub data: Vec<u8>,
    pub most_common_val: Option<u32>,
}

impl Default for VIntArrayEncodeMostCommon {
    fn default() -> (r: Self)
        ensures
            r.data@ == Seq::<u8>::empty(),
            r.most_common_val is None,
    {
        VIntArrayEncodeMostCommon { data: Vec::new(), most_common_val: None }
    }
}

enum BytesRequired {
    One,
    Two,
    Three,
    Four,
    Five,
}

impl BytesRequired {
    spec fn count(&self) -> nat {
        match self {
            BytesRequired::One => 1,
            BytesRequired::Two => 2,
            BytesRequired::Three => 3,
            BytesRequired::Four => 4,
            BytesRequired::Five => 5,
        }
    }

    fn as_u32(&self) -> (r: u32)
        ensures
            r == self.count(),
    {
        match self {
            BytesRequired::One => 1,
            BytesRequired::Two => 2,
            BytesRequired::Three => 3,
            BytesRequired::Four => 4,
            BytesRequired::Five => 5,
        }
    }
}

fn get_bytes_required(val: u32) -> (r: BytesRequired)
    ensures
        r.count() == mc_bytes_required(val),
{
    if val < 0x40 {
        BytesRequired::One
    } else if val < 0x2000 {
        BytesRequired::Two
    } else if val < 0x10_0000 {
        BytesRequired::Three
    } else if val < 0x800_0000 {
        BytesRequired::Four
    } else {
        BytesRequired::Five
    }
}

/// The value that takes the most room in `vals`, with that room: the
/// value's byte count times the number of its occurrences.
pub open spec fn is_most_space(vals: Seq<u32>, v: u32, space: u32) -> bool {
    &&& vals.contains(v)
    &&& space == space_used(vals, v)
    &&& forall|w: u32| #[trigger] space_used(vals, w) <= space
}

/// Whether `v` occurs in `vals` and no value of `vals` takes more bytes in
/// all.
pub open spec fn is_most_common(vals: Seq<u32>, v: u32) -> bool {
    &&& vals.contains(v)
    &&& forall|w: u32| #[trigger] space_used(vals, w) <= space_used(vals, v)
}

/// The byte written for a group of bits: in the first
/// block, bit 6 becomes the flag; in a block that is not the last, bit 7 is
/// set.
pub open spec fn block_byte(group: u8, first: bool, flag: bool, last: bool) -> u8 {
    let b: int = if first {
        group / 128 * 128 + (if flag {
            64int
        } else {
            0int
        }) + group % 64
    } else {
        group as int
    };
    (if last {
        b
    } else {
        b % 128 + 128
    }) as u8
}

impl VIntArrayEncodeMostCommon {
    /// A value of `vals` that takes the most bytes in all, and that number of
    /// bytes. The entries of the map are scanned in the order the map gives
    /// them, and the last one with the most space wins; since that order is
    /// the map's, which of several values with the most space comes out is
    /// left open.
    pub fn get_space_used_by_most_common_val(&mut self, vals: &[u32]) -> (r: (u32, u32))
        requires
            vals.len() > 0,
            forall|w: u32| #[trigger] space_used(vals@, w) <= u32::MAX,
        ensures
            *final(self) == *old(self),
            is_most_space(vals@, r.0, r.1),
    {
        let mut m = space_map_new();
        let mut i: usize = 0;
        while i < vals.len()
            invariant
                i <= vals.len(),
                forall|w: u32| #[trigger] space_used(vals@, w) <= u32::MAX,
                forall|w: u32|
                    #[trigger] space_map_contents(m).contains_key(w) <==> space_used(
                        vals@.take(i as int),
                        w,
                    ) > 0,
                forall|w: u32|
                    #[trigger] space_map_contents(m).contains_key(w) ==> space_map_contents(m)[w]
                        == space_used(vals@.take(i as int), w),
            decreases vals.len() - i,
        {
            let val = vals[i];
            let bytes = get_bytes_required(val).as_u32();
            proof {
                assert(vals@.take(i + 1).drop_last() == vals@.take(i as int));
                lemma_space_used_prefix(vals@, i + 1, val);
                assert forall|w: u32| space_used(vals@.take(i + 1), w) == space_used(
                    vals@.take(i as int),
                    w,
                ) + if w == val {
                    mc_bytes_required(val)
                } else {
                    0
                } by {}
            }
            let current: u32 = match space_map_get(&m, val) {
                Some(space) => space,
                None => 0,
            };
            assert(current + bytes == space_used(vals@.take(i + 1), val));
            space_map_insert(&mut m, val, current + bytes);
            i = i + 1;
        }
        assert(vals@.take(vals.len() as int) == vals@);
        assert(space_used(vals@.take(1), vals@[0]) > 0) by {
            assert(vals@.take(1).drop_last().len() == 0);
        }
        proof {
            lemma_space_used_prefix(vals@, 1, vals@[0]);
        }
        assert(space_map_contents(m).contains_key(vals@[0]));
        let entries = space_map_entries(&m);
        assert(exists|j: int| 0 <= j < entries@.len() && entries@[j].0 == vals@[0]);
        let mut best: SpaceEntry = entries[0];
        let mut k: usize = 1;
        while k < entries.len()
            invariant
                1 <= k <= entries.len(),
                forall|i: int|
                    0 <= i < entries@.len() ==> space_map_contents(m).contains_key(
                        #[trigger] entries@[i].0,
                    ) && space_map_contents(m)[entries@[i].0] == entries@[i].1,
                space_map_contents(m).contains_key(best.0),
                space_map_contents(m)[best.0] == best.1,
                forall|i: int| 0 <= i < k ==> #[trigger] entries@[i].1 <= best.1,
            decreases entries.len() - k,
        {
            if entries[k].1 >= best.1 {
                best = entries[k];
            }
            k = k + 1;
        }
        let (key, space) = best;
        proof {
            lemma_space_used_occurs(vals@, key);
            assert forall|w: u32| #[trigger] space_used(vals@, w) <= space by {
                if space_used(vals@, w) > 0 {
                    assert(space_map_contents(m).contains_key(w));
                    let j = choose|j: int| 0 <= j < entries@.len() && entries@[j].0 == w;
                    assert(entries@[j].1 <= space);
                }
            }
        }
        (key, space)
    }
}

/// The bytes that the blocks of `val` give are its encoding.
proof fn lemma_blocks(val: u32, flag: bool)
    ensures
        ({
            let g0 = (val % 256) as u8;
            let g1 = (val / 64 % 256) as u8;
            let g2 = (val / 0x2000 % 256) as u8;
            let g3 = (val / 0x10_0000 % 256) as u8;
            let g4 = (val / 0x800_0000 % 256) as u8;
            let n = mc_bytes_required(val);
            &&& n == 1 ==> mc_encoding(val, flag) == seq![block_byte(g0, true, flag, true)]
            &&& n == 2 ==> mc_encoding(val, flag) == seq![
                block_byte(g0, true, flag, false),
                block_byte(g1, false, flag, true),
            ]
            &&& n == 3 ==> mc_encoding(val, flag) == seq![
                block_byte(g0, true, flag, false),
                block_byte(g1, false, flag, false),
                block_byte(g2, false, flag, true),
            ]
            &&& n == 4 ==> mc_encoding(val, flag) == seq![
                block_byte(g0, true, flag, false),
                block_byte(g1, false, flag, false),
                block_byte(g2, false, flag, false),
                block_byte(g3, false, flag, true),
            ]
            &&& n == 5 ==> mc_encoding(val, flag) == seq![
                block_byte(g0, true, flag, false),
                block_byte(g1, false, flag, false),
                block_byte(g2, false, flag, false),
                block_byte(g3, false, flag, false),
                block_byte(g4, false, flag, true),
            ]
        }),
{
    let v = val as int;
    let g0 = (val % 256) as u8;
    assert(g0 as int == v % 256);
    assert(g0 % 64 == v % 64) by {
        vstd::arithmetic::div_mod::lemma_mod_mod(v, 64, 4);
    }
    assert((v / 64 % 256) % 128 == v / 64 % 128) by {
        vstd::arithmetic::div_mod::lemma_mod_mod(v / 64, 128, 2);
    }
    assert((v / 0x2000 % 256) % 128 == v / 0x2000 % 128) by {
        vstd::arithmetic::div_mod::lemma_mod_mod(v / 0x2000, 128, 2);
    }
    assert((v / 0x10_0000 % 256) % 128 == v / 0x10_0000 % 128) by {
        vstd::arithmetic::div_mod::lemma_mod_mod(v / 0x10_0000, 128, 2);
    }
    lemma_digits(v);
}

impl VIntArrayEncodeMostCommon {
    fn push_n_set(&mut self, group: u8, is_first_block: bool, next_is_most_common_val: bool, last_block: bool)
        ensures
            final(self).data@ == old(self).data@.push(
                block_byte(group, is_first_block, next_is_most_common_val, last_block),
            ),
            final(self).most_common_val == old(self).most_common_val,
    {
        let mut byte = group;
        if is_first_block {
            if next_is_most_common_val {
                byte = set_second_high_bit_u8(byte);
            } else {
                byte = unset_second_high_bit_u8(byte);
            }
        }
        if last_block {
            self.data.push(byte);
        } else {
            self.data.push(set_high_bit_u8(byte));
        }
    }

    fn encode(&mut self, val: u32, next_is_most_common_val: bool)
        ensures
            final(self).data@ == old(self).data@ + mc_encoding(val, next_is_most_common_val),
            final(self).most_common_val == old(self).most_common_val,
    {
        let ghost start = self.data@;
        let flag = next_is_most_common_val;
        let g0 = (val % 256) as u8;
        let g1 = (val / 64 % 256) as u8;
        let g2 = (val / 0x2000 % 256) as u8;
        let g3 = (val / 0x10_0000 % 256) as u8;
        let g4 = (val / 0x800_0000 % 256) as u8;
        proof {
            lemma_blocks(val, flag);
        }
        match get_bytes_required(val) {
            BytesRequired::One => {
                self.push_n_set(g0, true, flag, true);
                assert(self.data@ == start + seq![block_byte(g0, true, flag, true)]);
            },
            BytesRequired::Two => {
                self.push_n_set(g0, true, flag, false);
                self.push_n_set(g1, false, flag, true);
                assert(self.data@ == start + seq![
                    block_byte(g0, true, flag, false),
                    block_byte(g1, false, flag, true),
                ]);
            },
            BytesRequired::Three => {
                self.push_n_set(g0, true, flag, false);
                self.push_n_set(g1, false, flag, false);
                self.push_n_set(g2, false, flag, true);
                assert(self.data@ == start + seq![
                    block_byte(g0, true, flag, false),
                    block_byte(g1, false, flag, false),
                    block_byte(g2, false, flag, true),
                ]);
            },
            BytesRequired::Four => {
                self.push_n_set(g0, true, flag, false);
                self.push_n_set(g1, false, flag, false);
                self.push_n_set(g2, false, flag, false);
                self.push_n_set(g3, false, flag, true);
                assert(self.data@ == start + seq![
                    block_byte(g0, true, flag, false),
                    block_byte(g1, false, flag, false),
                    block_byte(g2, false, flag, false),
                    block_byte(g3, false, flag, true),
                ]);
            },
            BytesRequired::Five => {
                self.push_n_set(g0, true, flag, false);
                self.push_n_set(g1, false, flag, false);
                self.push_n_set(g2, false, flag, false);
                self.push_n_set(g3, false, flag, false);
                self.push_n_set(g4, false, flag, true);
                assert(self.data@ == start + seq![
                    block_byte(g0, true, flag, false),
                    block_byte(g1, false, flag, false),
                    block_byte(g2, false, flag, false),
                    block_byte(g3, false, flag, false),
                    block_byte(g4, false, flag, true),
                ]);
            },
        }
    }

    /// Appends the encoding of `vals`. The first time values are added, the
    /// value that takes the most bytes among them becomes the most common
    /// value, and it stays so for later calls.
    pub fn encode_vals(&mut self, vals: &[u32])
        requires
            old(self).most_common_val is None && vals.len() > 0 ==> forall|w: u32| #[trigger]
                space_used(vals@, w) <= u32::MAX,
        ensures
            vals.len() == 0 ==> *final(self) == *old(self),
            vals.len() > 0 ==> {
                &&& final(self).most_common_val is Some
                &&& old(self).most_common_val is Some ==> final(self).most_common_val
                    == old(self).most_common_val
                &&& old(self).most_common_val is None ==> is_most_common(
                    vals@,
                    final(self).most_common_val.unwrap(),
                )
                &&& final(self).data@ == old(self).data@ + mc_encoding_seq(
                    vals@,
                    final(self).most_common_val.unwrap(),
                )
            },
    {
        if vals.len() == 0 {
            return;
        }
        if self.most_common_val.is_none() {
            let (most_common_val, _space_used) = self.get_space_used_by_most_common_val(vals);
            self.most_common_val = Some(most_common_val);
        }
        let mc = match self.most_common_val {
            Some(m) => m,
            None => 0,
        };
        let ghost start = self.data@;
        let mut i: usize = 0;
        assert(vals@.skip(0) == vals@);
        while i < vals.len()
            invariant
                i <= vals.len(),
                self.most_common_val == Some(mc),
                self.data@ + mc_encoding_seq(vals@.skip(i as int), mc) == start + mc_encoding_seq(
                    vals@,
                    mc,
                ),
            decreases vals.len() - i,
        {
            let ghost rest = vals@.skip(i as int);
            let ghost before = self.data@;
            assert(rest[0] == vals@[i as int]);
            if i + 1 < vals.len() && vals[i + 1] == mc {
                self.encode(vals[i], true);
                assert(rest[1] == vals@[i + 1]);
                assert(rest.skip(2) == vals@.skip(i + 2));
                assert(mc_encoding_seq(rest, mc) == mc_encoding(vals@[i as int], true) + mc_encoding_seq(rest.skip(2), mc));
                i = i + 2;
            } else {
                self.encode(vals[i], false);
                assert(rest.skip(1) == vals@.skip(i + 1));
                assert(mc_encoding_seq(rest, mc) == mc_encoding(vals@[i as int], false) + mc_encoding_seq(rest.skip(1), mc));
                i = i + 1;
            }
        }
        assert(vals@.skip(vals.len() as int).len() == 0);
        assert(self.data@ + Seq::<u8>::empty() == self.data@);
    }

    /// The byte at `pos` without its high bit, and whether that bit was set.
    pub fn decode_u8(&self, pos: usize) -> (r: (u8, bool))
        requires
            pos < self.data.len(),
        ensures
            r.0 == self.data@[pos as int] % 128,
            r.1 == (self.data@[pos as int] >= 128),
    {
        let el = self.data[pos];
        if is_high_bit_set(el) {
            (unset_high_bit_u8(el), true)
        } else {
            (el, false)
        }
    }

    /// Puts the seven bits of the byte at `pos` into `*val`, as bits
    /// `7 * offset - 1` and up; returns whether another byte follows.
    fn get_apply_bits(&self, pos: usize, offset: usize, val: &mut u32) -> (r: bool)
        requires
            pos < self.data.len(),
            1 <= offset <= 4,
        ensures
            *final(val) == *old(val) | (((self.data@[pos as int] % 128) as u32) << group_shift(
                offset as nat,
            )),
            r == (self.data@[pos as int] >= 128),
    {
        let (val_u8, has_more) = self.decode_u8(pos);
        let shift: u32 = if offset == 1 {
            6
        } else if offset == 2 {
            13
        } else if offset == 3 {
            20
        } else {
            27
        };
        *val = *val | ((val_u8 as u32) << shift);
        has_more
    }

    /// Reads the array from its first value.
    pub fn iter(&self) -> (r: VintArrayMostCommonIterator<'_>)
        ensures
            r.wf(),
            r.bytes() == self.data@,
            r.position() == 0,
            r.pending() is None,
            r.common() == (match self.most_common_val {
                Some(m) => m,
                None => 0,
            }),
    {
        VintArrayMostCommonIterator {
            list: self,
            pos: 0,
            len: self.data.len(),
            next_val: None,
            most_common_val: match self.most_common_val {
                Some(m) => m,
                None => 0,
            },
        }
    }
}

/// The position of the lowest bit of the group of seven bits at `offset`
/// (1 to 4) in a value.
pub open spec fn group_shift(offset: nat) -> u32 {
    if offset == 1 {
        6
    } else if offset == 2 {
        13
    } else if offset == 3 {
        20
    } else {
        27
    }
}

/// Putting a group of seven bits above the bits already read is adding it
/// at its weight.
proof fn lemma_group_or_is_add(v: u32, b: u32)
    requires
        b < 128,
    ensures
        v < 0x40 ==> v | (b << 6u32) == v + b * 0x40,
        v < 0x2000 ==> v | (b << 13u32) == v + b * 0x2000,
        v < 0x10_0000 ==> v | (b << 20u32) == v + b * 0x10_0000,
        v < 0x800_0000 ==> v | (b << 27u32) == v + (b % 32) * 0x800_0000,
        v < 0x800_0000 ==> v + (b % 32) * 0x800_0000 == (v + 0x800_0000 * b) % 0x1_0000_0000,
{
    assert(b < 128 && v < 0x40 ==> v | (b << 6u32) == v + b * 0x40) by (bit_vector);
    assert(b < 128 && v < 0x2000 ==> v | (b << 13u32) == v + b * 0x2000) by (bit_vector);
    assert(b < 128 && v < 0x10_0000 ==> v | (b << 20u32) == v + b * 0x10_0000) by (bit_vector);
    assert(b < 128 && v < 0x800_0000 ==> v | (b << 27u32) == v + (b % 32) * 0x800_0000)
        by (bit_vector);
    if v < 0x800_0000 {
        let q = b / 32;
        let x = v + 0x800_0000 * (b % 32);
        assert(v + 0x800_0000 * b == x + 0x1_0000_0000 * q);
        vstd::arithmetic::div_mod::lemma_mod_multiples_vanish(q as int, x as int, 0x1_0000_0000);
        vstd::arithmetic::div_mod::lemma_small_mod(x as nat, 0x1_0000_0000);
    }
}

/// Reads the values of a `VIntArrayEncodeMostCommon`.
#[derive(Debug, Clone)]
pub struct VintArrayMostCommonIterator<'a> {
    list: &'a VIntArrayEncodeMostCommon,
    pos: usize,
    len: usize,
    next_val: Option<u32>,
    most_common_val: u32,
}

impl<'a> VintArrayMostCommonIterator<'a> {
    /// The bytes being read.
    pub closed spec fn bytes(&self) -> Seq<u8> {
        self.list.data@
    }

    /// The offset of the next byte to read.
    pub closed spec fn position(&self) -> nat {
        self.pos as nat
    }

    /// The most common value, due next when the last value read carried the
    /// flag.
    pub closed spec fn pending(&self) -> Option<u32> {
        self.next_val
    }

    /// The most common value of the array.
    pub closed spec fn common(&self) -> u32 {
        self.most_common_val
    }

    /// The offset lies within the bytes.
    pub closed spec fn wf(&self) -> bool {
        &&& self.pos <= self.len
        &&& self.len == self.list.data.len()
    }

    /// The bytes not read yet.
    pub open spec fn rest_bytes(&self) -> Seq<u8> {
        self.bytes().skip(self.position() as int)
    }

    /// The values left to read; `None` when the bytes left end in the middle
    /// of a value.
    pub open spec fn remaining(&self) -> Option<Seq<u32>> {
        match mc_decode(self.rest_bytes(), self.common()) {
            Some(r) => Some(
                match self.pending() {
                    Some(v) => seq![v] + r,
                    None => r,
                },
            ),
            None => None,
        }
    }

    /// The next value: the pending most common value if there is one, else
    /// the value at the offset, whose flag then makes the most common value
    /// pending. `None`, with nothing changed, at the end of the bytes.
    pub fn next(&mut self) -> (r: Option<u32>)
        requires
            old(self).wf(),
            old(self).pending() is None && old(self).position() < old(self).bytes().len()
                ==> chunk_len(old(self).rest_bytes(), 5) is Some,
        ensures
            final(self).wf(),
            final(self).bytes() == old(self).bytes(),
            final(self).common() == old(self).common(),
            old(self).pending() matches Some(v) ==> {
                &&& r == Some(v)
                &&& final(self).pending() is None
                &&& final(self).position() == old(self).position()
            },
            old(self).pending() is None && old(self).position() == old(self).bytes().len() ==> {
                &&& r is None
                &&& final(self).pending() is None
                &&& final(self).position() == old(self).position()
            },
            old(self).pending() is None && old(self).position() < old(self).bytes().len() ==> ({
                let s = old(self).rest_bytes();
                let n = chunk_len(s, 5).unwrap();
                &&& r == Some(mc_value(s, n))
                &&& final(self).position() == old(self).position() + n
                &&& final(self).pending() == (if mc_flag(s) {
                    Some(old(self).common())
                } else {
                    None
                })
            }),
    {
        if let Some(next_val) = self.next_val {
            self.next_val = None;
            return Some(next_val);
        }
        if self.pos == self.len {
            return None;
        }
        let ghost s = self.list.data@.skip(self.pos as int);
        let ghost start = self.pos;
        proof {
            lemma_mc_chunk(s);
        }
        let ghost n = chunk_len(s, 5).unwrap();
        assert(s[0] == self.list.data@[start as int]);
        let (mut val_u8, has_more) = self.list.decode_u8(self.pos);
        if is_second_high_bit_set(val_u8) {
            val_u8 = unset_second_high_bit_u8(val_u8);
            self.next_val = Some(self.most_common_val);
        }
        self.pos = self.pos + 1;
        let mut val = val_u8 as u32;
        assert(val == s[0] % 64);
        if has_more {
            assert(s[1] == self.list.data@[start + 1]);
            proof {
                lemma_group_or_is_add(val, (s[1] % 128) as u32);
            }
            let has_more = self.list.get_apply_bits(self.pos, 1, &mut val);
            assert(val == s[0] % 64 + 0x40 * (s[1] % 128));
            self.pos = self.pos + 1;
            if has_more {
                assert(s[2] == self.list.data@[start + 2]);
                proof {
                    lemma_group_or_is_add(val, (s[2] % 128) as u32);
                }
                let has_more = self.list.get_apply_bits(self.pos, 2, &mut val);
                assert(val == s[0] % 64 + 0x40 * (s[1] % 128) + 0x2000 * (s[2] % 128));
                self.pos = self.pos + 1;
                if has_more {
                    assert(s[3] == self.list.data@[start + 3]);
                    proof {
                        lemma_group_or_is_add(val, (s[3] % 128) as u32);
                    }
                    let has_more = self.list.get_apply_bits(self.pos, 3, &mut val);
                    assert(val == s[0] % 64 + 0x40 * (s[1] % 128) + 0x2000 * (s[2] % 128)
                        + 0x10_0000 * (s[3] % 128));
                    self.pos = self.pos + 1;
                    if has_more {
                        assert(s[4] == self.list.data@[start + 4]);
                        proof {
                            lemma_group_or_is_add(val, (s[4] % 128) as u32);
                        }
                        self.list.get_apply_bits(self.pos, 4, &mut val);
                        self.pos = self.pos + 1;
                    }
                }
            }
        }
        Some(val)
    }

    /// The bounds reported for the values left: `len - pos / 2` and
    /// `len - pos`.
    pub fn size_hint(&self) -> (r: (usize, Option<usize>))
        requires
            self.wf(),
        ensures
            r == (((self.bytes().len() - self.position() / 2) as usize, Some(
                (self.bytes().len() - self.position()) as usize,
            ))),
    {
        (self.len - self.pos / 2, Some(self.len - self.pos))
    }

    /// All the values left to read, in order.
    pub fn collect(self) -> (r: Vec<u32>)
        requires
            self.wf(),
            self.remaining() is Some,
        ensures
            r@ == self.remaining().unwrap(),
    {
        let mut it = self;
        let mut out: Vec<u32> = Vec::new();
        while it.next_val.is_some() || it.pos < it.len
            invariant
                it.wf(),
                it.bytes() == self.bytes(),
                it.common() == self.common(),
                it.remaining() is Some,
                out@ + it.remaining().unwrap() == self.remaining().unwrap(),
            decreases it.len - it.pos, if it.next_val is Some {
                1int
            } else {
                0int
            },
        {
            let ghost s = it.rest_bytes();
            let ghost before = it.remaining().unwrap();
            let ghost had = it.next_val;
            proof {
                lemma_chunk_len_bounds(s, 5);
            }
            let v = it.next();
            let x = v.unwrap();
            out.push(x);
            proof {
                if had is None {
                    let n = chunk_len(s, 5).unwrap();
                    assert(s.skip(n as int) == it.rest_bytes());
                    let rest = mc_decode(s.skip(n as int), it.common()).unwrap();
                    if mc_flag(s) {
                        assert(seq![x] + seq![it.common()] + rest == seq![x] + (seq![it.common()] + rest));
                    } else {
                        assert(seq![x] + Seq::<u32>::empty() + rest == seq![x] + rest);
                    }
                }
                assert(before == seq![x] + it.remaining().unwrap());
            }
            assert(out@ + it.remaining().unwrap() == (out@.drop_last() + seq![x]) + it.remaining().unwrap());
        }
        assert(it.rest_bytes().len() == 0);
        assert(out@ + Seq::<u32>::empty() == out@);
        out
    }
}

} // verus!
