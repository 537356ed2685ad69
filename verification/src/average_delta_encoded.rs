//! Values stored as their distance to a line through zero whose slope is the
//! average increase of the values, shifted so that no distance is negative.
//! Each value can then be decoded on its own, from its position.

use vstd::prelude::*;

verus! {

/// The result of `delta_and_average_encode`.
#[derive(Debug)]
pub struct AverageEncodedDelta {
    pub avg_increase: u32,
    pub offset: i32,
    pub data: Vec<i32>,
}

/// The last value divided by the number of values, the latter cut to 32
/// bits.
pub open spec fn average_increase(vals: Seq<u32>) -> u32 {
    (vals.last() / (vals.len() as u32)) as u32
}

/// The point of the line at position `i`: the average increase times
/// `i + 1`.
pub open spec fn line_point(vals: Seq<u32>, i: int) -> usize {
    (average_increase(vals) * (i + 1)) as usize
}

/// The distance of the value at `i` to the line, computed in 64 bits and cut
/// to 32.
pub open spec fn raw_delta(vals: Seq<u32>, i: int) -> i32 {
    ((vals[i] as i64) - (line_point(vals, i) as i64)) as i32
}

/// The distances of all values to the line.
pub open spec fn raw_deltas(vals: Seq<u32>) -> Seq<i32> {
    Seq::new(vals.len(), |i: int| raw_delta(vals, i))
}

/// The least element of a non-empty sequence.
pub open spec fn seq_min(s: Seq<i32>) -> i32
    decreases s.len(),
{
    if s.len() <= 1 {
        s[0]
    } else if s.last() < seq_min(s.drop_last()) {
        s.last()
    } else {
        seq_min(s.drop_last())
    }
}

/// The offset that `delta_and_average_encode` keeps: the least distance.
pub open spec fn delta_offset(vals: Seq<u32>) -> i32 {
    seq_min(raw_deltas(vals))
}

/// The distances that `delta_and_average_encode` keeps: shifted up by the
/// least one when that is negative.
pub open spec fn shifted_deltas(vals: Seq<u32>) -> Seq<i32> {
    if delta_offset(vals) < 0 {
        Seq::new(vals.len(), |i: int| (raw_delta(vals, i) - delta_offset(vals)) as i32)
    } else {
        raw_deltas(vals)
    }
}

/// The kept distances as unsigned values.
pub open spec fn unsigned_deltas(vals: Seq<u32>) -> Seq<u32> {
    shifted_deltas(vals).map_values(|d: i32| d as u32)
}

/// The inputs on which `delta_and_average_encode` runs without a panic: a
/// non-zero count (cut to 32 bits), and no overflow in the products, the
/// 64-bit differences or the shift.
pub open spec fn delta_encodable(vals: Seq<u32>) -> bool {
    &&& vals.len() > 0
    &&& (vals.len() as u32) != 0
    &&& average_increase(vals) * vals.len() <= usize::MAX
    &&& forall|i: int|
        0 <= i < vals.len() ==> i64::MIN <= #[trigger] vals[i] as int - line_point(vals, i) as i64
            <= i64::MAX
    &&& delta_offset(vals) < 0 ==> forall|i: int|
        0 <= i < vals.len() ==> #[trigger] raw_delta(vals, i) - delta_offset(vals) <= i32::MAX
}

/// The greatest element of a non-empty sequence.
pub open spec fn seq_max(s: Seq<i32>) -> i32
    decreases s.len(),
{
    if s.len() <= 1 {
        s[0]
    } else if s.last() > seq_max(s.drop_last()) {
        s.last()
    } else {
        seq_max(s.drop_last())
    }
}

/// The distances that `delta_and_average_encode` keeps are never negative.
pub proof fn lemma_shifted_deltas_nonnegative(vals: Seq<u32>, i: int)
    requires
        delta_encodable(vals),
        0 <= i < vals.len(),
    ensures
        shifted_deltas(vals)[i] >= 0,
{
    lemma_seq_min_le(raw_deltas(vals), i);
}

pub proof fn lemma_seq_max_step(s: Seq<i32>, i: int)
    requires
        1 <= i < s.len(),
    ensures
        seq_max(s.take(i + 1)) == if s[i] > seq_max(s.take(i)) {
            s[i]
        } else {
            seq_max(s.take(i))
        },
{
    assert(s.take(i + 1).drop_last() == s.take(i));
}

pub proof fn lemma_seq_max_ge(s: Seq<i32>, i: int)
    requires
        0 <= i < s.len(),
    ensures
        seq_max(s) >= s[i],
    decreases s.len(),
{
    if s.len() > 1 {
        if i < s.len() - 1 {
            lemma_seq_max_ge(s.drop_last(), i);
        }
    }
}

/// The greatest element of a non-empty sequence is one of its elements.
pub proof fn lemma_seq_max_attained(s: Seq<i32>)
    requires
        s.len() > 0,
    ensures
        exists|i: int| 0 <= i < s.len() && s[i] == seq_max(s),
    decreases s.len(),
{
    if s.len() > 1 {
        lemma_seq_max_attained(s.drop_last());
        let i = choose|i: int| 0 <= i < s.drop_last().len() && s.drop_last()[i] == seq_max(s.drop_last());
        assert(s[i] == s.drop_last()[i]);
        assert(s[s.len() - 1] == s.last());
    } else {
        assert(s[0] == seq_max(s));
    }
}

/// The slope of the line is the last value divided by the number of values
/// (cut to 32 bits), rounded down: that many times the count does not pass
/// the last value, one more time does.
pub proof fn lemma_average_increase_is_last_over_count(vals: Seq<u32>)
    requires
        vals.len() > 0,
        (vals.len() as u32) != 0,
    ensures
        ({
            let n = (vals.len() as u32) as int;
            let a = average_increase(vals) as int;
            let last = vals[vals.len() - 1] as int;
            &&& a * n <= last
            &&& last < a * n + n
        }),
{
    let n = (vals.len() as u32) as int;
    let last = vals[vals.len() - 1] as int;
    assert(vals.last() == vals[vals.len() - 1]);
    vstd::arithmetic::div_mod::lemma_fundamental_div_mod(last, n);
    vstd::arithmetic::div_mod::lemma_div_pos_is_pos(last, n);
    vstd::arithmetic::div_mod::lemma_div_is_ordered_by_denominator(last, 1, n);
    assert(last / n <= last);
    assert(average_increase(vals) as int == last / n);
    assert(n * (last / n) == (last / n) * n) by (nonlinear_arith);
}

proof fn lemma_seq_min_step(s: Seq<i32>, i: int)
    requires
        1 <= i < s.len(),
    ensures
        seq_min(s.take(i + 1)) == if s[i] < seq_min(s.take(i)) {
            s[i]
        } else {
            seq_min(s.take(i))
        },
{
    assert(s.take(i + 1).drop_last() == s.take(i));
}

proof fn lemma_seq_min_le(s: Seq<i32>, i: int)
    requires
        0 <= i < s.len(),
    ensures
        seq_min(s) <= s[i],
    decreases s.len(),
{
    if s.len() > 1 {
        if i < s.len() - 1 {
            lemma_seq_min_le(s.drop_last(), i);
        }
    }
}

/// Encodes `vals` as distances to the line of their average increase.
pub fn delta_and_average_encode(vals: &[u32]) -> (r: AverageEncodedDelta)
    requires
        delta_encodable(vals@),
    ensures
        r.avg_increase == average_increase(vals@),
        r.avg_increase as int == vals@[vals.len() - 1] as int / ((vals.len() as u32) as int),
        r.offset == delta_offset(vals@),
        r.data@ == shifted_deltas(vals@),
{
    let len = vals.len();
    let avg_increase: u32 = vals[len - 1] / (len as u32);
    let mut deltas: Vec<i32> = Vec::new();
    let mut pos: usize = 0;
    while pos < len
        invariant
            len == vals.len(),
            delta_encodable(vals@),
            avg_increase == average_increase(vals@),
            pos <= len,
            deltas@ == raw_deltas(vals@).take(pos as int),
        decreases len - pos,
    {
        assert((avg_increase as int) * (pos + 1) <= (avg_increase as int) * len) by (nonlinear_arith)
            requires
                pos + 1 <= len,
        ;
        let point: usize = avg_increase as usize * (pos + 1);
        assert(vals@[pos as int] as int - line_point(vals@, pos as int) as i64 <= i64::MAX);
        let d = (vals[pos] as i64 - point as i64) as i32;
        deltas.push(d);
        assert(raw_deltas(vals@).take(pos + 1) == raw_deltas(vals@).take(pos as int).push(d));
        pos = pos + 1;
    }
    assert(raw_deltas(vals@).take(len as int) == raw_deltas(vals@));
    let mut offset: i32 = deltas[0];
    let mut i: usize = 1;
    assert(raw_deltas(vals@).take(1).len() == 1);
    while i < len
        invariant
            len == vals.len(),
            deltas@ == raw_deltas(vals@),
            1 <= i <= len,
            offset == seq_min(raw_deltas(vals@).take(i as int)),
        decreases len - i,
    {
        proof {
            lemma_seq_min_step(raw_deltas(vals@), i as int);
        }
        if deltas[i] < offset {
            offset = deltas[i];
        }
        i = i + 1;
    }
    if offset < 0 {
        let mut shifted: Vec<i32> = Vec::new();
        let mut j: usize = 0;
        while j < len
            invariant
                len == vals.len(),
                delta_encodable(vals@),
                deltas@ == raw_deltas(vals@),
                offset == delta_offset(vals@),
                offset < 0,
                j <= len,
                shifted@ == shifted_deltas(vals@).take(j as int),
            decreases len - j,
        {
            assert(raw_delta(vals@, j as int) - delta_offset(vals@) <= i32::MAX);
            shifted.push(deltas[j] - offset);
            assert(shifted_deltas(vals@).take(j + 1) == shifted_deltas(vals@).take(j as int).push(
                (deltas@[j as int] - offset) as i32,
            ));
            j = j + 1;
        }
        assert(shifted_deltas(vals@).take(len as int) == shifted_deltas(vals@));
        deltas = shifted;
    }
    AverageEncodedDelta { offset: offset, data: deltas, avg_increase }
}

/// The inputs on which `decode_average_encoded_delta` runs without a panic:
/// no 32-bit signed overflow in its sums and product.
pub open spec fn decode_ok(val: i32, pos: usize, offset: i32, avg_increase: u32) -> bool {
    let a = avg_increase as i32;
    let q = pos as i32;
    &&& q + 1 <= i32::MAX
    &&& i32::MIN <= a * (q + 1) <= i32::MAX
    &&& i32::MIN <= val + offset <= i32::MAX
    &&& i32::MIN <= val + offset + a * (q + 1) <= i32::MAX
}

/// What `decode_average_encoded_delta` returns: the stored distance, the
/// offset and the point of the line, added in 32 bits and read as unsigned.
pub open spec fn decoded_value(val: i32, pos: usize, offset: i32, avg_increase: u32) -> u32 {
    (val + offset + (avg_increase as i32) * ((pos as i32) + 1)) as u32
}

/// The value at `pos`, from its stored distance `val`.
pub fn decode_average_encoded_delta(val: i32, pos: usize, offset: i32, avg_increase: u32) -> (r:
    u32)
    requires
        decode_ok(val, pos, offset, avg_increase),
    ensures
        r == decoded_value(val, pos, offset, avg_increase),
{
    (val + offset + (avg_increase as i32 * (pos as i32 + 1)) as i32) as u32
}

/// Decoding the distance kept at position `i` gives back the value there,
/// provided that the offset is not positive and the decoding does not
/// overflow. (With a positive offset the distances are kept unshifted, yet
/// decoding still adds the offset.)
pub proof fn lemma_average_delta_roundtrip(vals: Seq<u32>, pos: usize)
    requires
        vals.len() <= usize::MAX,
        delta_encodable(vals),
        delta_offset(vals) <= 0,
        pos < vals.len(),
        decode_ok(shifted_deltas(vals)[pos as int], pos, delta_offset(vals), average_increase(vals)),
    ensures
        decoded_value(shifted_deltas(vals)[pos as int], pos, delta_offset(vals), average_increase(vals))
            == vals[pos as int],
{
    let i = pos as int;
    let v: u32 = vals[i];
    let avg: u32 = average_increase(vals);
    let k: usize = (pos + 1) as usize;
    assert((avg as int) * (i + 1) <= (avg as int) * vals.len()) by (nonlinear_arith)
        requires
            i + 1 <= vals.len(),
    ;
    let s: usize = line_point(vals, i);
    assert(s == (avg as usize) * k);
    let big: i64 = s as i64;
    assert(i64::MIN <= v as int - big <= i64::MAX);
    let diff: i64 = (v as i64 - big) as i64;
    let d: i32 = diff as i32;
    assert(d == raw_delta(vals, i));
    let o: i32 = delta_offset(vals);
    let e: i32 = shifted_deltas(vals)[i];
    assert(e + o == d);
    let a: i32 = avg as i32;
    let q: i32 = pos as i32;
    let m: i32 = (a * (q + 1)) as i32;
    assert(m == a * (q + 1));
    assert(decoded_value(e, pos, o, avg) == (d + m) as u32);
    let x: u32 = (avg * (k as u32)) as u32;
    assert(s == (avg as usize) * k ==> s as u32 == x) by (bit_vector)
        requires
            x == (avg * (k as u32)) as u32,
    ;
    assert((s as i64) as u32 == s as u32) by (bit_vector);
    assert(i64::MIN <= v - big <= i64::MAX ==> (((v - big) as i64) as i32) as u32 == ((v - (
    big as u32)) as u32)) by (bit_vector);
    assert((avg as i32) as u32 == avg) by (bit_vector);
    assert(k == pos + 1 ==> ((pos as i32) + 1) as u32 == k as u32) by (bit_vector);
    assert(i32::MIN <= a * (q + 1) <= i32::MAX ==> ((a * (q + 1)) as i32) as u32 == ((a as u32) * ((
    q + 1) as u32)) as u32) by (bit_vector);
    assert(i32::MIN <= d + m <= i32::MAX ==> (d + m) as u32 == ((d as u32) + (m as u32)) as u32)
        by (bit_vector);
    assert((((v - x) as u32) + x) as u32 == v) by (bit_vector);
}

} // verus!
