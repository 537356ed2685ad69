//! Variable-length encoding of `u32` values: seven bits per byte, least
//! significant group first, and the high bit of a byte set when another byte
//! of the same value follows.

use vstd::prelude::*;

verus! {

// ---------------------------------------------------------------------------
// The format
// ---------------------------------------------------------------------------

/// The bytes that encode `v`: its low seven bits, with the high bit set when
/// more bits follow, then the encoding of the rest.
pub open spec fn varint_encoding(v: nat) -> Seq<u8>
    decreases v,
{
    if v < 128 {
        seq![v as u8]
    } else {
        seq![(v % 128 + 128) as u8] + varint_encoding(v / 128)
    }
}

/// The encodings of `vals`, one after the other.
pub open spec fn varints_encoding(vals: Seq<u32>) -> Seq<u8>
    decreases vals.len(),
{
    if vals.len() == 0 {
        Seq::empty()
    } else {
        varints_encoding(vals.drop_last()) + varint_encoding(vals.last() as nat)
    }
}

/// The number of bytes of the chunk that starts `s`: up to and including the
/// first byte whose high bit is clear, and at most `budget` bytes, the last of
/// which ends the chunk whatever its high bit. `None` when `s` ends first.
pub open spec fn chunk_len(s: Seq<u8>, budget: nat) -> Option<nat>
    decreases budget,
{
    if s.len() == 0 || budget == 0 {
        None
    } else if budget == 1 || s[0] < 128 {
        Some(1)
    } else {
        match chunk_len(s.drop_first(), (budget - 1) as nat) {
            Some(n) => Some(n + 1),
            None => None,
        }
    }
}

/// The low seven bits of the first `n` bytes of `s`, read as digits in base
/// 128, least significant first.
pub open spec fn low7_sum(s: Seq<u8>, n: nat) -> nat
    decreases n,
{
    if n == 0 {
        0
    } else {
        (s[0] % 128) as nat + 128 * low7_sum(s.drop_first(), (n - 1) as nat)
    }
}

/// The value encoded at the start of `s` and the number of its bytes: at most
/// five bytes are read, and the value is taken modulo 2^32.
pub open spec fn varint_decode(s: Seq<u8>) -> Option<(u32, nat)> {
    match chunk_len(s, 5) {
        Some(n) => Some(((low7_sum(s, n) % 0x1_0000_0000) as u32, n)),
        None => None,
    }
}

/// The values encoded one after the other in `s`; `None` when `s` ends in the
/// middle of a value.
pub open spec fn varints_decode(s: Seq<u8>) -> Option<Seq<u32>>
    decreases s.len(),
{
    if s.len() == 0 {
        Some(Seq::empty())
    } else {
        match chunk_len(s, 5) {
            Some(n) => {
                proof {
                    lemma_chunk_len_bounds(s, 5);
                }
                match varints_decode(s.skip(n as int)) {
                    Some(rest) => Some(seq![(low7_sum(s, n) % 0x1_0000_0000) as u32] + rest),
                    None => None,
                }
            },
            None => None,
        }
    }
}

// ---------------------------------------------------------------------------
// Lemmas on the format
// ---------------------------------------------------------------------------

/// A chunk is at least one byte long and fits both in `s` and in the budget.
pub proof fn lemma_chunk_len_bounds(s: Seq<u8>, budget: nat)
    ensures
        chunk_len(s, budget) matches Some(n) ==> 1 <= n <= s.len() && n <= budget,
    decreases budget,
{
    if s.len() > 0 && budget > 1 && s[0] >= 128 {
        lemma_chunk_len_bounds(s.drop_first(), (budget - 1) as nat);
    }
}

/// What follows a chunk does not change where the chunk ends.
pub proof fn lemma_chunk_len_prefix(s: Seq<u8>, t: Seq<u8>, budget: nat)
    requires
        chunk_len(s, budget) is Some,
    ensures
        chunk_len(s + t, budget) == chunk_len(s, budget),
    decreases budget,
{
    lemma_chunk_len_bounds(s, budget);
    assert((s + t)[0] == s[0]);
    if budget > 1 && s[0] >= 128 {
        assert((s + t).drop_first() == s.drop_first() + t);
        lemma_chunk_len_prefix(s.drop_first(), t, (budget - 1) as nat);
    }
}

/// The sum over the first `n` bytes reads only those bytes.
pub proof fn lemma_low7_sum_prefix(s: Seq<u8>, t: Seq<u8>, n: nat)
    requires
        n <= s.len(),
    ensures
        low7_sum(s + t, n) == low7_sum(s, n),
    decreases n,
{
    if n > 0 {
        assert((s + t)[0] == s[0]);
        assert((s + t).drop_first() == s.drop_first() + t);
        lemma_low7_sum_prefix(s.drop_first(), t, (n - 1) as nat);
    }
}

/// 128 to the power `k`.
pub open spec fn pow128(k: nat) -> nat
    decreases k,
{
    if k == 0 {
        1
    } else {
        128 * pow128((k - 1) as nat)
    }
}

/// An encoding is one byte longer for each further factor 128 of the value.
pub proof fn lemma_varint_encoding_len(v: nat, k: nat)
    requires
        v < pow128(k),
        k >= 1,
    ensures
        1 <= varint_encoding(v).len() <= k,
    decreases v,
{
    if v >= 128 {
        assert(k >= 2) by {
            if k == 1 {
                assert(pow128(0) == 1);
            }
        }
        lemma_varint_encoding_len(v / 128, (k - 1) as nat);
    }
}

/// The encoding of a `u32` takes one to five bytes.
pub proof fn lemma_varint_encoding_len_u32(v: u32)
    ensures
        1 <= varint_encoding(v as nat).len() <= 5,
{
    reveal_with_fuel(pow128, 6);
    lemma_varint_encoding_len(v as nat, 5);
}

/// In an encoding every byte but the last has its high bit set, and the
/// seven-bit digits give back the value.
proof fn lemma_varint_encoding_reads_back(v: nat, rest: Seq<u8>, budget: nat)
    requires
        varint_encoding(v).len() <= budget,
    ensures
        chunk_len(varint_encoding(v) + rest, budget) == Some(varint_encoding(v).len()),
        low7_sum(varint_encoding(v) + rest, varint_encoding(v).len()) == v,
    decreases v,
{
    let e = varint_encoding(v);
    let s = e + rest;
    if v < 128 {
        assert(s[0] == v as u8);
        assert(low7_sum(s.drop_first(), 0) == 0);
    } else {
        let t = varint_encoding(v / 128);
        assert(e == seq![(v % 128 + 128) as u8] + t);
        assert(s[0] == (v % 128 + 128) as u8);
        assert(s.drop_first() == t + rest);
        lemma_varint_encoding_reads_back(v / 128, rest, (budget - 1) as nat);
        if t.len() == 0 {
            assert(false);
        }
    }
}

/// Decoding the encoding of `v`, whatever follows it, gives back `v` and the
/// length of its encoding.
pub proof fn lemma_varint_roundtrip(v: u32, rest: Seq<u8>)
    ensures
        varint_decode(varint_encoding(v as nat) + rest) == Some((v, varint_encoding(v as nat).len())),
{
    lemma_varint_encoding_len_u32(v);
    lemma_varint_encoding_reads_back(v as nat, rest, 5);
}

/// Decoding a concatenation of two well-formed byte strings gives the values
/// of the first followed by those of the second.
pub proof fn lemma_varints_decode_append(a: Seq<u8>, b: Seq<u8>)
    requires
        varints_decode(a) is Some,
        varints_decode(b) is Some,
    ensures
        varints_decode(a + b) == Some(varints_decode(a).unwrap() + varints_decode(b).unwrap()),
    decreases a.len(),
{
    if a.len() == 0 {
        assert(a + b == b);
        assert(varints_decode(a).unwrap() + varints_decode(b).unwrap() == varints_decode(b).unwrap());
    } else {
        let n = chunk_len(a, 5).unwrap();
        lemma_chunk_len_bounds(a, 5);
        lemma_chunk_len_prefix(a, b, 5);
        lemma_low7_sum_prefix(a, b, n);
        assert((a + b).skip(n as int) == a.skip(n as int) + b);
        lemma_varints_decode_append(a.skip(n as int), b);
        let v = (low7_sum(a, n) % 0x1_0000_0000) as u32;
        assert(seq![v] + (varints_decode(a.skip(n as int)).unwrap() + varints_decode(b).unwrap())
            == (seq![v] + varints_decode(a.skip(n as int)).unwrap()) + varints_decode(b).unwrap());
    }
}

/// Decoding the encoding of one value gives that value alone.
pub proof fn lemma_varints_decode_single(v: u32)
    ensures
        varints_decode(varint_encoding(v as nat)) == Some(seq![v]),
{
    let e = varint_encoding(v as nat);
    lemma_varint_roundtrip(v, Seq::empty());
    assert(e + Seq::<u8>::empty() == e);
    assert(e.skip(e.len() as int).len() == 0);
    assert(varints_decode(e.skip(e.len() as int)) == Some(Seq::<u32>::empty()));
    assert(seq![v] + Seq::<u32>::empty() == seq![v]);
}

/// Encoding a sequence of values and decoding the bytes gives back the
/// sequence.
pub proof fn lemma_varints_roundtrip(vals: Seq<u32>)
    ensures
        varints_decode(varints_encoding(vals)) == Some(vals),
    decreases vals.len(),
{
    if vals.len() == 0 {
        assert(varints_encoding(vals).len() == 0);
        assert(vals == Seq::<u32>::empty());
    } else {
        lemma_varints_roundtrip(vals.drop_last());
        lemma_varints_decode_single(vals.last());
        lemma_varints_decode_append(
            varints_encoding(vals.drop_last()),
            varint_encoding(vals.last() as nat),
        );
        assert(vals.drop_last() + seq![vals.last()] == vals);
    }
}

// ---------------------------------------------------------------------------
// Encoding and decoding one value
// ---------------------------------------------------------------------------

/// Appends the encoding of `value` to `output`.
pub fn encode_varint_into(output: &mut Vec<u8>, value: u32)
    ensures
        final(output)@ == old(output)@ + varint_encoding(value as nat),
{
    let mut v = value;
    while v >= 128
        invariant
            output@ + varint_encoding(v as nat) == old(output)@ + varint_encoding(value as nat),
        decreases v,
    {
        let ghost before = output@;
        output.push((v % 128 + 128) as u8);
        assert(varint_encoding(v as nat) == seq![(v % 128 + 128) as u8] + varint_encoding(
            (v / 128) as nat,
        ));
        assert(output@ + varint_encoding((v / 128) as nat) == before + varint_encoding(v as nat));
        v = v / 128;
    }
    let ghost before = output@;
    output.push(v as u8);
    assert(output@ == before + varint_encoding(v as nat));
}

proof fn lemma_top_digit(low: nat, b: u8)
    requires
        low < 0x1000_0000,
    ensures
        (low + 0x1000_0000 * ((b % 128) as nat)) % 0x1_0000_0000 == low + 0x1000_0000 * ((b
            % 16) as nat),
{
    let q = (b % 128) / 16;
    assert((b % 128) as nat == (b % 16) as nat + 16 * q);
    let x = low + 0x1000_0000 * ((b % 16) as nat);
    assert(low + 0x1000_0000 * ((b % 128) as nat) == x + 0x1_0000_0000 * q);
    vstd::arithmetic::div_mod::lemma_mod_multiples_vanish(q as int, x as int, 0x1_0000_0000);
    vstd::arithmetic::div_mod::lemma_small_mod(x, 0x1_0000_0000);
}

/// Reads the value encoded at `*pos` in `input` and moves `*pos` past it.
/// Returns `None`, and leaves `*pos` as it is, when `*pos` is at the end of
/// `input`.
pub fn decode_varint(input: &[u8], pos: &mut usize) -> (r: Option<u32>)
    requires
        *old(pos) <= input.len(),
        *old(pos) < input.len() ==> varint_decode(input@.skip(*old(pos) as int)) is Some,
    ensures
        *old(pos) == input.len() ==> r is None && *final(pos) == *old(pos),
        *old(pos) < input.len() ==> ({
            let (v, n) = varint_decode(input@.skip(*old(pos) as int)).unwrap();
            &&& r == Some(v)
            &&& *final(pos) == *old(pos) + n
        }),
{
    let start = *pos;
    if start == input.len() {
        return None;
    }
    let ghost s = input@.skip(start as int);
    proof {
        lemma_chunk_len_bounds(s, 5);
        reveal_with_fuel(chunk_len, 6);
        reveal_with_fuel(low7_sum, 6);
    }
    let b0 = input[start];
    let mut ret: u32 = (b0 % 128) as u32;
    assert(s[0] == b0);
    if b0 < 128 {
        *pos = start + 1;
        return Some(ret);
    }
    assert(s.drop_first()[0] == s[1]);
    let b1 = input[start + 1];
    ret = ret + (b1 % 128) as u32 * 128;
    if b1 < 128 {
        *pos = start + 2;
        return Some(ret);
    }
    assert(s.drop_first().drop_first()[0] == s[2]);
    let b2 = input[start + 2];
    ret = ret + (b2 % 128) as u32 * 0x4000;
    if b2 < 128 {
        *pos = start + 3;
        return Some(ret);
    }
    assert(s.drop_first().drop_first().drop_first()[0] == s[3]);
    let b3 = input[start + 3];
    ret = ret + (b3 % 128) as u32 * 0x20_0000;
    if b3 < 128 {
        *pos = start + 4;
        return Some(ret);
    }
    assert(s.drop_first().drop_first().drop_first().drop_first()[0] == s[4]);
    let b4 = input[start + 4];
    proof {
        lemma_top_digit(ret as nat, b4);
    }
    ret = ret + (b4 % 16) as u32 * 0x1000_0000;
    *pos = start + 5;
    Some(ret)
}

/// Where a chunk ends, seen from a scan: when the bytes before `i` all have
/// their high bit set, the chunk ends at `i` if byte `i` ends it, and there
/// is no chunk yet if `s` ends before.
pub proof fn lemma_chunk_len_scan(s: Seq<u8>, budget: nat, i: nat)
    requires
        i < budget,
        forall|j: int| 0 <= j < i && j < s.len() ==> #[trigger] s[j] >= 128,
    ensures
        s.len() <= i ==> chunk_len(s, budget) is None,
        i < s.len() && (i + 1 == budget || s[i as int] < 128) ==> chunk_len(s, budget) == Some(
            (i + 1) as nat,
        ),
    decreases i,
{
    if i > 0 && s.len() > 0 {
        assert(s[0] >= 128);
        assert forall|j: int| 0 <= j < i - 1 && j < s.drop_first().len() implies #[trigger]
            s.drop_first()[j] >= 128 by {
            assert(s.drop_first()[j] == s[j + 1]);
        }
        if i < s.len() {
            assert(s.drop_first()[i - 1] == s[i as int]);
        }
        lemma_chunk_len_scan(s.drop_first(), (budget - 1) as nat, (i - 1) as nat);
    }
}

/// Whether a reader that has taken the bytes `read` of a value must take
/// another byte: `read` does not hold a complete value yet.
pub fn varint_needs_more_bytes(read: &[u8]) -> (r: bool)
    ensures
        r == (chunk_len(read@, 5) is None),
{
    let mut i: usize = 0;
    while i < read.len()
        invariant
            i <= 4,
            i <= read.len(),
            forall|j: int| 0 <= j < i ==> #[trigger] read@[j] >= 128,
        decreases read.len() - i,
    {
        if i == 4 || read[i] < 128 {
            proof {
                lemma_chunk_len_scan(read@, 5, i as nat);
            }
            return false;
        }
        i = i + 1;
    }
    proof {
        lemma_chunk_len_scan(read@, 5, i as nat);
    }
    true
}

// ---------------------------------------------------------------------------
// Framing: a length in front of a byte string
// ---------------------------------------------------------------------------

/// What `VIntArray::serialize` writes for the bytes `data`: the length of
/// `data`, cut to 32 bits, then `data` itself.
pub open spec fn framed(data: Seq<u8>) -> Seq<u8> {
    varint_encoding((data.len() as u32) as nat) + data
}

/// Whether `VintArrayIterator::from_slice` can read `s`: either `s` is empty,
/// or it starts with a complete length and holds that many bytes after it.
pub open spec fn frame_readable(s: Seq<u8>) -> bool {
    s.len() == 0 || (varint_decode(s) matches Some((size, n)) && n + size <= s.len())
}

/// The bytes of the frame at the start of `s`: empty when `s` is.
pub open spec fn frame_payload(s: Seq<u8>) -> Seq<u8> {
    if s.len() == 0 {
        Seq::empty()
    } else {
        let (size, n) = varint_decode(s).unwrap();
        s.subrange(n as int, n + size)
    }
}

/// Framing bytes and reading the frame back gives the bytes, as long as their
/// length fits in 32 bits: `VintArrayIterator::from_slice` on the result of
/// `VIntArray::serialize` reads the array's bytes, and so its values.
pub proof fn lemma_frame_roundtrip(data: Seq<u8>)
    requires
        data.len() <= u32::MAX,
    ensures
        frame_readable(framed(data)),
        frame_payload(framed(data)) == data,
        varints_decode(frame_payload(framed(data))) == varints_decode(data),
{
    let e = varint_encoding((data.len() as u32) as nat);
    lemma_varint_roundtrip(data.len() as u32, data);
    assert(framed(data).subrange(e.len() as int, (e.len() + data.len()) as int) == data);
}

// ---------------------------------------------------------------------------
// Reading values from a byte slice
// ---------------------------------------------------------------------------

/// Reads the values encoded in `data`, from `pos` on.
#[derive(Debug, Clone)]
pub struct VintArrayIterator<'a> {
    pub data: &'a [u8],
    /// the current offset in the slice
    pub pos: usize,
}

impl<'a> VintArrayIterator<'a> {
    /// The values left to read; `None` when the bytes from `pos` on end in
    /// the middle of a value.
    pub open spec fn remaining(&self) -> Option<Seq<u32>> {
        varints_decode(self.data@.skip(self.pos as int))
    }

    /// Reads `data` from its start.
    pub fn new(data: &'a [u8]) -> (r: Self)
        ensures
            r.data@ == data@,
            r.pos == 0,
    {
        VintArrayIterator { data, pos: 0 }
    }

    /// Reads the values of the frame that starts `data` (see
    /// `VIntArray::serialize`): a length, then that many bytes of values.
    pub fn from_slice(data: &'a [u8]) -> (r: Self)
        requires
            frame_readable(data@),
        ensures
            r.data@ == frame_payload(data@),
            r.pos == 0,
    {
        let mut iter = VintArrayIterator::new(data);
        assert(data@.skip(0) == data@);
        if let Some(size) = iter.next() {
            VintArrayIterator::new(&data[iter.pos..iter.pos + size as usize])
        } else {
            VintArrayIterator::new(&data[0..0])
        }
    }

    /// The next value, and `pos` moved past it; `None`, with nothing changed,
    /// once `pos` is at the end of `data`.
    pub fn next(&mut self) -> (r: Option<u32>)
        requires
            old(self).pos <= old(self).data.len(),
            old(self).pos < old(self).data.len() ==> varint_decode(
                old(self).data@.skip(old(self).pos as int),
            ) is Some,
        ensures
            final(self).data == old(self).data,
            old(self).pos == old(self).data.len() ==> r is None && final(self).pos == old(self).pos,
            old(self).pos < old(self).data.len() ==> ({
                let (v, n) = varint_decode(old(self).data@.skip(old(self).pos as int)).unwrap();
                &&& r == Some(v)
                &&& final(self).pos == old(self).pos + n
            }),
    {
        let mut pos = self.pos;
        let r = decode_varint(self.data, &mut pos);
        self.pos = pos;
        r
    }

    /// The bounds reported for the values left: `data.len() - pos / 2`
    /// and `data.len() - pos`.
    pub fn size_hint(&self) -> (r: (usize, Option<usize>))
        requires
            self.pos <= self.data.len(),
        ensures
            r == (((self.data.len() - self.pos / 2) as usize, Some((self.data.len() - self.pos) as usize))),
    {
        (self.data.len() - self.pos / 2, Some(self.data.len() - self.pos))
    }

    /// All the values left to read, in order.
    pub fn collect(self) -> (r: Vec<u32>)
        requires
            self.pos <= self.data.len(),
            self.remaining() is Some,
        ensures
            r@ == self.remaining().unwrap(),
    {
        let mut it = self;
        let mut out: Vec<u32> = Vec::new();
        while it.pos < it.data.len()
            invariant
                it.data@ == self.data@,
                it.pos <= it.data.len(),
                it.remaining() is Some,
                out@ + it.remaining().unwrap() == self.remaining().unwrap(),
            decreases it.data.len() - it.pos,
        {
            let ghost s = it.data@.skip(it.pos as int);
            let ghost old_pos = it.pos;
            let ghost rest = it.remaining().unwrap();
            proof {
                lemma_chunk_len_bounds(s, 5);
            }
            let v = it.next();
            let ghost n = chunk_len(s, 5).unwrap();
            assert(s.skip(n as int) == it.data@.skip(it.pos as int));
            let x = v.unwrap();
            out.push(x);
            assert(rest == seq![x] + it.remaining().unwrap());
            assert(out@ + it.remaining().unwrap() == (out@.drop_last() + seq![x]) + it.remaining().unwrap());
        }
        assert(it.data@.skip(it.pos as int).len() == 0);
        assert(out@ + Seq::<u32>::empty() == out@);
        out
    }
}

// ---------------------------------------------------------------------------
// An array of values kept in their encoding
// ---------------------------------------------------------------------------

/// An array of `u32` values, kept as the concatenation of their encodings.
#[derive(Debug, Clone)]
pub struct VIntArray {
    pub data: Vec<u8>,
}

impl Default for VIntArray {
    fn default() -> (r: Self)
        ensures
            r.data@ == Seq::<u8>::empty(),
    {
        VIntArray { data: Vec::new() }
    }
}

impl VIntArray {
    /// Appends the encodings of `vals`, in order.
    pub fn encode_vals(&mut self, vals: &[u32])
        ensures
            final(self).data@ == old(self).data@ + varints_encoding(vals@),
    {
        let mut i: usize = 0;
        while i < vals.len()
            invariant
                i <= vals.len(),
                self.data@ == old(self).data@ + varints_encoding(vals@.take(i as int)),
            decreases vals.len() - i,
        {
            let ghost before = self.data@;
            encode_varint_into(&mut self.data, vals[i]);
            assert(vals@.take(i + 1).drop_last() == vals@.take(i as int));
            i = i + 1;
        }
        assert(vals@.take(vals.len() as int) == vals@);
    }

    /// The frame of the array: the number of its bytes, cut to 32 bits, then
    /// the bytes. (Room for four bytes more than the data is reserved; a byte
    /// vector never comes near `usize::MAX` in length, so the sum is taken
    /// saturating.)
    pub fn serialize(&self) -> (r: Vec<u8>)
        ensures
            r@ == framed(self.data@),
    {
        let mut serialized: Vec<u8> = Vec::with_capacity(self.data.len().saturating_add(4));
        encode_varint_into(&mut serialized, self.data.len() as u32);
        let ghost head = serialized@;
        let mut i: usize = 0;
        while i < self.data.len()
            invariant
                i <= self.data.len(),
                serialized@ == head + self.data@.take(i as int),
            decreases self.data.len() - i,
        {
            serialized.push(self.data[i]);
            assert(self.data@.take(i + 1) == self.data@.take(i as int).push(self.data@[i as int]));
            i = i + 1;
        }
        assert(self.data@.take(self.data.len() as int) == self.data@);
        serialized
    }

    /// Appends the encoding of `val`.
    pub fn encode(&mut self, val: u32)
        ensures
            final(self).data@ == old(self).data@ + varint_encoding(val as nat),
    {
        encode_varint_into(&mut self.data, val);
    }

    /// Reads the array from its first value.
    pub fn iter(&self) -> (r: VintArrayIterator<'_>)
        ensures
            r.data@ == self.data@,
            r.pos == 0,
    {
        VintArrayIterator::new(&self.data)
    }
}

/// Appending the encodings of `vals` to bytes that decode to some values
/// gives bytes that decode to those values followed by `vals`.
pub proof fn lemma_append_encoded(data: Seq<u8>, vals: Seq<u32>)
    requires
        varints_decode(data) is Some,
    ensures
        varints_decode(data + varints_encoding(vals)) == Some(varints_decode(data).unwrap() + vals),
{
    lemma_varints_roundtrip(vals);
    lemma_varints_decode_append(data, varints_encoding(vals));
}

} // verus!
