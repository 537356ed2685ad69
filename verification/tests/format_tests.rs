use vint::average_delta_encoded::decode_average_encoded_delta;
use vint::average_delta_encoded::delta_and_average_encode;
use vint::bitpacked_ra::encode_vals_bitpacked_average_endcoded as encode_bits;
use vint::bitpacked_ra::vec_to_bytes_u32;
use vint::bitpacked_ra_step::decode_bit_packed_val;
use vint::bitpacked_ra_step::encode_vals;
use vint::bitpacked_ra_step::encode_vals_bitpacked_average_endcoded as encode_bytes;
use vint::bitpacked_ra_step::BytesRequired;
use vint::util::is_high_bit_set;
use vint::util::is_second_high_bit_set;
use vint::util::le_byte_of;
use vint::util::set_high_bit_u8;
use vint::util::set_second_high_bit_u8;
use vint::util::unset_high_bit_u8;
use vint::util::unset_second_high_bit_u8;
use vint::vint::decode_varint;
use vint::vint::encode_varint_into;
use vint::vint::varint_needs_more_bytes;
use vint::vint::VIntArray;
use vint::vint::VintArrayIterator;
use vint::vint_encode_most_common::VIntArrayEncodeMostCommon;

/// A small deterministic generator of test values.
fn pseudo_random(seed: &mut u64) -> u32 {
    *seed = seed.wrapping_mul(6364136223846793005).wrapping_add(1442695040888963407);
    (*seed >> 33) as u32
}

fn encoded(value: u32) -> Vec<u8> {
    let mut out = Vec::new();
    encode_varint_into(&mut out, value);
    out
}

#[test]
fn varint_bytes_of_small_and_large_values() {
    assert_eq!(encoded(0), vec![0]);
    assert_eq!(encoded(8), vec![0b0000_1000]);
    assert_eq!(encoded(127), vec![127]);
    assert_eq!(encoded(136), vec![0b1000_1000, 0b0000_0001]);
    assert_eq!(encoded(16383), vec![0xff, 0x7f]);
    assert_eq!(encoded(16384), vec![0x80, 0x80, 0x01]);
    assert_eq!(encoded(u32::MAX), vec![0xff, 0xff, 0xff, 0xff, 0x0f]);
}

#[test]
fn varint_appends_to_existing_bytes() {
    let mut out = vec![9, 9];
    encode_varint_into(&mut out, 300);
    assert_eq!(out, vec![9, 9, 0xac, 0x02]);
}

#[test]
fn varint_roundtrip_many_values() {
    let mut seed = 7;
    for _ in 0..2000 {
        let v = pseudo_random(&mut seed) >> (pseudo_random(&mut seed) % 32);
        let mut bytes = encoded(v);
        bytes.push(0x55);
        let mut pos = 0;
        assert_eq!(decode_varint(&bytes, &mut pos), Some(v));
        assert_eq!(pos, bytes.len() - 1);
    }
}

#[test]
fn decode_at_end_gives_none_and_keeps_position() {
    let bytes = vec![5u8];
    let mut pos = 1;
    assert_eq!(decode_varint(&bytes, &mut pos), None);
    assert_eq!(pos, 1);
}

#[test]
fn decode_reads_at_most_five_bytes() {
    let bytes = vec![0xff, 0xff, 0xff, 0xff, 0xff, 0x01];
    let mut pos = 0;
    assert_eq!(decode_varint(&bytes, &mut pos), Some(u32::MAX));
    assert_eq!(pos, 5);
    let mut pos = 5;
    assert_eq!(decode_varint(&bytes, &mut pos), Some(1));
}

#[test]
fn needs_more_bytes_until_a_value_is_complete() {
    assert!(varint_needs_more_bytes(&[]));
    assert!(varint_needs_more_bytes(&[0x80]));
    assert!(!varint_needs_more_bytes(&[0x7f]));
    assert!(!varint_needs_more_bytes(&[0x80, 0x01]));
    assert!(varint_needs_more_bytes(&[0x80, 0x80, 0x80, 0x80]));
    assert!(!varint_needs_more_bytes(&[0x80, 0x80, 0x80, 0x80, 0x80]));
}

#[test]
fn array_roundtrip_and_append() {
    let mut seed = 11;
    let first: Vec<u32> = (0..300).map(|_| pseudo_random(&mut seed) / 8).collect();
    let second: Vec<u32> = (0..50).map(|_| pseudo_random(&mut seed) % 1000).collect();
    let mut arr = VIntArray::default();
    arr.encode_vals(&first);
    assert_eq!(arr.iter().collect(), first);
    arr.encode_vals(&second);
    let mut all = first.clone();
    all.extend_from_slice(&second);
    assert_eq!(arr.iter().collect(), all);
}

#[test]
fn array_iterator_is_fused() {
    let mut arr = VIntArray::default();
    arr.encode(300);
    let mut it = arr.iter();
    assert_eq!(it.next(), Some(300));
    assert_eq!(it.pos, 2);
    assert_eq!(it.next(), None);
    assert_eq!(it.next(), None);
    assert_eq!(it.pos, 2);
}

#[test]
fn iterator_size_hint_as_computed() {
    let data = vec![1u8, 2, 3, 4, 5, 6];
    let mut it = VintArrayIterator::new(&data);
    assert_eq!(it.size_hint(), (6, Some(6)));
    it.next();
    it.next();
    it.next();
    it.next();
    assert_eq!(it.size_hint(), (4, Some(2)));
}

#[test]
fn serialize_puts_the_length_first() {
    let mut arr = VIntArray::default();
    arr.encode_vals(&[1, 300, 70000]);
    assert_eq!(arr.data, vec![1, 0xac, 0x02, 0xf0, 0xa2, 0x04]);
    let ser = arr.serialize();
    assert_eq!(ser, vec![6, 1, 0xac, 0x02, 0xf0, 0xa2, 0x04]);
    let it = VintArrayIterator::from_slice(&ser);
    assert_eq!(it.pos, 0);
    assert_eq!(it.data, &ser[1..]);
    assert_eq!(it.collect(), vec![1, 300, 70000]);
}

#[test]
fn from_slice_reads_only_the_frame() {
    let bytes = vec![2u8, 7, 8, 9, 10];
    let it = VintArrayIterator::from_slice(&bytes);
    assert_eq!(it.data, &[7u8, 8][..]);
    assert_eq!(it.collect(), vec![7, 8]);
    let empty: Vec<u8> = vec![];
    let it = VintArrayIterator::from_slice(&empty);
    assert_eq!(it.collect(), Vec::<u32>::new());
}

#[test]
fn most_common_bytes_of_a_flagged_pair() {
    let mut arr = VIntArrayEncodeMostCommon::default();
    arr.encode_vals(&[1000, 1000, 1000]);
    assert_eq!(arr.most_common_val, Some(1000));
    assert_eq!(arr.data, vec![232, 15, 168, 15]);
}

#[test]
fn most_common_bytes_of_each_length() {
    let mut arr = VIntArrayEncodeMostCommon::default();
    arr.most_common_val = Some(7);
    arr.encode_vals(&[5, 100, 10_000, 2_000_000]);
    assert_eq!(
        arr.data,
        vec![5, 0x80 | 36, 1, 0x80 | 16, 0x80 | 28, 1, 0x80, 0x80 | 0x12, 0x80 | 0x74, 1]
    );
    assert_eq!(arr.iter().collect(), vec![5, 100, 10_000, 2_000_000]);
}

#[test]
fn most_common_value_takes_the_most_space() {
    let mut arr = VIntArrayEncodeMostCommon::default();
    assert_eq!(arr.get_space_used_by_most_common_val(&[1000, 5, 5, 5]), (5, 3));
    assert_eq!(arr.get_space_used_by_most_common_val(&[1000, 1000, 5, 5, 5]), (1000, 4));
    assert_eq!(arr.get_space_used_by_most_common_val(&[70_000]), (70_000, 3));
    assert_eq!(arr.data, Vec::<u8>::new());
    assert_eq!(arr.most_common_val, None);
}

#[test]
fn most_common_value_is_kept_across_calls() {
    let mut arr = VIntArrayEncodeMostCommon::default();
    arr.encode_vals(&[]);
    assert_eq!(arr.most_common_val, None);
    arr.encode_vals(&[3, 3, 9]);
    assert_eq!(arr.most_common_val, Some(3));
    arr.encode_vals(&[9, 9, 9, 9]);
    assert_eq!(arr.most_common_val, Some(3));
    assert_eq!(arr.iter().collect(), vec![3, 3, 9, 9, 9, 9, 9]);
}

#[test]
fn most_common_roundtrip_many_values() {
    let mut seed = 3;
    let vals: Vec<u32> = (0..500)
        .map(|_| {
            let r = pseudo_random(&mut seed);
            if r % 3 == 0 { 42 } else { (r % 0x800_0000) >> (r % 27) }
        })
        .collect();
    let mut arr = VIntArrayEncodeMostCommon::default();
    arr.encode_vals(&vals);
    assert_eq!(arr.most_common_val, Some(42));
    assert_eq!(arr.iter().collect(), vals);
    let mut it = arr.iter();
    let mut count = 0;
    while let Some(_) = it.next() {
        count += 1;
    }
    assert_eq!(count, vals.len());
    assert_eq!(it.next(), None);
}

#[test]
fn most_common_values_from_bit_27_on_take_five_bytes() {
    let mut arr = VIntArrayEncodeMostCommon::default();
    arr.most_common_val = Some(1);
    arr.encode_vals(&[0x7ff_ffff, 0x800_0000, u32::MAX]);
    assert_eq!(
        arr.data,
        vec![0xbf, 0xff, 0xff, 0x7f, 0x80, 0x80, 0x80, 0x80, 0x01, 0xbf, 0xff, 0xff, 0xff, 0x1f]
    );
    assert_eq!(arr.iter().collect(), vec![0x7ff_ffff, 0x800_0000, u32::MAX]);
}

#[test]
fn most_common_roundtrip_of_any_u32() {
    let mut seed = 17;
    let vals: Vec<u32> = (0..400).map(|_| pseudo_random(&mut seed) | (pseudo_random(&mut seed) << 31)).collect();
    let mut arr = VIntArrayEncodeMostCommon::default();
    arr.encode_vals(&vals);
    assert_eq!(arr.iter().collect(), vals);
    let eighths: Vec<u32> = vals.iter().map(|v| v / 8).collect();
    let mut arr = VIntArrayEncodeMostCommon::default();
    arr.encode_vals(&eighths);
    assert_eq!(arr.iter().collect(), eighths);
}

#[test]
fn most_common_two_calls_read_back_in_order() {
    let a = vec![u32::MAX, 5, 5, 300];
    let b = vec![0x800_0000, 5, 7];
    let mut arr = VIntArrayEncodeMostCommon::default();
    arr.encode_vals(&a);
    arr.encode_vals(&b);
    let mut all = a.clone();
    all.extend_from_slice(&b);
    assert_eq!(arr.iter().collect(), all);
}

#[test]
fn most_common_decode_u8() {
    let mut arr = VIntArrayEncodeMostCommon::default();
    arr.data = vec![0xc5, 0x05];
    assert_eq!(arr.decode_u8(0), (0x45, true));
    assert_eq!(arr.decode_u8(1), (0x05, false));
}

#[test]
fn most_common_iterator_size_hint() {
    let mut arr = VIntArrayEncodeMostCommon::default();
    arr.most_common_val = Some(100);
    arr.encode_vals(&[1, 2, 3, 4]);
    let mut it = arr.iter();
    assert_eq!(it.size_hint(), (4, Some(4)));
    it.next();
    it.next();
    assert_eq!(it.size_hint(), (3, Some(2)));
}

#[test]
fn average_delta_fields() {
    let d = delta_and_average_encode(&[20, 80, 122, 520, 1100, 1234]);
    assert_eq!(d.avg_increase, 205);
    assert_eq!(d.offset, -493);
    assert_eq!(d.data, vec![308, 163, 0, 193, 568, 497]);
}

#[test]
fn average_delta_every_position_decodes() {
    let vals = [20u32, 80, 122, 520, 1100, 1234];
    let d = delta_and_average_encode(&vals);
    for (i, v) in vals.iter().enumerate() {
        assert_eq!(decode_average_encoded_delta(d.data[i], i, d.offset, d.avg_increase), *v);
    }
}

#[test]
fn average_delta_large_single_value_wraps_back() {
    let d = delta_and_average_encode(&[3_000_000_000]);
    assert_eq!(d.avg_increase, 3_000_000_000);
    assert_eq!(d.offset, 0);
    assert_eq!(d.data, vec![0]);
    assert_eq!(decode_average_encoded_delta(0, 0, 0, 3_000_000_000), 3_000_000_000);
}

#[test]
fn average_delta_positive_offset_is_not_undone() {
    let d = delta_and_average_encode(&[10, 11]);
    assert_eq!(d.avg_increase, 5);
    assert_eq!(d.offset, 1);
    assert_eq!(d.data, vec![5, 1]);
    assert_eq!(decode_average_encoded_delta(d.data[0], 0, d.offset, d.avg_increase), 11);
}

#[test]
fn decode_average_formula() {
    assert_eq!(decode_average_encoded_delta(-10, 2, 3, 4), 5);
    assert_eq!(decode_average_encoded_delta(-10, 0, 0, 0), (-10i32) as u32);
}

#[test]
fn byte_packing_keeps_low_bytes() {
    let (w, bytes) = encode_vals(&[0x0102_0304, 5], BytesRequired::Two);
    assert_eq!(w.as_usize(), 2);
    assert_eq!(bytes, vec![4, 3, 5, 0, 0]);
    let (_, bytes) = encode_vals(&[], BytesRequired::Four);
    assert_eq!(bytes, vec![0]);
}

#[test]
fn byte_packed_random_access() {
    let vals = [20u32, 80, 122, 520, 1100, 1234];
    let info = encode_bytes(&vals);
    assert_eq!(info.bytes_per_element.as_usize(), 2);
    assert_eq!(info.offset, -493);
    assert_eq!(info.encoded, vec![0x34, 1, 163, 0, 0, 0, 193, 0, 0x38, 2, 0xf1, 1, 0]);
    for (i, v) in vals.iter().enumerate() {
        assert_eq!(decode_bit_packed_val(&info, i), *v);
    }
}

#[test]
fn byte_packed_random_access_many_values() {
    let mut seed = 5;
    let mut acc = 0u32;
    let vals: Vec<u32> = (0..200)
        .map(|_| {
            acc += pseudo_random(&mut seed) % 5000;
            acc
        })
        .collect();
    let info = encode_bytes(&vals);
    if info.offset <= 0 {
        for (i, v) in vals.iter().enumerate() {
            assert_eq!(decode_bit_packed_val(&info, i), *v);
        }
    }
}

#[test]
fn bit_packing_of_a_small_array() {
    let info = encode_bits(&[150, 170, 175]);
    assert_eq!(info.avg_increase, 58);
    assert_eq!(info.offset, 1);
    assert_eq!(info.num_bits, 7);
    assert_eq!(info.encoded, vec![92 | (54 << 7) | (1 << 14)]);
    assert_eq!(vec_to_bytes_u32(&info.encoded), vec![0x5c, 0x5b, 0, 0]);
}

#[test]
fn bit_packing_skips_a_value_that_reaches_the_next_word() {
    // The distances are 6, 5, 4, 3, 2, 1, 0 and 14, four bits each: the last
    // one would end at bit 32, so it is passed over.
    let info = encode_bits(&[0, 0, 0, 0, 0, 0, 0, 15]);
    assert_eq!(info.avg_increase, 1);
    assert_eq!(info.offset, -7);
    assert_eq!(info.num_bits, 4);
    assert_eq!(info.encoded, vec![0x0012_3456, 0]);
}

#[test]
fn words_to_bytes() {
    assert_eq!(vec_to_bytes_u32(&[0x0403_0201, 0xa0b0_c0d0]), vec![1, 2, 3, 4, 0xd0, 0xc0, 0xb0, 0xa0]);
    assert_eq!(vec_to_bytes_u32(&[]), Vec::<u8>::new());
}

#[test]
fn bit_helpers() {
    assert!(is_high_bit_set(0x80));
    assert!(!is_high_bit_set(0x7f));
    assert_eq!(set_high_bit_u8(0x05), 0x85);
    assert_eq!(unset_high_bit_u8(0xc5), 0x45);
    assert!(is_second_high_bit_set(0xc0));
    assert!(!is_second_high_bit_set(0x80));
    assert_eq!(set_second_high_bit_u8(0x81), 0xc1);
    assert_eq!(unset_second_high_bit_u8(0xff), 0xbf);
    assert_eq!(le_byte_of(0x0403_0201, 0), 1);
    assert_eq!(le_byte_of(0x0403_0201, 3), 4);
}
