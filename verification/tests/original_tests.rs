use std::io::BufReader;
use std::io::Read;

use vint::average_delta_encoded::decode_average_encoded_delta;
use vint::average_delta_encoded::delta_and_average_encode;
use vint::bitpacked_ra::encode_vals_bitpacked_average_endcoded;
use vint::bitpacked_ra::vec_to_bytes_u32;
use vint::bitpacked_ra::EncodingInfo;
use vint::vint::decode_varint;
use vint::vint::encode_varint_into;
use vint::vint::varint_needs_more_bytes;
use vint::vint::VIntArray;
use vint::vint::VintArrayIterator;
use vint::vint_encode_most_common::VIntArrayEncodeMostCommon;

fn get_test_array() -> Vec<u32> {
    vec![64, 128, 110, 120, 200, 2000, 70000, 3_000_000, 10_000_000]
}

/// Reads one value from a reader, a byte at a time, until the value is
/// complete.
fn decode_from_reader<R: Read>(r: &mut R) -> Option<u32> {
    let mut iter = r.bytes().map(|el| el.unwrap());
    let first = iter.next()?;
    let mut read = vec![first];
    while varint_needs_more_bytes(&read) {
        read.push(iter.next().unwrap());
    }
    let mut pos = 0;
    decode_varint(&read, &mut pos)
}

#[test]
fn test_encode_decode_vint() {
    let mut vint = VIntArray::default();
    for el in get_test_array().iter() {
        vint.encode(*el);
    }
    let decoded_data: Vec<u32> = vint.iter().collect();
    assert_eq!(get_test_array(), decoded_data);
}

#[test]
fn test_encode_decode_vint_encoded() {
    let mut vint = VIntArrayEncodeMostCommon::default();
    vint.encode_vals(&get_test_array());
    let decoded_data: Vec<u32> = vint.iter().collect();
    assert_eq!(get_test_array(), decoded_data);
}

#[test]
fn test_varint() {
    let mut sink = vec![];
    encode_varint_into(&mut sink, 5);
    encode_varint_into(&mut sink, 127);
    encode_varint_into(&mut sink, 128);
    encode_varint_into(&mut sink, 50);
    encode_varint_into(&mut sink, 500);
    encode_varint_into(&mut sink, 5000);
    encode_varint_into(&mut sink, 4_000_000_000);
    assert_eq!(sink.len(), 14);

    let mut pos = 0;
    assert_eq!(decode_varint(&sink, &mut pos), Some(5));
    assert_eq!(decode_varint(&sink, &mut pos), Some(127));
    assert_eq!(decode_varint(&sink, &mut pos), Some(128));
    assert_eq!(decode_varint(&sink, &mut pos), Some(50));
    assert_eq!(decode_varint(&sink, &mut pos), Some(500));
    assert_eq!(decode_varint(&sink, &mut pos), Some(5000));
    assert_eq!(decode_varint(&sink, &mut pos), Some(4_000_000_000));

    let iter = VintArrayIterator { data: &sink, pos: 0 };
    let dat: Vec<_> = iter.collect();
    assert_eq!(dat, vec![5, 127, 128, 50, 500, 5000, 4_000_000_000]);

    let mut reader = BufReader::new(&sink[..]);
    assert_eq!(decode_from_reader(reader.get_mut()), Some(5));
    assert_eq!(decode_from_reader(reader.get_mut()), Some(127));
    assert_eq!(decode_from_reader(reader.get_mut()), Some(128));
    assert_eq!(decode_from_reader(reader.get_mut()), Some(50));
    assert_eq!(decode_from_reader(reader.get_mut()), Some(500));
    assert_eq!(decode_from_reader(reader.get_mut()), Some(5000));
    assert_eq!(decode_from_reader(reader.get_mut()), Some(4_000_000_000));
    assert_eq!(decode_from_reader(reader.get_mut()), None);
}

#[test]
fn test_encode_decode_vint_very_large_number() {
    let mut vint = VIntArray::default();
    let dat = vec![4_000_000_000];
    vint.encode_vals(&dat);
    let decoded_data: Vec<u32> = vint.iter().collect();
    assert_eq!(&dat, &decoded_data);
}

#[test]
fn test_serialize() {
    let mut vint = VIntArray::default();
    let dat = vec![4_000_000_000];
    vint.encode_vals(&dat);

    let data = vint.serialize();

    let iter = VintArrayIterator::from_slice(&data);
    let decoded_data: Vec<u32> = iter.collect();
    assert_eq!(&dat, &decoded_data);
}

#[test]
fn test_encode_decode_vint_most_common_1000() {
    let mut vint = VIntArrayEncodeMostCommon::default();
    let dat = vec![1000, 1000, 1000];
    vint.encode_vals(&dat);
    let decoded_data: Vec<u32> = vint.iter().collect();
    assert_eq!(&dat, &decoded_data);
}

#[test]
fn test_encode_decode_vint_most_common_single() {
    let mut vint = VIntArrayEncodeMostCommon::default();
    let dat = vec![10];
    vint.encode_vals(&dat);
    let decoded_data: Vec<u32> = vint.iter().collect();
    assert_eq!(&dat, &decoded_data);
}

#[test]
fn test_ra_average_encoded_delta() {
    let delta_data = delta_and_average_encode(&[20, 80, 122, 520, 1100, 1234]);
    assert_eq!(
        decode_average_encoded_delta(delta_data.data[3], 3, delta_data.offset, delta_data.avg_increase),
        520
    );
}

#[test]
fn test_ra_encode_bitpacked_monotone() {
    let info: EncodingInfo = encode_vals_bitpacked_average_endcoded(&[150, 170, 175]);

    let _bytes = vec_to_bytes_u32(&info.encoded);
}
