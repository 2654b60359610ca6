use indexa::index::posting::codec::{decode_id, decode_record, encode_id, encode_record};
use indexa::traits::deser::Deser;

#[test]
fn fixed_encoding_is_big_endian() {
    assert_eq!(encode_id(0, false), vec![0, 0, 0, 0, 0, 0, 0, 0]);
    assert_eq!(encode_id(1, false), vec![0, 0, 0, 0, 0, 0, 0, 1]);
    assert_eq!(
        encode_id(0x0102_0304_0506_0708, false),
        vec![1, 2, 3, 4, 5, 6, 7, 8]
    );
    assert_eq!(encode_id(u64::MAX, false), vec![255; 8]);
    assert_eq!(encode_id(300, false), 300u64.to_be_bytes().to_vec());
}

#[test]
fn varint_encoding_is_leb128() {
    assert_eq!(encode_id(0, true), vec![0x00]);
    assert_eq!(encode_id(1, true), vec![0x01]);
    assert_eq!(encode_id(127, true), vec![0x7F]);
    assert_eq!(encode_id(128, true), vec![0x80, 0x01]);
    assert_eq!(encode_id(300, true), vec![0xAC, 0x02]);
    assert_eq!(encode_id(1337, true), vec![185, 10]);
    assert_eq!(encode_id(16383, true), vec![0xFF, 0x7F]);
    assert_eq!(encode_id(16384, true), vec![0x80, 0x80, 0x01]);
    assert_eq!(
        encode_id(u64::MAX, true),
        vec![0xFF, 0xFF, 0xFF, 0xFF, 0xFF, 0xFF, 0xFF, 0xFF, 0xFF, 0x01]
    );
}

#[test]
fn records_read_back_what_was_written() {
    let ids = vec![0, 1, 127, 128, 300, 70000, u64::MAX, 5, 1 << 35, (1 << 63) + 9];
    for compressed in [false, true] {
        let record = encode_record(&ids, compressed);
        assert_eq!(decode_record(&record, compressed), ids);
        let (first, next) = decode_id(&record, 0, compressed);
        assert_eq!(first, 0);
        assert_eq!(next, if compressed { 1 } else { 8 });
        let (second, _) = decode_id(&record, next, compressed);
        assert_eq!(second, 1);
    }
    assert_eq!(encode_record(&ids, false).len(), 80);
    assert!(encode_record(&ids, true).len() < 80);
    assert_eq!(decode_record(&[], true), Vec::<u64>::new());
    assert_eq!(decode_record(&[], false), Vec::<u64>::new());
}

#[test]
fn integers_serialize_little_endian() {
    assert_eq!(258u64.serialize(), vec![2, 1, 0, 0, 0, 0, 0, 0]);
    assert_eq!(258u32.serialize(), vec![2, 1, 0, 0]);
    assert_eq!(258usize.serialize(), vec![2, 1, 0, 0, 0, 0, 0, 0]);
    assert_eq!(u64::deserialize(&[2, 1, 0, 0, 0, 0, 0, 0]), Some(258));
    assert_eq!(u32::deserialize(&[2, 1, 0, 0]), Some(258));
    assert_eq!(usize::deserialize(&[2, 1, 0, 0, 0, 0, 0, 0]), Some(258));
    assert_eq!(u64::deserialize(&[2, 1, 0]), None);
    assert_eq!(u32::deserialize(&[2, 1, 0, 0, 0]), None);
}

#[test]
fn strings_serialize_as_utf8() {
    let text = "あb漢".to_string();
    let bytes = text.serialize();
    assert_eq!(bytes, "あb漢".as_bytes().to_vec());
    assert_eq!(String::deserialize(&bytes), Some(text));
    assert_eq!(String::deserialize(&[0xFF, 0xFE]), None);
    assert_eq!(String::deserialize(&[]), Some(String::new()));
}
