use bitlog::varint::{encode_varint_to_vec, encode_varint, decode_varint};
use bitlog::hint::{parse_decimal, format_decimal, encode_hint_value, decode_hint_value};
use bitlog::record::{encode_record, parse_record_at, Bytes, RecordIndex};
use bitlog::Error;

#[test]
fn varint_round_trip_small() {
    for x in [0u64, 1, 17, 127, 128, 129, 255, 300, 16383, 16384, 1u64 << 32, u64::MAX] {
        let enc = encode_varint_to_vec(x).unwrap();
        let (v, n) = decode_varint(enc.as_slice(), 0).unwrap();
        assert_eq!(v, x);
        assert_eq!(n, enc.len());
    }
}

#[test]
fn varint_zero_is_one_byte() {
    let enc = encode_varint_to_vec(0).unwrap();
    assert_eq!(enc, vec![0u8]);
    let enc = encode_varint_to_vec(127).unwrap();
    assert_eq!(enc, vec![127u8]);
    let enc = encode_varint_to_vec(128).unwrap();
    assert_eq!(enc, vec![0x80u8, 0x01]);
    let enc = encode_varint_to_vec(300).unwrap();
    assert_eq!(enc, vec![0xacu8, 0x02]);
}

#[test]
fn varint_append_to_stream() {
    let mut out: Vec<u8> = vec![9, 9];
    encode_varint(300, &mut out).unwrap();
    assert_eq!(out, vec![9u8, 9, 0xac, 0x02]);
    let (v, n) = decode_varint(out.as_slice(), 2).unwrap();
    assert_eq!(v, 300);
    assert_eq!(n, 2);
}

#[test]
fn varint_truncated_is_corrupt() {
    // a continuation byte with nothing after it
    let data = vec![0x80u8];
    assert_eq!(decode_varint(data.as_slice(), 0), Err(Error::Corrupt));
    // no terminator within ten bytes
    let data = vec![0x80u8; 11];
    assert_eq!(decode_varint(data.as_slice(), 0), Err(Error::Corrupt));
    // out of range start
    let data: Vec<u8> = Vec::new();
    assert_eq!(decode_varint(data.as_slice(), 0), Err(Error::Corrupt));
}

#[test]
fn decimal_round_trip() {
    for x in [0u64, 7, 10, 123456789, u64::MAX] {
        let d = format_decimal(x);
        assert_eq!(parse_decimal(d.as_slice()).unwrap(), x);
    }
    assert_eq!(format_decimal(1234), b"1234".to_vec());
}

#[test]
fn decimal_trims_whitespace() {
    assert_eq!(parse_decimal(b" 42\n"), Ok(42));
    assert_eq!(parse_decimal(b"42"), Ok(42));
}

#[test]
fn decimal_rejects_garbage() {
    assert_eq!(parse_decimal(b"abc"), Err(Error::Corrupt));
    assert_eq!(parse_decimal(b""), Err(Error::Corrupt));
    assert_eq!(parse_decimal(b"  "), Err(Error::Corrupt));
    assert_eq!(parse_decimal(b"12x"), Err(Error::Corrupt));
    // one past u64::MAX
    assert_eq!(parse_decimal(b"18446744073709551616"), Err(Error::Corrupt));
}

#[test]
fn hint_value_round_trip() {
    let mut v: Vec<u8> = Vec::new();
    encode_hint_value(17, 0x0123456789abcdef, &mut v);
    assert_eq!(&v[..3], b"17\0");
    let (seg, off) = decode_hint_value(v.as_slice()).unwrap();
    assert_eq!(seg, 17);
    assert_eq!(off, 0x0123456789abcdef);
}

#[test]
fn hint_value_missing_separator_is_corrupt() {
    assert_eq!(decode_hint_value(b"12345678"), Err(Error::Corrupt));
    // empty name
    assert_eq!(decode_hint_value(b"\0abcdefgh"), Err(Error::Corrupt));
    // offset field not eight bytes
    assert_eq!(decode_hint_value(b"1\0abc"), Err(Error::Corrupt));
}

#[test]
fn record_round_trip() {
    let mut out: Vec<u8> = Vec::new();
    encode_record(b"key", b"value", 0, &mut out).unwrap();
    let p = parse_record_at(out.as_slice(), 0).unwrap();
    assert_eq!(p.key, b"key".to_vec());
    assert_eq!(p.value, b"value".to_vec());
    assert_eq!(p.flag, 0);
    assert_eq!(p.end, out.len());
}

#[test]
fn record_crc_is_crc16_cms() {
    // CRC-16 with poly 0x8005, init 0xFFFF, no reflection, xorout 0 has
    // check value 0xAEE7 over the bytes "123456789"; the four stored bytes
    // are that digest little-endian, zero-extended.
    let mut out: Vec<u8> = Vec::new();
    encode_record(b"1234", b"56789", 0, &mut out).unwrap();
    let p = parse_record_at(out.as_slice(), 0).unwrap();
    assert_eq!(p.crc, vec![0xe7u8, 0xae, 0x00, 0x00]);
}

#[test]
fn record_truncated_is_corrupt() {
    let mut out: Vec<u8> = Vec::new();
    encode_record(b"key", b"value", 0, &mut out).unwrap();
    out.truncate(out.len() - 1);
    assert_eq!(parse_record_at(out.as_slice(), 0).err(), Some(Error::Corrupt));
}

#[test]
fn record_index_is_deleted() {
    let ri = RecordIndex {
        key: Bytes::from(b"k".to_vec()),
        segment: 1,
        flag: bitlog::FLAG_DELETED,
        offset: 0,
        value: None,
    };
    assert!(ri.is_deleted());
    let ri2 = RecordIndex {
        key: Bytes::from(b"k".to_vec()),
        segment: 1,
        flag: 0,
        offset: 0,
        value: None,
    };
    assert!(!ri2.is_deleted());
}

#[test]
fn bytes_basics() {
    let b = bitlog::record::Bytes::new();
    assert_eq!(b.as_slice(), b"");
    let b = bitlog::record::Bytes::from(vec![1u8, 2, 3]);
    assert_eq!(b.as_slice(), &[1u8, 2, 3]);
    assert_eq!(b.len(), 3);
    let c = b.clone();
    assert_eq!(c.as_slice(), &[1u8, 2, 3]);
}
