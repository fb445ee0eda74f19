use ipfix::value::{read_value, write_value, VARIABLE_LENGTH};
use ipfix::{DataRecordType, DataRecordValue, IpfixError};

fn encode(v: &DataRecordValue, length: u16) -> Result<Vec<u8>, IpfixError> {
    let mut out = Vec::new();
    write_value(v, length, &mut out)?;
    Ok(out)
}

#[test]
fn test_u40_edge_cases() {
    let written_bytes = encode(&DataRecordValue::U40(0), 5).expect("Failed to write zero U40 value");
    assert_eq!(written_bytes, [0, 0, 0, 0, 0]);

    let written_bytes = encode(&DataRecordValue::U40(1), 5).expect("Failed to write U40 value of 1");
    assert_eq!(written_bytes, [0, 0, 0, 0, 1]);

    let written_bytes =
        encode(&DataRecordValue::U40(0xFF_FFFF_FFFF), 5).expect("Failed to write max U40 value");
    assert_eq!(written_bytes, [0xFF, 0xFF, 0xFF, 0xFF, 0xFF]);
}

#[test]
fn test_u40_invalid_values() {
    let result = encode(&DataRecordValue::U40(0x1FF_FFFF_FFFF), 5);
    assert!(result.is_err(), "Should fail to write value larger than 40 bits");

    let result = encode(&DataRecordValue::U40(0x100_0000_0000), 5);
    assert!(result.is_err(), "Should fail to write value at 41 bits");
}

#[test]
fn test_u40_read_invalid() {
    let truncated_data = vec![0xFF, 0xFF, 0xFF, 0xFF];
    let result = read_value(DataRecordType::UnsignedInt, 5, &truncated_data, 0);
    assert!(result.is_err(), "Should fail to read truncated data");
}

#[test]
fn test_u40_roundtrip() {
    let test_values = vec![
        0u64,
        1u64,
        0xFF_FFFF_FFFFu64,
        0x11_2233_4455u64,
        0x000F_FFFF_FFFFu64,
        0x00F0_0000_0000u64,
    ];

    for value in test_values {
        let written = DataRecordValue::U40(value);
        let written_bytes =
            encode(&written, 5).expect(&format!("Failed to write U40 value {:#X}", value));
        assert_eq!(written_bytes.len(), 5, "Should write exactly 5 bytes");

        let (read_value, end) = read_value(DataRecordType::UnsignedInt, 5, &written_bytes, 0)
            .expect(&format!("Failed to read U40 value {:#X}", value));
        assert_eq!(read_value, written, "Roundtrip failed for value {:#X}", value);
        assert_eq!(end, 5, "Should read exactly 5 bytes");
    }
}

#[test]
fn u40_overflow_error_is_value_overflow() {
    let mut out = vec![7u8];
    let r = write_value(&DataRecordValue::U40(0x100_0000_0000), 5, &mut out);
    assert!(matches!(r, Err(IpfixError::ValueOverflow)));
    assert_eq!(out, vec![7u8]);
}

#[test]
fn u40_reads_big_endian() {
    let bytes = [0x11, 0x22, 0x33, 0x44, 0x55, 0x99];
    let (v, end) = read_value(DataRecordType::UnsignedInt, 5, &bytes, 0).unwrap();
    assert_eq!(v, DataRecordValue::U40(0x11_2233_4455));
    assert_eq!(end, 5);
}

#[test]
fn string_with_inline_length() {
    let bytes = encode(&DataRecordValue::String("hi".to_string()), VARIABLE_LENGTH).unwrap();
    assert_eq!(bytes, vec![0x02, b'h', b'i']);
    let (v, end) = read_value(DataRecordType::String, VARIABLE_LENGTH, &bytes, 0).unwrap();
    assert_eq!(v, DataRecordValue::String("hi".to_string()));
    assert_eq!(end, 3);
}

#[test]
fn long_payload_uses_extended_length() {
    let payload: Vec<u8> = (0..300u32).map(|i| (i % 251) as u8).collect();
    let bytes = encode(&DataRecordValue::Bytes(payload.clone()), VARIABLE_LENGTH).unwrap();
    assert_eq!(&bytes[..3], &[0xFF, 0x01, 0x2C]);
    assert_eq!(&bytes[3..], &payload[..]);
    let (v, end) = read_value(DataRecordType::Bytes, VARIABLE_LENGTH, &bytes, 0).unwrap();
    assert_eq!(v, DataRecordValue::Bytes(payload));
    assert_eq!(end, 303);
}

#[test]
fn payload_of_exactly_255_bytes_uses_extended_length() {
    let payload = vec![0xABu8; 255];
    let bytes = encode(&DataRecordValue::Bytes(payload.clone()), VARIABLE_LENGTH).unwrap();
    assert_eq!(&bytes[..3], &[0xFF, 0x00, 0xFF]);
    assert_eq!(bytes.len(), 258);
}

#[test]
fn payload_over_65535_bytes_is_rejected() {
    let payload = vec![0u8; 65536];
    let r = encode(&DataRecordValue::Bytes(payload), VARIABLE_LENGTH);
    assert!(matches!(r, Err(IpfixError::ValueOverflow)));
}

#[test]
fn fixed_length_bytes_have_no_prefix() {
    let bytes = encode(&DataRecordValue::Bytes(vec![1, 2, 3]), 3).unwrap();
    assert_eq!(bytes, vec![1, 2, 3]);
    let (v, end) = read_value(DataRecordType::Bytes, 3, &[1, 2, 3, 4], 0).unwrap();
    assert_eq!(v, DataRecordValue::Bytes(vec![1, 2, 3]));
    assert_eq!(end, 3);
}

#[test]
fn empty_variable_string() {
    let bytes = encode(&DataRecordValue::String(String::new()), VARIABLE_LENGTH).unwrap();
    assert_eq!(bytes, vec![0]);
    let (v, _) = read_value(DataRecordType::String, VARIABLE_LENGTH, &bytes, 0).unwrap();
    assert_eq!(v, DataRecordValue::String(String::new()));
}

#[test]
fn invalid_utf8_is_rejected() {
    let bytes = [0x02, 0xC3, 0x28];
    let r = read_value(DataRecordType::String, VARIABLE_LENGTH, &bytes, 0);
    assert!(matches!(r, Err(IpfixError::InvalidUtf8)));
}

#[test]
fn truncated_variable_length_is_rejected() {
    let r = read_value(DataRecordType::Bytes, VARIABLE_LENGTH, &[0x05, 1, 2], 0);
    assert!(matches!(r, Err(IpfixError::Truncated)));
    let r = read_value(DataRecordType::Bytes, VARIABLE_LENGTH, &[0xFF, 0x01], 0);
    assert!(matches!(r, Err(IpfixError::Truncated)));
}

#[test]
fn unsupported_type_and_length() {
    let r = read_value(DataRecordType::UnsignedInt, 3, &[0, 0, 0], 0);
    assert!(matches!(
        r,
        Err(IpfixError::InvalidFieldSpecLength { ty: DataRecordType::UnsignedInt, length: 3 })
    ));
    let r = read_value(DataRecordType::Ipv6Addr, 4, &[0, 0, 0, 0], 0);
    assert!(matches!(r, Err(IpfixError::InvalidFieldSpecLength { .. })));
}

#[test]
fn booleans_are_one_and_two() {
    assert_eq!(encode(&DataRecordValue::Bool(true), 1).unwrap(), vec![1]);
    assert_eq!(encode(&DataRecordValue::Bool(false), 1).unwrap(), vec![2]);
    let (v, _) = read_value(DataRecordType::Bool, 1, &[1], 0).unwrap();
    assert_eq!(v, DataRecordValue::Bool(true));
    let (v, _) = read_value(DataRecordType::Bool, 1, &[2], 0).unwrap();
    assert_eq!(v, DataRecordValue::Bool(false));
    let (v, _) = read_value(DataRecordType::Bool, 1, &[7], 0).unwrap();
    assert_eq!(v, DataRecordValue::Bool(false));
}

#[test]
fn signed_values_round_trip() {
    let cases = vec![
        (DataRecordValue::I8(-1), 1u16, vec![0xFFu8]),
        (DataRecordValue::I16(-2), 2, vec![0xFF, 0xFE]),
        (DataRecordValue::I32(-300), 4, vec![0xFF, 0xFF, 0xFE, 0xD4]),
        (DataRecordValue::I64(i64::MIN), 8, vec![0x80, 0, 0, 0, 0, 0, 0, 0]),
    ];
    for (v, len, expected) in cases {
        let bytes = encode(&v, len).unwrap();
        assert_eq!(bytes, expected);
        let (back, end) = read_value(DataRecordType::SignedInt, len, &bytes, 0).unwrap();
        assert_eq!(back, v);
        assert_eq!(end, len as usize);
    }
}

#[test]
fn fixed_width_values_round_trip() {
    let cases = vec![
        (DataRecordValue::U8(0xAB), DataRecordType::UnsignedInt, 1u16),
        (DataRecordValue::U16(0xBEEF), DataRecordType::UnsignedInt, 2),
        (DataRecordValue::U32(0xDEAD_BEEF), DataRecordType::UnsignedInt, 4),
        (DataRecordValue::U64(u64::MAX), DataRecordType::UnsignedInt, 8),
        (DataRecordValue::F32(1.5f32.to_bits()), DataRecordType::Float, 4),
        (DataRecordValue::F64((-2.25f64).to_bits()), DataRecordType::Float, 8),
        (DataRecordValue::MacAddress([1, 2, 3, 4, 5, 6]), DataRecordType::MacAddress, 6),
        (DataRecordValue::DateTimeSeconds(1_700_000_000), DataRecordType::DateTimeSeconds, 4),
        (DataRecordValue::DateTimeMilliseconds(1), DataRecordType::DateTimeMilliseconds, 8),
        (DataRecordValue::DateTimeMicroseconds(2), DataRecordType::DateTimeMicroseconds, 8),
        (DataRecordValue::DateTimeNanoseconds(3), DataRecordType::DateTimeNanoseconds, 8),
        (DataRecordValue::Ipv4Addr(0xC0A8_0001), DataRecordType::Ipv4Addr, 4),
        (DataRecordValue::Ipv6Addr(0x2001_0db8 << 96 | 1), DataRecordType::Ipv6Addr, 16),
    ];
    for (v, ty, len) in cases {
        let mut bytes = vec![0x55u8];
        write_value(&v, len, &mut bytes).unwrap();
        assert_eq!(bytes.len(), 1 + len as usize);
        bytes.push(0x66);
        let (back, end) = read_value(ty, len, &bytes, 1).unwrap();
        assert_eq!(back, v);
        assert_eq!(end, 1 + len as usize);
    }
}

#[test]
fn ipv4_is_big_endian() {
    assert_eq!(
        encode(&DataRecordValue::Ipv4Addr(0xC0A8_0001), 4).unwrap(),
        vec![192, 168, 0, 1]
    );
}

#[test]
fn float_bits_read_back() {
    let bytes = 1.5f32.to_bits().to_be_bytes();
    let (v, _) = read_value(DataRecordType::Float, 4, &bytes, 0).unwrap();
    assert_eq!(v, DataRecordValue::F32(1.5f32.to_bits()));
}
