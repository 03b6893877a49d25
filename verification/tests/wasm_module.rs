use smg_core::text::{decimal, parse_number, signed_decimal, NumberError};
use smg_core::wasm::module::{
    deserialize_sha256_hash, deserialize_timestamp, nanos_of_instant, read_timestamp,
    serialize_sha256_hash, serialize_timestamp, timestamp_of, Sha256HashError, TimestampError,
};

fn hash() -> [u8; 32] {
    let mut hash = [0u8; 32];
    for (i, byte) in hash.iter_mut().enumerate() {
        *byte = (i * 8) as u8;
    }
    hash
}

#[test]
fn hash_round_trips_as_lower_case_hex() {
    let text = serialize_sha256_hash(&hash());
    assert_eq!(text, "0008101820283038404850586068707880889098a0a8b0b8c0c8d0d8e0e8f0f8");
    assert_eq!(deserialize_sha256_hash(&text), Ok(hash()));
    assert_eq!(deserialize_sha256_hash(&text.to_uppercase()), Ok(hash()));
}

#[test]
fn hash_of_the_wrong_length_is_rejected() {
    assert_eq!(deserialize_sha256_hash(""), Err(Sha256HashError::InvalidLength { got: 0 }));
    let text = "0".repeat(63);
    assert_eq!(deserialize_sha256_hash(&text), Err(Sha256HashError::InvalidLength { got: 63 }));
}

#[test]
fn hash_with_a_bad_digit_is_rejected() {
    let text = format!("0g{}", "0".repeat(62));
    assert_eq!(deserialize_sha256_hash(&text), Err(Sha256HashError::InvalidHexDigit { pair: 0 }));
}

#[test]
fn hash_with_a_sign_is_rejected() {
    let text = format!("00+a{}", "0".repeat(60));
    assert_eq!(deserialize_sha256_hash(&text), Err(Sha256HashError::InvalidHexDigit { pair: 1 }));
    let text = format!("+5{}", "0".repeat(62));
    assert_eq!(deserialize_sha256_hash(&text), Err(Sha256HashError::InvalidHexDigit { pair: 0 }));
    let text = format!("{}-5", "0".repeat(62));
    assert_eq!(deserialize_sha256_hash(&text), Err(Sha256HashError::InvalidHexDigit { pair: 31 }));
}

#[test]
fn hash_cut_inside_a_character_is_rejected() {
    // The character takes the bytes 1 and 2, so that the first pair ends inside it.
    let text = format!("0\u{e9}{}", "0".repeat(61));
    assert_eq!(deserialize_sha256_hash(&text), Err(Sha256HashError::InvalidUtf8 { pair: 0 }));
}

#[test]
fn timestamp_round_trips_as_rfc3339() {
    for t in [0, 1, 1_700_000_000_123_456_789, u64::MAX] {
        let text = serialize_timestamp(t);
        assert_eq!(read_timestamp(&text), Ok(t), "{text}");
        assert_eq!(deserialize_timestamp(&text), Ok(t), "{text}");
    }
    assert_eq!(serialize_timestamp(1_700_000_000_123_456_789), "2023-11-14T22:13:20.123456789Z");
    assert_eq!(serialize_timestamp(0), "1970-01-01T00:00:00.000000000Z");
}

#[test]
fn timestamp_with_an_offset_is_read_in_utc() {
    assert_eq!(read_timestamp("1970-01-01T01:00:00+01:00"), Ok(0));
    assert_eq!(read_timestamp("1970-01-01T00:00:01.5Z"), Ok(1_500_000_000));
}

#[test]
fn plain_number_is_a_timestamp() {
    assert_eq!(read_timestamp("1700000000123456789"), Ok(1_700_000_000_123_456_789));
    assert_eq!(deserialize_timestamp("+7"), Ok(7));
}

#[test]
fn bad_timestamps_are_rejected() {
    assert_eq!(
        read_timestamp("not-a-timestamp"),
        Err(TimestampError::InvalidFormat { reason: NumberError::InvalidDigit })
    );
    assert_eq!(
        read_timestamp(""),
        Err(TimestampError::InvalidFormat { reason: NumberError::Empty })
    );
    assert_eq!(
        read_timestamp("18446744073709551616"),
        Err(TimestampError::InvalidFormat { reason: NumberError::TooLarge })
    );
    assert_eq!(read_timestamp("1969-12-31T23:59:59Z"), Err(TimestampError::OutOfRange));
    assert_eq!(read_timestamp("2600-01-01T00:00:00Z"), Err(TimestampError::OutOfRange));
}

#[test]
fn instants_become_nanoseconds() {
    assert_eq!(nanos_of_instant((2, 5)), 2_000_000_005);
    assert_eq!(timestamp_of(Some((18_446_744_073, 709_551_615)), ""), Ok(u64::MAX));
    assert_eq!(
        timestamp_of(Some((18_446_744_073, 709_551_616)), ""),
        Err(TimestampError::OutOfRange)
    );
    assert_eq!(timestamp_of(None, "9"), Ok(9));
}

#[test]
fn decimal_numbers_round_trip() {
    for n in [0u64, 9, 10, 12_345, u64::MAX] {
        assert_eq!(decimal(n as u128), n.to_string());
        assert_eq!(parse_number(&decimal(n as u128)), Ok(n));
    }
    for n in [0i64, -1, i64::MIN, i64::MAX] {
        assert_eq!(signed_decimal(n), n.to_string());
    }
    assert_eq!(parse_number("+"), Err(NumberError::InvalidDigit));
    assert_eq!(parse_number("-1"), Err(NumberError::InvalidDigit));
}
