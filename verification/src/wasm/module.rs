//! Data of WebAssembly modules: metadata, attachment points, and the requests and
//! responses of module management.
//!
//! Hashes are written as hexadecimal text, timestamps as RFC 3339 text.

use std::sync::Arc;

use vstd::prelude::*;

use crate::crdt_kv::replica;
use crate::text;
use crate::text::{decimal, parse_number, NumberError};

verus! {

// ---------------------------------------------------------------------------
// Hashes
// ---------------------------------------------------------------------------
/// Length of a SHA-256 hash in bytes.
pub const SHA256_BYTES: usize = 32;

/// Length of a SHA-256 hash in hexadecimal digits.
pub const SHA256_DIGITS: usize = 64;

/// Why a text is no SHA-256 hash. The index is that of the pair of bytes at fault.
#[derive(Debug, Clone, Copy, PartialEq, Eq, Structural)]
pub enum Sha256HashError {
    /// The text does not have 64 bytes.
    InvalidLength { got: usize },
    /// Two bytes are not UTF-8 by themselves.
    InvalidUtf8 { pair: usize },
    /// Two bytes are no hexadecimal number.
    InvalidHexDigit { pair: usize },
}

/// Two lower-case hexadecimal digits for each byte.
pub open spec fn hash_text(hash: Seq<u8>) -> Seq<char>
    decreases hash.len(),
{
    if hash.len() == 0 {
        Seq::empty()
    } else {
        hash_text(hash.drop_last()) + replica::hex_digits(hash.last() as int, 2)
    }
}

/// Two bytes that are UTF-8 by themselves: two ASCII characters, or one character
/// of two bytes.
pub open spec fn is_utf8_pair(a: u8, b: u8) -> bool {
    (a < 0x80 && b < 0x80) || (0xC2 <= a <= 0xDF && 0x80 <= b <= 0xBF)
}

/// The value of two hexadecimal digits.
pub open spec fn pair_value(a: u8, b: u8) -> Option<int> {
    match (replica::hex_digit(a as char), replica::hex_digit(b as char)) {
        (Some(high), Some(low)) => Some(16 * high + low),
        _ => None,
    }
}

/// A hexadecimal digit, in either case.
pub open spec fn is_hex(c: char) -> bool {
    replica::hex_digit(c) is Some
}

/// The text of a hash: 64 hexadecimal digits and nothing else.
pub open spec fn is_hash_text(text: Seq<char>) -> bool {
    &&& text.len() == SHA256_DIGITS
    &&& forall|i: int| 0 <= i < SHA256_DIGITS ==> is_hex(#[trigger] text[i])
}

/// The bytes of the first `n` pairs; the first pair at fault decides the error.
pub open spec fn read_pairs(data: Seq<u8>, n: nat) -> Result<Seq<u8>, Sha256HashError>
    decreases n,
{
    if n == 0 {
        Ok(Seq::empty())
    } else {
        let (a, b) = (data[2 * n - 2], data[2 * n - 1]);
        let pair = (n - 1) as usize;
        match read_pairs(data, (n - 1) as nat) {
            Err(e) => Err(e),
            Ok(bytes) => if !is_utf8_pair(a, b) {
                Err(Sha256HashError::InvalidUtf8 { pair })
            } else {
                match pair_value(a, b) {
                    Some(v) => Ok(bytes.push(v as u8)),
                    None => Err(Sha256HashError::InvalidHexDigit { pair }),
                }
            },
        }
    }
}

/// The hash that a text, given by its bytes, stands for.
pub open spec fn hash_value(data: Seq<u8>) -> Result<Seq<u8>, Sha256HashError> {
    if data.len() != SHA256_DIGITS {
        Err(Sha256HashError::InvalidLength { got: data.len() as usize })
    } else {
        read_pairs(data, SHA256_BYTES as nat)
    }
}

/// The text of one hexadecimal digit.
fn hex_digit_text(d: u8) -> (text: &'static str)
    requires
        d < 16,
    ensures
        text@ == seq![replica::hex_char(d as int)],
{
    proof {
        reveal_strlit("0");
        reveal_strlit("1");
        reveal_strlit("2");
        reveal_strlit("3");
        reveal_strlit("4");
        reveal_strlit("5");
        reveal_strlit("6");
        reveal_strlit("7");
        reveal_strlit("8");
        reveal_strlit("9");
        reveal_strlit("a");
        reveal_strlit("b");
        reveal_strlit("c");
        reveal_strlit("d");
        reveal_strlit("e");
        reveal_strlit("f");
    }
    let text: &'static str = match d {
        0 => "0",
        1 => "1",
        2 => "2",
        3 => "3",
        4 => "4",
        5 => "5",
        6 => "6",
        7 => "7",
        8 => "8",
        9 => "9",
        10 => "a",
        11 => "b",
        12 => "c",
        13 => "d",
        14 => "e",
        _ => "f",
    };
    assert(text@ =~= seq![replica::hex_char(d as int)]);
    text
}

/// Writes a hash as 64 hexadecimal digits.
pub fn serialize_sha256_hash(hash: &[u8; 32]) -> (text: String)
    ensures
        text@ == hash_text(hash@),
{
    let mut text: String = String::new();
    let mut i: usize = 0;
    proof {
        assert(hash@.subrange(0, 0) =~= Seq::empty());
        assert(text@ =~= Seq::empty());
    }
    while i < 32
        invariant
            i <= 32,
            hash@.len() == 32,
            text@ == hash_text(hash@.subrange(0, i as int)),
        decreases 32 - i,
    {
        let b: u8 = hash[i];
        let ghost before = text@;
        text.append(hex_digit_text(b / 16));
        text.append(hex_digit_text(b % 16));
        proof {
            let next = hash@.subrange(0, i + 1);
            assert(next.drop_last() =~= hash@.subrange(0, i as int));
            assert(next.last() == b);
            assert((b as int / 16) % 16 == b as int / 16);
            reveal_with_fuel(replica::hex_digits, 3);
            assert(replica::hex_digits(b as int, 2) =~= seq![
                replica::hex_char(b as int / 16),
                replica::hex_char(b as int % 16),
            ]);
            assert(text@ =~= before + replica::hex_digits(b as int, 2));
        }
        i = i + 1;
    }
    assert(hash@.subrange(0, 32) =~= hash@);
    text
}

/// The value of a hexadecimal digit.
fn hex_digit_value(b: u8) -> (value: Option<u8>)
    ensures
        match value {
            Some(v) => replica::hex_digit(b as char) == Some(v as int) && v < 16,
            None => replica::hex_digit(b as char) is None,
        },
{
    if 0x30 <= b && b <= 0x39 {
        Some(b - 0x30)
    } else if 0x61 <= b && b <= 0x66 {
        Some(b - 0x61 + 10)
    } else if 0x41 <= b && b <= 0x46 {
        Some(b - 0x41 + 10)
    } else {
        None
    }
}

/// Reads a hash of 64 hexadecimal digits. Every other text is refused, a sign
/// included.
pub fn deserialize_sha256_hash(text: &str) -> (hash: Result<[u8; 32], Sha256HashError>)
    ensures
        hash is Ok <==> is_hash_text(text@),
        hash matches Ok(h) ==> forall|i: int|
            0 <= i < SHA256_BYTES ==> #[trigger] h@[i] == 16 * replica::hex_digit(text@[2 * i])->0
                + replica::hex_digit(text@[2 * i + 1])->0,
        match hash {
            Ok(h) => hash_value(vstd::utf8::encode_utf8(text@)) == Ok::<Seq<u8>, Sha256HashError>(
                h@,
            ),
            Err(e) => hash_value(vstd::utf8::encode_utf8(text@)) == Err::<
                Seq<u8>,
                Sha256HashError,
            >(e),
        },
{
    let data: &[u8] = text.as_bytes();
    proof {
        lemma_hash_value(text@);
    }
    if data.len() != SHA256_DIGITS {
        return Err(Sha256HashError::InvalidLength { got: data.len() });
    }
    let mut hash: [u8; 32] = [0u8;32];
    let mut i: usize = 0;
    proof {
        assert(hash@.subrange(0, 0) =~= Seq::empty());
    }
    while i < 32
        invariant
            i <= 32,
            data@ == vstd::utf8::encode_utf8(text@),
            data@.len() == SHA256_DIGITS,
            hash_value(data@) is Ok <==> is_hash_text(text@),
            hash@.len() == 32,
            read_pairs(data@, i as nat) == Ok::<Seq<u8>, Sha256HashError>(
                hash@.subrange(0, i as int),
            ),
        decreases 32 - i,
    {
        let a: u8 = data[2 * i];
        let b: u8 = data[2 * i + 1];
        if !((a < 0x80 && b < 0x80) || (0xC2 <= a && a <= 0xDF && 0x80 <= b && b <= 0xBF)) {
            proof {
                lemma_read_pairs_fails(data@, (i + 1) as nat, 32);
            }
            return Err(Sha256HashError::InvalidUtf8 { pair: i });
        }
        let value: u8 = match (hex_digit_value(a), hex_digit_value(b)) {
            (Some(high), Some(low)) => high * 16 + low,
            _ => {
                proof {
                    lemma_read_pairs_fails(data@, (i + 1) as nat, 32);
                }
                return Err(Sha256HashError::InvalidHexDigit { pair: i });
            },
        };
        let ghost before = hash@;
        hash[i] = value;
        i = i + 1;
        assert(hash@.subrange(0, i as int) =~= before.subrange(0, i - 1).push(value));
    }
    assert(hash@.subrange(0, 32) =~= hash@);
    Ok(hash)
}

/// The bytes of a text are all ASCII only if its characters are.
proof fn lemma_ascii_bytes(chars: Seq<char>)
    requires
        forall|i: int|
            0 <= i < vstd::utf8::encode_utf8(chars).len() ==> (
            #[trigger] vstd::utf8::encode_utf8(chars)[i]) < 0x80,
    ensures
        vstd::utf8::is_ascii_chars(chars),
    decreases chars.len(),
{
    if chars.len() > 0 {
        let head = vstd::utf8::encode_scalar(chars[0] as u32);
        let rest = chars.drop_first();
        let whole = vstd::utf8::encode_utf8(chars);
        assert(whole == head + vstd::utf8::encode_utf8(rest));
        assert forall|i: int|
            0 <= i < vstd::utf8::encode_utf8(rest).len() implies (
        #[trigger] vstd::utf8::encode_utf8(rest)[i]) < 0x80 by {
            assert(whole[head.len() + i] == vstd::utf8::encode_utf8(rest)[i]);
        }
        lemma_ascii_bytes(rest);
        vstd::utf8::encode_utf8_first_scalar(chars);
        assert(whole[0] < 0x80);
        assert(head.len() == 1);
        assert(vstd::utf8::has_width_1_encoding(chars[0] as u32));
        assert forall|i: int| 0 <= i < chars.len() implies '\0' <= #[trigger] chars[i]
            <= '\u{7f}' by {
            if i == 0 {
                let c = chars[0];
                vstd::utf8::char_u32_cast(c, c as u32);
                assert((c as u32) as char == c);
            } else {
                assert(chars[i] == rest[i - 1]);
            }
        }
    }
}

/// What reading the first `n` pairs says of the bytes.
proof fn lemma_read_pairs(data: Seq<u8>, n: nat)
    requires
        2 * n <= data.len(),
    ensures
        read_pairs(data, n) is Ok <==> forall|i: int|
            0 <= i < 2 * n ==> is_hex(#[trigger] data[i] as char),
        read_pairs(data, n) matches Ok(bytes) ==> bytes.len() == n && forall|i: int|
            0 <= i < n ==> #[trigger] bytes[i] == 16 * replica::hex_digit(data[2 * i] as char)->0
                + replica::hex_digit(data[2 * i + 1] as char)->0,
    decreases n,
{
    if n > 0 {
        lemma_read_pairs(data, (n - 1) as nat);
        let (a, b) = (data[2 * n - 2], data[2 * n - 1]);
        if read_pairs(data, (n - 1) as nat) is Ok && is_hex(a as char) && is_hex(b as char) {
            assert forall|i: int| 0 <= i < 2 * n implies is_hex(#[trigger] data[i] as char) by {}
        }
    }
}

/// A text has a hash exactly where it consists of 64 hexadecimal digits, and which
/// hash that is.
proof fn lemma_hash_value(text: Seq<char>)
    ensures
        hash_value(vstd::utf8::encode_utf8(text)) is Ok <==> is_hash_text(text),
        hash_value(vstd::utf8::encode_utf8(text)) matches Ok(h) ==> h.len() == SHA256_BYTES
            && forall|i: int|
            0 <= i < SHA256_BYTES ==> #[trigger] h[i] == 16 * replica::hex_digit(text[2 * i])->0
                + replica::hex_digit(text[2 * i + 1])->0,
{
    let data = vstd::utf8::encode_utf8(text);
    if data.len() == SHA256_DIGITS {
        lemma_read_pairs(data, SHA256_BYTES as nat);
    }
    if hash_value(data) is Ok {
        assert forall|i: int| 0 <= i < data.len() implies (#[trigger] data[i]) < 0x80 by {
            assert(is_hex(data[i] as char));
        }
        lemma_ascii_bytes(text);
        vstd::utf8::is_ascii_chars_encode_utf8(text);
        assert forall|i: int| 0 <= i < SHA256_DIGITS implies is_hex(#[trigger] text[i]) by {
            assert(data[i] == text[i] as u8);
            assert(is_hex(data[i] as char));
        }
    }
    if is_hash_text(text) {
        assert forall|i: int| 0 <= i < text.len() implies '\0' <= #[trigger] text[i]
            <= '\u{7f}' by {
            assert(is_hex(text[i]));
        }
        assert(vstd::utf8::is_ascii_chars(text));
        vstd::utf8::is_ascii_chars_encode_utf8(text);
        assert forall|i: int| 0 <= i < 2 * SHA256_BYTES implies is_hex(#[trigger] data[i] as char) by {
            assert(data[i] == text[i] as u8);
            assert(is_hex(text[i]));
        }
    }
}

proof fn lemma_read_pairs_fails(data: Seq<u8>, n: nat, m: nat)
    requires
        n <= m,
        read_pairs(data, n) is Err,
    ensures
        read_pairs(data, m) == read_pairs(data, n),
    decreases m,
{
    if n < m {
        lemma_read_pairs_fails(data, n, (m - 1) as nat);
    }
}

proof fn lemma_hash_text(hash: Seq<u8>)
    ensures
        hash_text(hash).len() == 2 * hash.len(),
        forall|i: int|
            0 <= i < hash.len() ==> hash_text(hash)[2 * i] == replica::hex_char(
                #[trigger] hash[i] as int / 16,
            ) && hash_text(hash)[2 * i + 1] == replica::hex_char(hash[i] as int % 16),
    decreases hash.len(),
{
    if hash.len() > 0 {
        let rest = hash.drop_last();
        let b = hash.last() as int;
        lemma_hash_text(rest);
        reveal_with_fuel(replica::hex_digits, 3);
        assert((b / 16) % 16 == b / 16);
        assert(replica::hex_digits(b, 2) =~= seq![
            replica::hex_char(b / 16),
            replica::hex_char(b % 16),
        ]);
        assert forall|i: int| 0 <= i < hash.len() implies hash_text(hash)[2 * i]
            == replica::hex_char(#[trigger] hash[i] as int / 16) && hash_text(hash)[2 * i + 1]
            == replica::hex_char(hash[i] as int % 16) by {
            if i < rest.len() {
                assert(hash[i] == rest[i]);
            }
        }
    }
}

/// Reading the text of a hash gives back the hash.
pub proof fn law_hash_round_trip(hash: Seq<u8>)
    requires
        hash.len() == SHA256_BYTES,
    ensures
        hash_value(vstd::utf8::encode_utf8(hash_text(hash))) == Ok::<Seq<u8>, Sha256HashError>(
            hash,
        ),
{
    let t = hash_text(hash);
    lemma_hash_text(hash);
    assert forall|k: int| 0 <= k < t.len() implies '\0' <= #[trigger] t[k] <= '\u{7f}' by {
        let i = k / 2;
        assert(0 <= hash[i] as int / 16 < 16 && 0 <= hash[i] as int % 16 < 16);
        assert(k == 2 * i || k == 2 * i + 1);
    }
    assert(vstd::utf8::is_ascii_chars(t));
    vstd::utf8::is_ascii_chars_encode_utf8(t);
    let data = vstd::utf8::encode_utf8(t);
    lemma_hash_pairs(hash, data, SHA256_BYTES as nat);
    assert(hash.subrange(0, SHA256_BYTES as int) =~= hash);
}

proof fn lemma_hash_pairs(hash: Seq<u8>, data: Seq<u8>, n: nat)
    requires
        n <= hash.len(),
        data.len() == 2 * hash.len(),
        forall|i: int|
            0 <= i < hash.len() ==> data[2 * i] == replica::hex_char(
                #[trigger] hash[i] as int / 16,
            ) as u8 && data[2 * i + 1] == replica::hex_char(hash[i] as int % 16) as u8,
    ensures
        read_pairs(data, n) == Ok::<Seq<u8>, Sha256HashError>(hash.subrange(0, n as int)),
    decreases n,
{
    if n == 0 {
        assert(hash.subrange(0, 0) =~= Seq::empty());
    } else {
        lemma_hash_pairs(hash, data, (n - 1) as nat);
        let b = hash[n - 1];
        let (hi, lo) = (b as int / 16, b as int % 16);
        assert(0 <= hi < 16 && 0 <= lo < 16 && 16 * hi + lo == b);
        assert(replica::hex_digit(data[2 * n - 2] as char) == Some(hi));
        assert(replica::hex_digit(data[2 * n - 1] as char) == Some(lo));
        assert(hash.subrange(0, n as int) =~= hash.subrange(0, n - 1).push(b));
    }
}

// ---------------------------------------------------------------------------
// Timestamps
// ---------------------------------------------------------------------------
/// Nanoseconds in a second.
pub const NANOS_PER_SECOND: u64 = 1_000_000_000;

/// Why a text is no timestamp.
#[derive(Debug, Clone, Copy, PartialEq, Eq, Structural)]
pub enum TimestampError {
    /// The text is neither a date and time nor a number.
    InvalidFormat { reason: NumberError },
    /// The date and time lies before 1970 or too far ahead.
    OutOfRange,
}

/// The RFC 3339 text, in UTC and with nine digits of a second, of an instant given
/// in seconds and nanoseconds since 1970; `None` if it cannot be represented.
pub uninterp spec fn rfc3339_text(secs: i64, nanos: u32) -> Option<Seq<char>>;

/// The instant, in seconds and nanoseconds since 1970, that an RFC 3339 text stands
/// for; `None` if the text is none.
pub uninterp spec fn rfc3339_instant(text: Seq<char>) -> Option<(i64, u32)>;

/// `chrono::ParseError`, as `chrono::DateTime::parse_from_rfc3339` returns it.
#[verifier::external_type_specification]
#[verifier::external_body]
pub struct ExChronoParseError(chrono::ParseError);

/// The instant lies between 1970 and the last second that 64 bits of nanoseconds
/// reach.
pub open spec fn instant_reachable(secs: i64, nanos: u32) -> bool {
    0 <= secs <= 18_446_744_073 && nanos < NANOS_PER_SECOND
}

/// Calls `chrono::DateTime::to_rfc3339_opts` on the instant that
/// `chrono::DateTime::from_timestamp` makes. Every instant from 1970 up to the last
/// one that 64 bits of nanoseconds reach has a text, and
/// `chrono::DateTime::parse_from_rfc3339` reads that text as the same instant.
#[verifier::external_body]
fn format_rfc3339(secs: i64, nanos: u32) -> (text: Option<String>)
    ensures
        match text {
            Some(t) => rfc3339_text(secs, nanos) == Some(t@),
            None => rfc3339_text(secs, nanos) is None,
        },
        instant_reachable(secs, nanos) ==> text is Some && rfc3339_instant(text->0@) == Some(
            (secs, nanos),
        ),
{
    let time = chrono::DateTime::<chrono::Utc>::from_timestamp(secs, nanos)?;
    Some(time.to_rfc3339_opts(chrono::SecondsFormat::Nanos, true))
}

/// Calls `chrono::DateTime::parse_from_rfc3339` and takes the instant apart. The
/// nanoseconds reach two seconds at most: a leap second has more than one.
#[verifier::external_body]
fn parse_rfc3339(text: &str) -> (instant: Result<(i64, u32), chrono::ParseError>)
    ensures
        match instant {
            Ok(i) => rfc3339_instant(text@) == Some(i) && i.1 < 2_000_000_000,
            Err(_) => rfc3339_instant(text@) is None,
        },
{
    let time = chrono::DateTime::parse_from_rfc3339(text)?.with_timezone(&chrono::Utc);
    Ok((time.timestamp(), time.timestamp_subsec_nanos()))
}

/// The whole seconds of a timestamp.
pub open spec fn timestamp_secs(timestamp: u64) -> i64 {
    (timestamp / NANOS_PER_SECOND) as i64
}

/// The remaining nanoseconds of a timestamp.
pub open spec fn timestamp_subsec(timestamp: u64) -> u32 {
    (timestamp % NANOS_PER_SECOND) as u32
}

/// The instant fits into 64 bits of nanoseconds since 1970.
pub open spec fn instant_fits(instant: (i64, u32)) -> bool {
    0 <= instant.0 && instant.0 * NANOS_PER_SECOND + instant.1 <= u64::MAX
}

/// The nanoseconds since 1970 of an instant.
pub open spec fn instant_nanos(instant: (i64, u32)) -> int {
    instant.0 * NANOS_PER_SECOND + instant.1
}

/// The timestamp that a text stands for: an RFC 3339 date and time, or else a plain
/// number of nanoseconds.
pub open spec fn timestamp_value(
    instant: Option<(i64, u32)>,
    text: Seq<char>,
) -> Result<u64, TimestampError> {
    match instant {
        Some(i) => if instant_fits(i) {
            Ok(instant_nanos(i) as u64)
        } else {
            Err(TimestampError::OutOfRange)
        },
        None => match text::number_value(text) {
            Ok(n) => Ok(n),
            Err(reason) => Err(TimestampError::InvalidFormat { reason }),
        },
    }
}

/// Writes a timestamp, in nanoseconds since 1970, as RFC 3339 text.
pub fn serialize_timestamp(timestamp: u64) -> (text: String)
    ensures
        rfc3339_text(timestamp_secs(timestamp), timestamp_subsec(timestamp)) == Some(text@),
        rfc3339_instant(text@) == Some((timestamp_secs(timestamp), timestamp_subsec(timestamp))),
{
    let secs: i64 = (timestamp / NANOS_PER_SECOND) as i64;
    let nanos: u32 = (timestamp % NANOS_PER_SECOND) as u32;
    match format_rfc3339(secs, nanos) {
        Some(text) => text,
        None => decimal(timestamp as u128),
    }
}

/// The nanoseconds since 1970 of an instant.
pub fn nanos_of_instant(instant: (i64, u32)) -> (timestamp: u64)
    requires
        instant_fits(instant),
    ensures
        timestamp == instant_nanos(instant),
{
    instant.0 as u64 * NANOS_PER_SECOND + instant.1 as u64
}

/// The timestamp of a text, given the instant that it stands for as RFC 3339.
pub fn timestamp_of(instant: Option<(i64, u32)>, text: &str) -> (timestamp: Result<
    u64,
    TimestampError,
>)
    ensures
        timestamp == timestamp_value(instant, text@),
{
    match instant {
        Some(i) => {
            if i.0 < 0 || i.0 as u64 > u64::MAX / NANOS_PER_SECOND {
                proof {
                    assert(!instant_fits(i)) by (nonlinear_arith)
                        requires
                            i.0 < 0 || i.0 > 18_446_744_073,
                    ;
                }
                return Err(TimestampError::OutOfRange);
            }
            if i.0 as u64 * NANOS_PER_SECOND > u64::MAX - i.1 as u64 {
                return Err(TimestampError::OutOfRange);
            }
            Ok(nanos_of_instant(i))
        },
        None => match parse_number(text) {
            Ok(n) => Ok(n),
            Err(reason) => Err(TimestampError::InvalidFormat { reason }),
        },
    }
}

/// Reads a timestamp of a text whose instant, if it is RFC 3339, fits.
pub fn deserialize_timestamp(text: &str) -> (timestamp: Result<u64, TimestampError>)
    requires
        rfc3339_instant(text@) matches Some(i) ==> instant_fits(i),
    ensures
        timestamp == timestamp_value(rfc3339_instant(text@), text@),
        rfc3339_instant(text@) is Some ==> timestamp is Ok,
{
    match parse_rfc3339(text) {
        Ok(instant) => Ok(nanos_of_instant(instant)),
        Err(_) => timestamp_of(None, text),
    }
}

/// Reads a timestamp of any text.
pub fn read_timestamp(text: &str) -> (timestamp: Result<u64, TimestampError>)
    ensures
        timestamp == timestamp_value(rfc3339_instant(text@), text@),
{
    match parse_rfc3339(text) {
        Ok(instant) => match timestamp_of(Some(instant), text) {
            Ok(_) => deserialize_timestamp(text),
            Err(e) => Err(e),
        },
        Err(_) => deserialize_timestamp(text),
    }
}

/// Reading the text of a timestamp gives back the timestamp. The requirement is what
/// writing a timestamp promises of its text.
pub proof fn law_timestamp_round_trip(timestamp: u64, text: Seq<char>)
    requires
        rfc3339_instant(text) == Some((timestamp_secs(timestamp), timestamp_subsec(timestamp))),
    ensures
        timestamp_value(rfc3339_instant(text), text) == Ok::<u64, TimestampError>(timestamp),
{
    assert((timestamp / NANOS_PER_SECOND) * NANOS_PER_SECOND + timestamp % NANOS_PER_SECOND
        == timestamp);
}

/// A plain number of nanoseconds is read as it is.
pub proof fn law_plain_number_is_read(timestamp: u64)
    ensures
        timestamp_value(None, text::decimal_text(timestamp as nat)) == Ok::<u64, TimestampError>(
            timestamp,
        ),
{
    text::law_decimal_round_trip(timestamp);
}

// ---------------------------------------------------------------------------
// Modules
// ---------------------------------------------------------------------------
/// A module and its identifier, the 128 bits of a UUID.
#[derive(Debug, Clone)]
pub struct WasmModule {
    pub module_uuid: u128,
    pub module_meta: WasmModuleMeta,
}

/// The outcome of adding a module.
#[derive(Debug, Clone)]
pub enum WasmModuleAddResult {
    Success(u128),
    Error(String),
}

/// A module to add, and what became of it.
#[derive(Debug, Clone)]
pub struct WasmModuleDescriptor {
    pub name: String,
    pub file_path: String,
    pub module_type: WasmModuleType,
    pub attach_points: Vec<WasmModuleAttachPoint>,
    pub add_result: Option<WasmModuleAddResult>,
}

/// What is known of a module. Times are in nanoseconds since 1970; the code is
/// shared, so that it is not copied for every execution.
#[derive(Debug, Clone)]
pub struct WasmModuleMeta {
    pub name: String,
    pub file_path: String,
    pub sha256_hash: [u8; 32],
    pub size_bytes: u64,
    pub created_at: u64,
    pub last_accessed_at: u64,
    pub access_count: u64,
    pub attach_points: Vec<WasmModuleAttachPoint>,
    pub wasm_bytes: Arc<Vec<u8>>,
}

/// The kind of a module.
#[derive(Debug, Clone, Copy, PartialEq, Eq, Structural, Hash)]
pub enum WasmModuleType {
    Middleware,
}

/// Where a middleware module is called.
#[derive(Debug, Clone, Copy, PartialEq, Eq, Structural, Hash)]
pub enum MiddlewareAttachPoint {
    OnRequest,
    OnResponse,
    OnError,
}

/// Where a module is called.
#[derive(Debug, Clone, Copy, PartialEq, Eq, Structural, Hash)]
pub enum WasmModuleAttachPoint {
    Middleware(MiddlewareAttachPoint),
}

/// A request to add modules.
#[derive(Debug, Clone)]
pub struct WasmModuleAddRequest {
    pub modules: Vec<WasmModuleDescriptor>,
}

/// The answer to a request to add modules.
#[derive(Debug, Clone)]
pub struct WasmModuleAddResponse {
    pub modules: Vec<WasmModuleDescriptor>,
}

// ---------------------------------------------------------------------------
// What hashes and timestamps look like
// ---------------------------------------------------------------------------
/// The number of a hexadecimal digit in either case; -1 for any other character.
pub open spec fn hex_number(c: char) -> int {
    if '0' <= c <= '9' {
        c as int - 48
    } else if 'a' <= c <= 'f' {
        c as int - 87
    } else if 'A' <= c <= 'F' {
        c as int - 55
    } else {
        -1
    }
}

proof fn lemma_hex_number(c: char)
    ensures
        is_hex(c) <==> hex_number(c) >= 0,
        is_hex(c) ==> replica::hex_digit(c) == Some(hex_number(c)),
{
}

/// A hash is written as two digits for each byte, none of them in upper case, the first
/// counting sixteen times the second.
pub proof fn law_hash_text_is_lower_case(hash: Seq<u8>, i: int)
    requires
        0 <= i < hash.len(),
    ensures
        hash_text(hash).len() == 2 * hash.len(),
        16 * hex_number(hash_text(hash)[2 * i]) + hex_number(hash_text(hash)[2 * i + 1])
            == hash[i],
        !('A' <= hash_text(hash)[2 * i] <= 'F'),
        !('A' <= hash_text(hash)[2 * i + 1] <= 'F'),
        hex_number(hash_text(hash)[2 * i]) >= 0,
        hex_number(hash_text(hash)[2 * i + 1]) >= 0,
{
    lemma_hash_text(hash);
    let b = hash[i] as int;
    assert(hash_text(hash)[2 * i] == replica::hex_char(hash[i] as int / 16));
    assert(0 <= b / 16 < 16 && 0 <= b % 16 < 16 && 16 * (b / 16) + b % 16 == b);
}

/// A text is read as a hash exactly where it has 64 characters and each is a hexadecimal
/// digit, in either case; byte `i` is then made of digits `2 i` and `2 i + 1`.
pub proof fn law_hash_is_read(text: Seq<char>, i: int)
    ensures
        ({
            let r = hash_value(vstd::utf8::encode_utf8(text));
            &&& r is Ok <==> text.len() == 64 && forall|k: int|
                0 <= k < 64 ==> hex_number(#[trigger] text[k]) >= 0
            &&& 0 <= i < 32 ==> (r matches Ok(h) ==> h.len() == 32 && h[i] == 16 * hex_number(
                text[2 * i],
            ) + hex_number(text[2 * i + 1]))
        }),
{
    lemma_hash_value(text);
    let r = hash_value(vstd::utf8::encode_utf8(text));
    if is_hash_text(text) {
        assert forall|k: int| 0 <= k < 64 implies hex_number(#[trigger] text[k]) >= 0 by {
            assert(is_hex(text[k]));
        }
    }
    if text.len() == 64 && forall|k: int| 0 <= k < 64 ==> hex_number(#[trigger] text[k]) >= 0 {
        assert forall|k: int| 0 <= k < SHA256_DIGITS implies is_hex(#[trigger] text[k]) by {
            assert(hex_number(text[k]) >= 0);
        }
    }
    if r is Ok && 0 <= i < 32 {
        let h = r->Ok_0;
        assert(is_hex(text[2 * i]) && is_hex(text[2 * i + 1]));
        assert(h[i] == 16 * replica::hex_digit(text[2 * i])->0 + replica::hex_digit(
            text[2 * i + 1],
        )->0);
    }
}

proof fn lemma_first_bad_pair(data: Seq<u8>, n: nat)
    requires
        2 * n <= data.len(),
        n <= 32,
    ensures
        match read_pairs(data, n) {
            Ok(_) => true,
            Err(Sha256HashError::InvalidLength { .. }) => false,
            Err(Sha256HashError::InvalidUtf8 { pair }) => {
                &&& pair < n
                &&& forall|k: int| 0 <= k < 2 * pair ==> is_hex(#[trigger] data[k] as char)
                &&& !is_utf8_pair(data[2 * pair as int], data[2 * pair as int + 1])
            },
            Err(Sha256HashError::InvalidHexDigit { pair }) => {
                &&& pair < n
                &&& forall|k: int| 0 <= k < 2 * pair ==> is_hex(#[trigger] data[k] as char)
                &&& is_utf8_pair(data[2 * pair as int], data[2 * pair as int + 1])
                &&& !is_hex(data[2 * pair as int] as char) || !is_hex(
                    data[2 * pair as int + 1] as char,
                )
            },
        },
    decreases n,
{
    if n > 0 {
        lemma_first_bad_pair(data, (n - 1) as nat);
        lemma_read_pairs(data, (n - 1) as nat);
    }
}

/// A text that is no hash is refused for its length, in bytes, if that is not 64. Else the
/// first pair of bytes that is no pair of hexadecimal digits is named, and whether these
/// two bytes are text at all: two ASCII characters, or one character of two bytes.
pub proof fn law_refused_hash_is_explained(data: Seq<u8>)
    requires
        data.len() <= usize::MAX,
    ensures
        data.len() != 64 ==> hash_value(data) == Err::<Seq<u8>, Sha256HashError>(
            Sha256HashError::InvalidLength { got: data.len() as usize },
        ),
        data.len() == 64 ==> match hash_value(data) {
            Ok(_) => true,
            Err(Sha256HashError::InvalidLength { .. }) => false,
            Err(Sha256HashError::InvalidUtf8 { pair }) => {
                let (a, b) = (data[2 * pair as int], data[2 * pair as int + 1]);
                &&& pair < 32
                &&& forall|k: int| 0 <= k < 2 * pair ==> hex_number(#[trigger] data[k] as char) >= 0
                &&& !(a < 128 && b < 128) && !(194 <= a <= 223 && 128 <= b <= 191)
            },
            Err(Sha256HashError::InvalidHexDigit { pair }) => {
                let (a, b) = (data[2 * pair as int], data[2 * pair as int + 1]);
                &&& pair < 32
                &&& forall|k: int| 0 <= k < 2 * pair ==> hex_number(#[trigger] data[k] as char) >= 0
                &&& (a < 128 && b < 128) || (194 <= a <= 223 && 128 <= b <= 191)
                &&& hex_number(a as char) < 0 || hex_number(b as char) < 0
            },
        },
{
    if data.len() == 64 {
        lemma_first_bad_pair(data, 32);
        assert forall|k: int| 0 <= k < 64 && is_hex(#[trigger] data[k] as char) implies hex_number(
            data[k] as char,
        ) >= 0 by {
            lemma_hex_number(data[k] as char);
        }
    }
}

/// A timestamp is written as its whole seconds and the nanoseconds that remain, which are
/// fewer than a second has.
pub proof fn law_timestamp_is_seconds_and_nanoseconds(timestamp: u64)
    ensures
        0 <= timestamp_secs(timestamp),
        0 <= timestamp_subsec(timestamp) < 1_000_000_000,
        1_000_000_000 * timestamp_secs(timestamp) + timestamp_subsec(timestamp) == timestamp,
{
    assert((timestamp / NANOS_PER_SECOND) * NANOS_PER_SECOND + timestamp % NANOS_PER_SECOND
        == timestamp);
}

/// A date and time is read as its nanoseconds since 1970, and is out of range exactly where
/// it lies before 1970 or these nanoseconds take more than 64 bits. A text that is no date
/// and time is read as a plain number, and refused for what is wrong with that.
pub proof fn law_timestamp_is_read(secs: i64, nanos: u32, text: Seq<char>)
    ensures
        ({
            let total = 1_000_000_000 * secs + nanos;
            match timestamp_value(Some((secs, nanos)), text) {
                Ok(t) => secs >= 0 && t == total,
                Err(e) => e is OutOfRange && (secs < 0 || total > 0xffff_ffff_ffff_ffff),
            }
        }),
        text.len() > 0 && text::all_digits(text) && text::digits_number(text)
            <= 0xffff_ffff_ffff_ffff ==> timestamp_value(None, text) == Ok::<u64, TimestampError>(
            text::digits_number(text) as u64,
        ),
        text::number_value(text) matches Err(reason) ==> timestamp_value(None, text) == Err::<
            u64,
            TimestampError,
        >(TimestampError::InvalidFormat { reason }),
{
    text::law_digits_are_read(text);
    assert(secs * NANOS_PER_SECOND == 1_000_000_000 * secs);
}

} // verus!
