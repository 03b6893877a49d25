//! Text comparison and construction.

use vstd::prelude::*;

verus! {

/// Texts with the same UTF-8 bytes are equal.
pub proof fn lemma_utf8_injective(a: Seq<char>, b: Seq<char>)
    requires
        vstd::utf8::encode_utf8(a) == vstd::utf8::encode_utf8(b),
    ensures
        a == b,
{
    vstd::utf8::encode_utf8_decode_utf8(a);
    vstd::utf8::encode_utf8_decode_utf8(b);
}

/// Whether two texts are equal.
pub fn same_text(a: &str, b: &str) -> (same: bool)
    ensures
        same == (a@ == b@),
{
    let x: &[u8] = a.as_bytes();
    let y: &[u8] = b.as_bytes();
    if x.len() != y.len() {
        return false;
    }
    let mut i: usize = 0;
    while i < x.len()
        invariant
            x@ == vstd::utf8::encode_utf8(a@),
            y@ == vstd::utf8::encode_utf8(b@),
            x@.len() == y@.len(),
            i <= x@.len(),
            x@.subrange(0, i as int) == y@.subrange(0, i as int),
        decreases x@.len() - i,
    {
        if x[i] != y[i] {
            assert(x@[i as int] != y@[i as int]);
            return false;
        }
        assert(x@.subrange(0, i + 1) =~= x@.subrange(0, i as int).push(x@[i as int]));
        assert(y@.subrange(0, i + 1) =~= y@.subrange(0, i as int).push(y@[i as int]));
        i = i + 1;
    }
    proof {
        assert(x@.subrange(0, i as int) =~= x@);
        assert(y@.subrange(0, i as int) =~= y@);
        lemma_utf8_injective(a@, b@);
    }
    true
}

// ---------------------------------------------------------------------------
// Decimal numbers
// ---------------------------------------------------------------------------
/// The decimal digit of value `d`.
pub open spec fn digit_char(d: int) -> char {
    ('0' as int + d) as char
}

/// `n` in decimal digits, without leading zeros.
pub open spec fn decimal_text(n: nat) -> Seq<char>
    decreases n,
{
    if n < 10 {
        seq![digit_char(n as int)]
    } else {
        decimal_text(n / 10).push(digit_char((n % 10) as int))
    }
}

/// The text of one decimal digit.
fn digit_text(d: u64) -> (text: &'static str)
    requires
        d < 10,
    ensures
        text@ == seq![digit_char(d as int)],
{
    proof {
        reveal_strlit("0");
        reveal_strlit("1");
        reveal_strlit("2");
        reveal_strlit("3");
        reveal_strlit("4");
        reveal_strlit("5");
        reveal_strlit("6");
        reveal_strlit("7");
        reveal_strlit("8");
        reveal_strlit("9");
    }
    let text: &'static str = if d == 0 {
        "0"
    } else if d == 1 {
        "1"
    } else if d == 2 {
        "2"
    } else if d == 3 {
        "3"
    } else if d == 4 {
        "4"
    } else if d == 5 {
        "5"
    } else if d == 6 {
        "6"
    } else if d == 7 {
        "7"
    } else if d == 8 {
        "8"
    } else {
        "9"
    };
    assert(text@ =~= seq![digit_char(d as int)]);
    text
}

/// Writes a number in decimal.
pub fn decimal(n: u128) -> (text: String)
    ensures
        text@ == decimal_text(n as nat),
    decreases n,
{
    if n < 10 {
        digit_text(n as u64).to_owned()
    } else {
        let mut text: String = decimal(n / 10);
        text.append(digit_text((n % 10) as u64));
        assert(text@ =~= decimal_text(n as nat));
        text
    }
}

/// `n` in decimal digits, behind a minus sign if it is negative.
pub open spec fn signed_text(n: int) -> Seq<char> {
    if n < 0 {
        seq!['-'] + decimal_text((-n) as nat)
    } else {
        decimal_text(n as nat)
    }
}

/// Writes a signed number in decimal.
pub fn signed_decimal(n: i64) -> (text: String)
    ensures
        text@ == signed_text(n as int),
{
    if n < 0 {
        let mut text: String = "-".to_owned();
        proof {
            reveal_strlit("-");
            assert("-"@ =~= seq!['-']);
        }
        text.append(decimal((-(n as i128)) as u128).as_str());
        text
    } else {
        decimal(n as u128)
    }
}

/// Three texts in a row.
pub fn concat3(a: &str, b: &str, c: &str) -> (text: String)
    ensures
        text@ == a@ + b@ + c@,
{
    let mut text: String = a.to_owned();
    text.append(b);
    text.append(c);
    text
}

/// Four texts in a row.
pub fn concat4(a: &str, b: &str, c: &str, d: &str) -> (text: String)
    ensures
        text@ == a@ + b@ + c@ + d@,
{
    let mut text: String = concat3(a, b, c);
    text.append(d);
    text
}

/// Five texts in a row.
pub fn concat5(a: &str, b: &str, c: &str, d: &str, e: &str) -> (text: String)
    ensures
        text@ == a@ + b@ + c@ + d@ + e@,
{
    let mut text: String = concat3(a, b, c);
    text.append(d);
    text.append(e);
    text
}

/// Why a text is no number.
#[derive(Debug, Clone, Copy, PartialEq, Eq, Structural)]
pub enum NumberError {
    /// The text is empty.
    Empty,
    /// A character is no digit.
    InvalidDigit,
    /// The number does not fit.
    TooLarge,
}

/// The number of the digits read so far, with one more character. What failed
/// stays failed.
pub open spec fn read_digit(so_far: Result<u64, NumberError>, c: char) -> Result<
    u64,
    NumberError,
> {
    match so_far {
        Ok(n) => if !('0' <= c <= '9') {
            Err(NumberError::InvalidDigit)
        } else if 10 * n + (c as int - '0' as int) > u64::MAX {
            Err(NumberError::TooLarge)
        } else {
            Ok((10 * n + (c as int - '0' as int)) as u64)
        },
        Err(e) => Err(e),
    }
}

/// The number of a string of digits.
pub open spec fn read_digits(s: Seq<char>) -> Result<u64, NumberError>
    decreases s.len(),
{
    if s.len() == 0 {
        Ok(0)
    } else {
        read_digit(read_digits(s.drop_last()), s.last())
    }
}

/// The number that a text stands for: digits, perhaps behind a plus sign.
pub open spec fn number_value(s: Seq<char>) -> Result<u64, NumberError> {
    if s.len() == 0 {
        Err(NumberError::Empty)
    } else if s.len() == 1 && s[0] == '+' {
        Err(NumberError::InvalidDigit)
    } else if s[0] == '+' {
        read_digits(s.subrange(1, s.len() as int))
    } else {
        read_digits(s)
    }
}

/// Reads a number.
pub fn parse_number(text: &str) -> (number: Result<u64, NumberError>)
    ensures
        number == number_value(text@),
{
    let len: usize = text.unicode_len();
    if len == 0 {
        return Err(NumberError::Empty);
    }
    let first: char = text.get_char(0);
    if len == 1 && first == '+' {
        return Err(NumberError::InvalidDigit);
    }
    let start: usize = if first == '+' {
        1
    } else {
        0
    };
    let ghost digits = text@.subrange(start as int, text@.len() as int);
    let mut n: u64 = 0;
    let mut i: usize = start;
    proof {
        assert(digits.subrange(0, 0) =~= Seq::empty());
        if start == 0 {
            assert(digits =~= text@);
        }
    }
    while i < len
        invariant
            start <= i <= len,
            len == text@.len(),
            digits == text@.subrange(start as int, text@.len() as int),
            number_value(text@) == read_digits(digits),
            read_digits(digits.subrange(0, i - start)) == Ok::<u64, NumberError>(n),
        decreases len - i,
    {
        let c: char = text.get_char(i);
        proof {
            assert(digits.subrange(0, i - start + 1).drop_last() =~= digits.subrange(0, i - start));
            assert(digits.subrange(0, i - start + 1).last() == c);
        }
        if !('0' <= c && c <= '9') {
            proof {
                lemma_read_digits_fails(digits, i - start + 1);
            }
            return Err(NumberError::InvalidDigit);
        }
        let d: u64 = c as u64 - '0' as u64;
        if n > u64::MAX / 10 || n * 10 > u64::MAX - d {
            proof {
                lemma_read_digits_fails(digits, i - start + 1);
            }
            return Err(NumberError::TooLarge);
        }
        n = n * 10 + d;
        i = i + 1;
    }
    assert(digits.subrange(0, i - start) =~= digits);
    Ok(n)
}

/// If the first `n` characters fail, all fail in the same way.
proof fn lemma_read_digits_fails(s: Seq<char>, n: int)
    requires
        0 <= n <= s.len(),
        read_digits(s.subrange(0, n)) is Err,
    ensures
        read_digits(s) == read_digits(s.subrange(0, n)),
    decreases s.len() - n,
{
    if n < s.len() {
        assert(s.subrange(0, n + 1).drop_last() =~= s.subrange(0, n));
        lemma_read_digits_fails(s, n + 1);
    } else {
        assert(s.subrange(0, n) =~= s);
    }
}

/// Reading a number in decimal gives back the number.
pub proof fn law_decimal_round_trip(n: u64)
    ensures
        number_value(decimal_text(n as nat)) == Ok::<u64, NumberError>(n),
{
    lemma_decimal_digits(n as nat);
}

proof fn lemma_decimal_digits(n: nat)
    requires
        n <= u64::MAX,
    ensures
        decimal_text(n).len() > 0,
        decimal_text(n)[0] != '+',
        read_digits(decimal_text(n)) == Ok::<u64, NumberError>(n as u64),
    decreases n,
{
    let s = decimal_text(n);
    let d = (n % 10) as int;
    assert(digit_char(d) as int == '0' as int + d);
    assert(10 * (n / 10) + d == n);
    if n < 10 {
        assert(s.drop_last() =~= Seq::empty());
        assert(s.last() == digit_char(d));
        assert(read_digits(Seq::<char>::empty()) == Ok::<u64, NumberError>(0));
    } else {
        lemma_decimal_digits(n / 10);
        assert(s.drop_last() =~= decimal_text(n / 10));
        assert(s.last() == digit_char(d));
    }
}

/// The number that a string of decimal digits stands for.
pub open spec fn digits_number(s: Seq<char>) -> int
    decreases s.len(),
{
    if s.len() == 0 {
        0
    } else {
        10 * digits_number(s.drop_last()) + (s.last() as int - 48)
    }
}

/// All characters are decimal digits.
pub open spec fn all_digits(s: Seq<char>) -> bool {
    forall|i: int| 0 <= i < s.len() ==> '0' <= #[trigger] s[i] <= '9'
}

/// A number is written in decimal digits that stand for it, without a leading zero but for
/// the number zero itself. A negative one has a minus sign before the digits.
pub proof fn law_decimal_stands_for_number(n: nat)
    ensures
        decimal_text(n).len() > 0,
        all_digits(decimal_text(n)),
        digits_number(decimal_text(n)) == n,
        n > 0 ==> decimal_text(n)[0] != '0',
        signed_text(n as int) == decimal_text(n),
        n > 0 ==> signed_text(-(n as int)) == seq!['-'] + decimal_text(n),
    decreases n,
{
    let s = decimal_text(n);
    let d = (n % 10) as int;
    let c = digit_char(d);
    assert(c as int == 48 + d);
    if n < 10 {
        assert(s.drop_last() =~= Seq::empty());
        assert(digits_number(Seq::<char>::empty()) == 0);
    } else {
        law_decimal_stands_for_number(n / 10);
        assert(s.drop_last() =~= decimal_text(n / 10));
        assert(s[0] == decimal_text(n / 10)[0]);
    }
    assert(s.last() == c);
}

proof fn lemma_digits_grow(s: Seq<char>, n: int)
    requires
        all_digits(s),
        0 <= n <= s.len(),
    ensures
        0 <= digits_number(s.subrange(0, n)) <= digits_number(s),
    decreases s.len(),
{
    if n == s.len() {
        assert(s.subrange(0, n) =~= s);
        if s.len() > 0 {
            assert(all_digits(s.drop_last())) by {
                assert forall|i: int| 0 <= i < s.drop_last().len() implies '0'
                    <= #[trigger] s.drop_last()[i] <= '9' by {
                    assert(s.drop_last()[i] == s[i]);
                }
            }
            lemma_digits_grow(s.drop_last(), n - 1);
            assert('0' <= s[s.len() - 1] <= '9');
            assert(s.drop_last().subrange(0, n - 1) =~= s.drop_last());
        }
    } else {
        let rest = s.drop_last();
        assert(all_digits(rest)) by {
            assert forall|i: int| 0 <= i < rest.len() implies '0' <= #[trigger] rest[i] <= '9' by {
                assert(rest[i] == s[i]);
            }
        }
        lemma_digits_grow(rest, n);
        assert(rest.subrange(0, n) =~= s.subrange(0, n));
        assert('0' <= s[s.len() - 1] <= '9');
    }
}

proof fn lemma_read_digits(s: Seq<char>)
    ensures
        all_digits(s) && digits_number(s) <= u64::MAX ==> read_digits(s) == Ok::<u64, NumberError>(
            digits_number(s) as u64,
        ),
        all_digits(s) && digits_number(s) > u64::MAX ==> read_digits(s) == Err::<u64, NumberError>(
            NumberError::TooLarge,
        ),
        !all_digits(s) ==> read_digits(s) is Err,
    decreases s.len(),
{
    if s.len() > 0 {
        let rest = s.drop_last();
        lemma_read_digits(rest);
        assert(all_digits(s) <==> all_digits(rest) && '0' <= s.last() <= '9') by {
            if all_digits(s) {
                assert forall|i: int| 0 <= i < rest.len() implies '0' <= #[trigger] rest[i]
                    <= '9' by {
                    assert(rest[i] == s[i]);
                }
                assert('0' <= s[s.len() - 1] <= '9');
            }
            if all_digits(rest) && '0' <= s.last() <= '9' {
                assert forall|i: int| 0 <= i < s.len() implies '0' <= #[trigger] s[i] <= '9' by {
                    if i < rest.len() {
                        assert(s[i] == rest[i]);
                    }
                }
            }
        }
        if all_digits(rest) {
            lemma_digits_grow(rest, rest.len() as int);
            assert(rest.subrange(0, rest.len() as int) =~= rest);
        }
    }
}

/// A text is read as a number exactly where it is one or more decimal digits, perhaps
/// behind a plus sign, that stand for a number of 64 bits, and it is read as that number.
/// An empty text is reported as such, and digits that stand for a greater number as too
/// large.
pub proof fn law_digits_are_read(s: Seq<char>)
    ensures
        s.len() == 0 ==> number_value(s) == Err::<u64, NumberError>(NumberError::Empty),
        s.len() > 0 && all_digits(s) ==> number_value(s) == number_value(seq!['+'] + s),
        s.len() > 0 && all_digits(s) && digits_number(s) <= 0xffff_ffff_ffff_ffff ==> number_value(
            s,
        ) == Ok::<u64, NumberError>(digits_number(s) as u64),
        s.len() > 0 && all_digits(s) && digits_number(s) > 0xffff_ffff_ffff_ffff ==> number_value(
            s,
        ) == Err::<u64, NumberError>(NumberError::TooLarge),
        number_value(s) is Ok ==> all_digits(s) || (s.len() > 1 && s[0] == '+' && all_digits(
            s.subrange(1, s.len() as int),
        )),
{
    let t = seq!['+'] + s;
    assert(t.subrange(1, t.len() as int) =~= s);
    lemma_read_digits(s);
    if s.len() > 0 {
        lemma_read_digits(s.subrange(1, s.len() as int));
        if all_digits(s) {
            assert('0' <= s[0] <= '9');
        }
    }
}

/// The first fault of a text decides: where the characters before some character are digits
/// of a number that fits, and that character is none, the text has an invalid digit,
/// whatever follows.
pub proof fn law_first_fault_decides(s: Seq<char>, k: int)
    requires
        0 <= k < s.len(),
        all_digits(s.subrange(0, k)),
        digits_number(s.subrange(0, k)) <= 0xffff_ffff_ffff_ffff,
        !('0' <= s[k] <= '9'),
        k > 0 || s[0] != '+',
    ensures
        number_value(s) == Err::<u64, NumberError>(NumberError::InvalidDigit),
{
    let head = s.subrange(0, k + 1);
    lemma_read_digits(s.subrange(0, k));
    assert(head.drop_last() =~= s.subrange(0, k));
    assert(head.last() == s[k]);
    lemma_read_digits_fails(s, k + 1);
    if k > 0 {
        assert('0' <= s.subrange(0, k)[0] <= '9');
        assert(s[0] == s.subrange(0, k)[0]);
    }
}

} // verus!
