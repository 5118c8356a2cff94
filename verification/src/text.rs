//! Decimal numbers, ASCII case and UTF-8 text: what the protocol needs of
//! std's string conversions, stated over sequences of characters and bytes.
use crate::error::RespError;
use std::num::IntErrorKind;
use vstd::prelude::*;
use vstd::utf8::{decode_utf8, encode_utf8, valid_utf8};

verus! {

/// True when `c` is one of the ASCII digits `0` to `9`.
pub open spec fn is_digit(c: char) -> bool {
    '0' <= c && c <= '9'
}

/// True when every character of `s` is an ASCII digit.
pub open spec fn all_digits(s: Seq<char>) -> bool {
    forall|i: int| 0 <= i < s.len() ==> is_digit(#[trigger] s[i])
}

/// The number that a string of decimal digits denotes (0 for the empty string).
pub open spec fn digits_value(s: Seq<char>) -> nat
    decreases s.len(),
{
    if s.len() == 0 {
        0
    } else {
        digits_value(s.drop_last()) * 10 + ((s.last() as u32) - ('0' as u32)) as nat
    }
}

/// The integer that `s` denotes in the syntax of std's `FromStr` for signed
/// integers: an optional `+` or `-`, then one or more ASCII digits.
pub open spec fn signed_decimal(s: Seq<char>) -> Option<int> {
    if s.len() == 0 || (s.len() == 1 && (s[0] == '+' || s[0] == '-')) {
        None
    } else if s[0] == '-' {
        if all_digits(s.drop_first()) {
            Some(-(digits_value(s.drop_first()) as int))
        } else {
            None
        }
    } else if s[0] == '+' {
        if all_digits(s.drop_first()) {
            Some(digits_value(s.drop_first()) as int)
        } else {
            None
        }
    } else if all_digits(s) {
        Some(digits_value(s) as int)
    } else {
        None
    }
}

/// The integer that `s` denotes in the syntax of std's `FromStr` for
/// unsigned integers: an optional `+`, then one or more ASCII digits.
pub open spec fn unsigned_decimal(s: Seq<char>) -> Option<int> {
    if s.len() == 0 || (s.len() == 1 && s[0] == '+') {
        None
    } else if s[0] == '+' {
        if all_digits(s.drop_first()) {
            Some(digits_value(s.drop_first()) as int)
        } else {
            None
        }
    } else if all_digits(s) {
        Some(digits_value(s) as int)
    } else {
        None
    }
}

/// What `s.parse::<i64>()` gives: the value when the syntax is right and it
/// fits in an `i64`, else nothing.
pub open spec fn i64_from_decimal(s: Seq<char>) -> Option<i64> {
    match signed_decimal(s) {
        Some(n) => if i64::MIN <= n <= i64::MAX {
            Some(n as i64)
        } else {
            None
        },
        None => None,
    }
}

/// What `s.parse::<u64>()` gives: the value when the syntax is right and it
/// fits in a `u64`, else nothing.
pub open spec fn u64_from_decimal(s: Seq<char>) -> Option<u64> {
    match unsigned_decimal(s) {
        Some(n) => if n <= u64::MAX {
            Some(n as u64)
        } else {
            None
        },
        None => None,
    }
}

/// The number of digits at the start of `s`.
pub open spec fn leading_digits(s: Seq<char>) -> nat
    decreases s.len(),
{
    if s.len() == 0 || !is_digit(s[0]) {
        0
    } else {
        1 + leading_digits(s.drop_first())
    }
}

/// The kind of error that `s.parse::<u64>()` reports for text that holds a
/// character other than a digit after digits whose value is already more
/// than a `u64` holds: std's documentation leaves open which of the two
/// faults it names.
pub uninterp spec fn u64_mixed_error(s: Seq<char>) -> RespError;

/// The text after an optional leading `+` (a lone `+` is kept).
pub open spec fn unsigned_digits(s: Seq<char>) -> Seq<char> {
    if s.len() > 1 && s[0] == '+' {
        s.drop_first()
    } else {
        s
    }
}

/// True when `s` has both faults: a character that is not a digit, after
/// digits whose value is already more than a `u64` holds.
pub open spec fn u64_mixed_fault(s: Seq<char>) -> bool {
    let digits = unsigned_digits(s);
    s.len() > 0 && !all_digits(digits) && digits_value(digits.take(leading_digits(digits) as int))
        > u64::MAX
}

/// Why `s.parse::<u64>()` refuses `s`. The text is empty; or, after an
/// optional `+`, it is all digits and their value is too large; or the
/// digits before the first other character fit and a character is not a
/// digit; or else both faults are there, and the kind is `u64_mixed_error`.
pub open spec fn u64_parse_error(s: Seq<char>) -> RespError {
    let digits = unsigned_digits(s);
    if s.len() == 0 {
        RespError::ExpiryEmpty
    } else if all_digits(digits) {
        RespError::ExpiryTooLarge
    } else if u64_mixed_fault(s) {
        u64_mixed_error(s)
    } else {
        RespError::ExpiryInvalidDigit
    }
}

/// What `s.parse::<u64>()` gives, with the kind of its error.
pub open spec fn u64_parse(s: Seq<char>) -> Result<u64, RespError> {
    match u64_from_decimal(s) {
        Some(n) => Ok(n),
        None => Err(u64_parse_error(s)),
    }
}

/// The character of the decimal digit `d`.
pub open spec fn digit_char(d: nat) -> char
    recommends
        d < 10,
{
    (('0' as u32) + d) as char
}

/// The shortest decimal form of `n`, as std's `Display` writes it.
pub open spec fn decimal(n: nat) -> Seq<char>
    decreases n,
{
    if n < 10 {
        seq![digit_char(n)]
    } else {
        decimal(n / 10).push(digit_char(n % 10))
    }
}

/// The ASCII lower-case form of one character: `A` to `Z` become `a` to `z`,
/// every other character is kept.
pub open spec fn ascii_lower(c: char) -> char {
    if 'A' <= c && c <= 'Z' {
        ((c as u32) + 32) as char
    } else {
        c
    }
}

/// The ASCII lower-case form of a string, character by character.
pub open spec fn ascii_lowercase(s: Seq<char>) -> Seq<char> {
    s.map_values(|c: char| ascii_lower(c))
}

/// `str::parse::<i64>`, with the error dropped. The contract claims that the
/// result is the value of the optional sign and the digits when the text has
/// that syntax and the value fits, and `None` otherwise, as std's
/// documentation of `FromStr` for integers describes.
#[verifier::external_body]
pub(crate) fn parse_i64(s: &str) -> (r: Option<i64>)
    ensures
        r == i64_from_decimal(s@),
{
    s.parse::<i64>().ok()
}

/// `str::parse::<u64>`, with the kind of its error. The contract claims the
/// same as for `parse_i64`, where a `-` sign is not accepted, and of the
/// kind of the error what std's documentation of `IntErrorKind` settles:
/// `Empty` for empty text, `PosOverflow` for digits whose value is too
/// large, `InvalidDigit` for a character that is not a digit where the
/// value would fit. Text with both faults gets one of the two, named by
/// `u64_mixed_error`; which one is left unsaid.
#[verifier::external_body]
pub(crate) fn parse_u64(s: &str) -> (r: Result<u64, RespError>)
    ensures
        r == u64_parse(s@),
        r matches Err(e) ==> (u64_mixed_fault(s@) ==> e == u64_mixed_error(s@)),
        r matches Err(e) ==> (e == RespError::ExpiryEmpty || e == RespError::ExpiryTooLarge || e == RespError::ExpiryInvalidDigit),
{
    match s.parse::<u64>() {
        Ok(n) => Ok(n),
        Err(e) => match e.kind() {
            IntErrorKind::Empty => Err(RespError::ExpiryEmpty),
            IntErrorKind::PosOverflow => Err(RespError::ExpiryTooLarge),
            _ => Err(RespError::ExpiryInvalidDigit),
        },
    }
}

/// `usize::to_string`. The contract claims that std writes the shortest
/// decimal form of the number, with no sign.
#[verifier::external_body]
pub(crate) fn usize_to_decimal(n: usize) -> (r: String)
    ensures
        r@ == decimal(n as nat),
{
    n.to_string()
}

/// `str::to_ascii_lowercase`. The contract claims that each ASCII capital
/// letter is replaced by its small letter and every other character is kept.
#[verifier::external_body]
pub(crate) fn to_ascii_lowercase(s: &str) -> (r: String)
    ensures
        r@ == ascii_lowercase(s@),
{
    s.to_ascii_lowercase()
}

/// `String::from_utf8`, with the error dropped. The contract claims that it
/// succeeds exactly on well-formed UTF-8 and then holds the decoded text.
#[verifier::external_body]
pub(crate) fn utf8_to_string(bytes: Vec<u8>) -> (r: Option<String>)
    ensures
        r is Some <==> valid_utf8(bytes@),
        r matches Some(s) ==> s@ == decode_utf8(bytes@),
{
    String::from_utf8(bytes).ok()
}

/// The character of a decimal digit is that digit, and its code is the
/// digit's value above the code of `0`.
pub proof fn lemma_digit_char(d: nat)
    requires
        d < 10,
    ensures
        is_digit(digit_char(d)),
        (digit_char(d) as u32) == ('0' as u32) + d,
{
    assert((('0' as u32) + d) as char as u32 == ('0' as u32) + d);
}

/// The decimal form of a number is made of digits only, denotes the number,
/// and is never empty.
pub proof fn lemma_decimal(n: nat)
    ensures
        decimal(n).len() > 0,
        all_digits(decimal(n)),
        digits_value(decimal(n)) == n,
    decreases n,
{
    if n < 10 {
        lemma_digit_char(n);
        let d = decimal(n);
        assert(d.drop_last().len() == 0);
        assert(digits_value(d.drop_last()) == 0);
    } else {
        lemma_digit_char(n % 10);
        lemma_decimal(n / 10);
        let d = decimal(n);
        assert(d.drop_last() =~= decimal(n / 10));
        assert(d.last() == digit_char(n % 10));
        assert(n == (n / 10) * 10 + n % 10) by (nonlinear_arith);
    }
}

/// Reading the decimal form of a number that fits in an `i64` gives the
/// number back.
pub proof fn lemma_i64_decimal_roundtrip(n: nat)
    requires
        n <= i64::MAX,
    ensures
        i64_from_decimal(decimal(n)) == Some(n as i64),
{
    lemma_decimal(n);
    let d = decimal(n);
    assert(is_digit(d[0]));
}

/// The decimal form of a number is ASCII, so its UTF-8 bytes are its
/// characters one for one.
pub proof fn lemma_decimal_ascii(n: nat)
    ensures
        vstd::utf8::is_ascii_chars(decimal(n)),
{
    lemma_decimal(n);
    let d = decimal(n);
    assert forall|i: int| 0 <= i < d.len() implies '\0' <= #[trigger] d[i] <= '\u{7f}' by {
        assert(is_digit(d[i]));
    }
}

/// The UTF-8 encoding of a concatenation is the concatenation of the
/// encodings.
pub proof fn lemma_encode_utf8_concat(a: Seq<char>, b: Seq<char>)
    ensures
        encode_utf8(a + b) == encode_utf8(a) + encode_utf8(b),
    decreases a.len(),
{
    if a.len() == 0 {
        assert(a + b =~= b);
    } else {
        lemma_encode_utf8_concat(a.drop_first(), b);
        assert((a + b).drop_first() =~= a.drop_first() + b);
    }
}

} // verus!
