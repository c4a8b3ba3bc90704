//! Text and number conversions: UTF-8 decoding, case mapping, and decimal
//! numerals.

use core::str::Utf8Error;
use vstd::prelude::*;
use vstd::utf8::*;

verus! {

#[verifier::external_type_specification]
#[verifier::external_body]
pub struct ExUtf8Error(Utf8Error);

/// `core::str::from_utf8`: succeeds exactly on well-formed UTF-8, and then
/// yields the characters that the bytes encode.
pub assume_specification[ core::str::from_utf8 ](v: &[u8]) -> (r: Result<&str, Utf8Error>)
    ensures
        r is Ok <==> valid_utf8(v@),
        r matches Ok(s) ==> s@ == decode_utf8(v@),
;

/// What `str::to_lowercase` returns for a string: its lowercase equivalent as
/// the Unicode character tables define it.
pub uninterp spec fn unicode_lowercase(s: Seq<char>) -> Seq<char>;

/// What `str::to_uppercase` returns for a string: its uppercase equivalent as
/// the Unicode character tables define it.
pub uninterp spec fn unicode_uppercase(s: Seq<char>) -> Seq<char>;

/// An ASCII letter mapped to lower case; every other character unchanged.
pub open spec fn ascii_lower_char(c: char) -> char {
    if 'A' <= c <= 'Z' {
        ((c as u32) + 32) as char
    } else {
        c
    }
}

/// An ASCII letter mapped to upper case; every other character unchanged.
pub open spec fn ascii_upper_char(c: char) -> char {
    if 'a' <= c <= 'z' {
        ((c as u32) - 32) as char
    } else {
        c
    }
}

/// The lowercase equivalent of `s`. On ASCII text the Unicode mapping is the
/// ASCII one: `A`..`Z` become `a`..`z`, and nothing else changes.
pub open spec fn lowercase(s: Seq<char>) -> Seq<char> {
    if is_ascii_chars(s) {
        s.map_values(|c: char| ascii_lower_char(c))
    } else {
        unicode_lowercase(s)
    }
}

/// The uppercase equivalent of `s`. On ASCII text the Unicode mapping is the
/// ASCII one: `a`..`z` become `A`..`Z`, and nothing else changes.
pub open spec fn uppercase(s: Seq<char>) -> Seq<char> {
    if is_ascii_chars(s) {
        s.map_values(|c: char| ascii_upper_char(c))
    } else {
        unicode_uppercase(s)
    }
}

/// `str::to_lowercase`: the Unicode lowercase equivalent, which on ASCII text
/// is the ASCII one.
pub assume_specification[ str::to_lowercase ](s: &str) -> (r: String)
    ensures
        r@ == lowercase(s@),
        !is_ascii_chars(s@) ==> r@ == unicode_lowercase(s@),
;

/// `str::to_uppercase`: the Unicode uppercase equivalent, which on ASCII text
/// is the ASCII one.
pub assume_specification[ str::to_uppercase ](s: &str) -> (r: String)
    ensures
        r@ == uppercase(s@),
        !is_ascii_chars(s@) ==> r@ == unicode_uppercase(s@),
;

/// Compares two strings character by character.
pub fn str_eq(a: &str, b: &str) -> (r: bool)
    ensures
        r == (a@ == b@),
{
    let x = a.as_bytes();
    let y = b.as_bytes();
    proof {
        broadcast use encode_utf8_decode_utf8;
        assert(x@ == encode_utf8(a@));
        assert(y@ == encode_utf8(b@));
    }
    if x.len() != y.len() {
        return false;
    }
    let mut i: usize = 0;
    while i < x.len()
        invariant
            x.len() == y.len(),
            0 <= i <= x.len(),
            forall|j: int| 0 <= j < i ==> x@[j] == y@[j],
            x@ == encode_utf8(a@),
            y@ == encode_utf8(b@),
        decreases x.len() - i,
    {
        if x[i] != y[i] {
            return false;
        }
        i = i + 1;
    }
    proof {
        broadcast use encode_utf8_decode_utf8;
        assert(x@ =~= y@);
        assert(decode_utf8(encode_utf8(a@)) == a@);
        assert(decode_utf8(encode_utf8(b@)) == b@);
    }
    true
}

/// An ASCII decimal digit.
pub open spec fn is_digit(b: u8) -> bool {
    0x30 <= b <= 0x39
}

/// How many ASCII digits `s` starts with.
pub open spec fn digit_prefix_len(s: Seq<u8>) -> nat
    decreases s.len(),
{
    if s.len() > 0 && is_digit(s[0]) {
        1 + digit_prefix_len(s.drop_first())
    } else {
        0
    }
}

/// The number that a sequence of ASCII digits denotes in base 10.
pub open spec fn digits_value(d: Seq<u8>) -> nat
    decreases d.len(),
{
    if d.len() == 0 {
        0
    } else {
        digits_value(d.drop_last()) * 10 + (d.last() - 0x30) as nat
    }
}

/// What `atoi::atoi::<u64>` returns: an optional leading `+` or `-`, then the
/// longest run of digits; whatever follows is ignored. Without a sign at least
/// one digit is needed. Under `-` only a run of zeros (or no digit) gives a
/// value, namely 0; under `+` or no sign, the run's value, when it fits in a
/// `u64`.
pub open spec fn atoi_u64(s: Seq<u8>) -> Option<u64> {
    let signed = s.len() > 0 && (s[0] == 0x2b || s[0] == 0x2d);
    let rest = if signed { s.drop_first() } else { s };
    let digits = rest.take(digit_prefix_len(rest) as int);
    if !signed && digits.len() == 0 {
        None
    } else if signed && s[0] == 0x2d {
        if digits_value(digits) == 0 { Some(0) } else { None }
    } else if digits_value(digits) <= u64::MAX {
        Some(digits_value(digits) as u64)
    } else {
        None
    }
}

/// `atoi::atoi::<u64>`: parses a decimal number at the start of `text`, as
/// `atoi_u64` describes.
#[verifier::external_body]
pub fn parse_u64_prefix(text: &[u8]) -> (r: Option<u64>)
    ensures
        r == atoi_u64(text@),
{
    atoi::atoi::<u64>(text)
}

/// The decimal numeral of `n`, without sign or leading zeros.
pub open spec fn decimal(n: nat) -> Seq<u8>
    decreases n,
{
    if n < 10 {
        seq![(0x30 + n) as u8]
    } else {
        decimal(n / 10).push((0x30 + n % 10) as u8)
    }
}

/// Appends the decimal numeral of `n` to `out`.
pub fn push_decimal(n: u64, out: &mut Vec<u8>)
    ensures
        final(out)@ == old(out)@ + decimal(n as nat),
    decreases n,
{
    if n >= 10 {
        push_decimal(n / 10, out);
    }
    out.push(0x30 + (n % 10) as u8);
    proof {
        assert(out@ =~= old(out)@ + decimal(n as nat));
    }
}

/// The decimal numeral of `n` as bytes.
pub fn decimal_bytes(n: u64) -> (r: Vec<u8>)
    ensures
        r@ == decimal(n as nat),
{
    let mut out: Vec<u8> = Vec::new();
    push_decimal(n, &mut out);
    proof {
        assert(out@ =~= decimal(n as nat));
    }
    out
}

/// A numeral holds only digits and is never empty.
pub proof fn lemma_decimal_digits(n: nat)
    ensures
        decimal(n).len() >= 1,
        forall|i: int| 0 <= i < decimal(n).len() ==> is_digit(#[trigger] decimal(n)[i]),
        digits_value(decimal(n)) == n,
    decreases n,
{
    let last = (0x30 + n % 10) as u8;
    assert(last as nat == 0x30 + n % 10);
    if n >= 10 {
        lemma_decimal_digits(n / 10);
        assert(decimal(n).drop_last() =~= decimal(n / 10));
        assert(decimal(n).last() == last);
        assert(n / 10 * 10 + n % 10 == n);
        assert(digits_value(decimal(n)) == digits_value(decimal(n / 10)) * 10 + (last - 0x30) as nat);
    } else {
        assert(decimal(n).drop_last() =~= Seq::<u8>::empty());
        assert(decimal(n).last() == last);
        assert(digits_value(decimal(n)) == digits_value(Seq::<u8>::empty()) * 10 + (last - 0x30) as nat);
    }
}

/// The digit prefix of a run of digits followed by something that does not
/// start with a digit is that run.
pub proof fn lemma_digit_prefix_of_run(d: Seq<u8>, t: Seq<u8>)
    requires
        forall|i: int| 0 <= i < d.len() ==> is_digit(#[trigger] d[i]),
        t.len() == 0 || !is_digit(t[0]),
    ensures
        digit_prefix_len(d + t) == d.len(),
    decreases d.len(),
{
    if d.len() > 0 {
        assert((d + t).drop_first() =~= d.drop_first() + t);
        lemma_digit_prefix_of_run(d.drop_first(), t);
    } else {
        assert(d + t =~= t);
    }
}

/// A decimal numeral, followed by anything that does not start with a digit,
/// parses back to its number.
pub proof fn lemma_atoi_decimal(n: u64, t: Seq<u8>)
    requires
        t.len() == 0 || !is_digit(t[0]),
    ensures
        atoi_u64(decimal(n as nat) + t) == Some(n),
{
    let d = decimal(n as nat);
    lemma_decimal_digits(n as nat);
    lemma_digit_prefix_of_run(d, t);
    assert(is_digit(d[0]));
    assert((d + t)[0] == d[0]);
    assert((d + t).take(d.len() as int) =~= d);
}

} // verus!
