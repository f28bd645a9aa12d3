//! Character and digit vocabulary shared by the decoders and writers.
use vstd::prelude::*;

verus! {

/// `c` is an ASCII hexadecimal digit, either case.
pub open spec fn is_hex_digit(c: char) -> bool {
    ('0' <= c && c <= '9') || ('a' <= c && c <= 'f') || ('A' <= c && c <= 'F')
}

/// The value of an ASCII hexadecimal digit.
pub open spec fn hex_value(c: char) -> int {
    if '0' <= c && c <= '9' {
        c as int - '0' as int
    } else if 'a' <= c && c <= 'f' {
        c as int - 'a' as int + 10
    } else {
        c as int - 'A' as int + 10
    }
}

/// The lowercase hexadecimal digit for a nibble `0 <= n < 16`.
pub open spec fn lower_hex_char(n: int) -> char {
    if n < 10 {
        (n + '0' as int) as char
    } else {
        (n - 10 + 'a' as int) as char
    }
}

/// `c` is a lowercase-or-decimal hexadecimal digit.
pub open spec fn is_lower_hex_digit(c: char) -> bool {
    ('0' <= c && c <= '9') || ('a' <= c && c <= 'f')
}

/// The byte a pair of hex digits spells.
pub open spec fn pair_value(hi: char, lo: char) -> u8 {
    (hex_value(hi) * 16 + hex_value(lo)) as u8
}

pub proof fn lemma_lower_hex_char(n: int)
    requires
        0 <= n < 16,
    ensures
        is_hex_digit(lower_hex_char(n)),
        is_lower_hex_digit(lower_hex_char(n)),
        hex_value(lower_hex_char(n)) == n,
{
}

pub proof fn lemma_hex_value_range(c: char)
    requires
        is_hex_digit(c),
    ensures
        0 <= hex_value(c) < 16,
{
}

pub proof fn lemma_lower_digit_roundtrip(c: char)
    requires
        is_lower_hex_digit(c),
    ensures
        lower_hex_char(hex_value(c)) == c,
{
}

/// The lowercase hex digit of a nibble.
pub fn nibble_char(n: u8) -> (c: char)
    requires
        n < 16,
    ensures
        c == lower_hex_char(n as int),
{
    if n < 10 {
        (n + 48u8) as char
    } else {
        (n - 10 + 97u8) as char
    }
}

/// The value of one hex digit byte, or `None` when the byte is not one.
pub fn hex_digit_value(b: u8) -> (v: Option<u8>)
    ensures
        v is Some <==> is_hex_digit(b as char),
        v matches Some(x) ==> x as int == hex_value(b as char) && x < 16,
{
    if 48 <= b && b <= 57 {
        Some(b - 48)
    } else if 97 <= b && b <= 102 {
        Some(b - 87)
    } else if 65 <= b && b <= 70 {
        Some(b - 55)
    } else {
        None
    }
}

/// Appends one character to a string.
///
/// Calls std's `String::push`, which appends `c` at the end and changes
/// nothing else.
#[verifier::external_body]
pub(crate) fn push_char(s: &mut String, c: char)
    ensures
        final(s)@ == old(s)@.push(c),
{
    s.push(c)
}

} // verus!

verus! {

/// The decimal digit character for `0 <= d < 10`.
pub open spec fn digit_char(d: int) -> char {
    (d + '0' as int) as char
}

/// `n` in decimal, most significant digit first, with no leading zeros.
pub open spec fn decimal(n: nat) -> Seq<char>
    decreases n,
{
    if n < 10 {
        seq![digit_char(n as int)]
    } else {
        decimal(n / 10).push(digit_char((n % 10) as int))
    }
}

/// `n` in decimal with a leading `-` when negative: the `Display` form of
/// a Rust integer.
pub open spec fn signed_decimal(n: int) -> Seq<char> {
    if n < 0 {
        seq!['-'] + decimal((-n) as nat)
    } else {
        decimal(n as nat)
    }
}

/// Appends `n` in decimal.
pub fn push_decimal(s: &mut String, n: u64)
    ensures
        final(s)@ == old(s)@ + decimal(n as nat),
    decreases n,
{
    if n >= 10 {
        push_decimal(s, n / 10);
    }
    let d = (n % 10) as u8;
    push_char(s, (d + 48u8) as char);
    proof {
        if n >= 10 {
            assert(decimal(n as nat) == decimal((n / 10) as nat).push(digit_char((n % 10) as int)));
        }
    }
}

/// Appends a signed integer in decimal.
pub fn push_signed_decimal(s: &mut String, n: i64)
    ensures
        final(s)@ == old(s)@ + signed_decimal(n as int),
{
    if n < 0 {
        push_char(s, '-');
        let magnitude: u64 = if n == i64::MIN {
            9223372036854775808u64
        } else {
            (-n) as u64
        };
        push_decimal(s, magnitude);
    } else {
        push_decimal(s, n as u64);
    }
}

/// `n` in decimal, as a new string.
pub fn decimal_string(n: u64) -> (s: String)
    ensures
        s@ == decimal(n as nat),
{
    let mut s = String::new();
    push_decimal(&mut s, n);
    s
}

/// A signed integer in decimal, as a new string.
pub fn signed_decimal_string(n: i64) -> (s: String)
    ensures
        s@ == signed_decimal(n as int),
{
    let mut s = String::new();
    push_signed_decimal(&mut s, n);
    s
}

/// Appends a string slice.
pub fn push_str(s: &mut String, t: &str)
    ensures
        final(s)@ == old(s)@ + t@,
{
    vstd::string::StringExecFns::append(s, t);
}

} // verus!

verus! {

/// The text `String::from_utf8_lossy` makes of `bytes`: each maximal
/// invalid sequence becomes U+FFFD.
pub uninterp spec fn utf8_lossy(bytes: Seq<u8>) -> Seq<char>;

/// Decodes bytes as UTF-8, replacing invalid sequences.
///
/// Calls std's `String::from_utf8_lossy`. Its result is named
/// [`utf8_lossy`]; the contract adds only what std documents: valid UTF-8
/// comes back as exactly the text it encodes.
#[verifier::external_body]
pub(crate) fn lossy_string(bytes: &[u8]) -> (s: String)
    ensures
        s@ == utf8_lossy(bytes@),
        vstd::utf8::valid_utf8(bytes@) ==> s@ == vstd::utf8::decode_utf8(bytes@),
{
    String::from_utf8_lossy(bytes).into_owned()
}

} // verus!
