//! Small string helpers: decimal and lowercase-hex rendering of integers as
//! ASCII bytes, and conversion of ASCII bytes into a `String`.

use vstd::prelude::*;

verus! {

/// The characters whose code points are the given ASCII bytes.
pub open spec fn ascii_to_chars(bytes: Seq<u8>) -> Seq<char> {
    bytes.map_values(|b: u8| b as char)
}

/// The shortest decimal rendering of `n` as ASCII digit bytes.
pub open spec fn decimal_bytes(n: nat) -> Seq<u8>
    decreases n,
{
    if n < 10 {
        seq![(48 + n) as u8]
    } else {
        decimal_bytes(n / 10) + seq![(48 + n % 10) as u8]
    }
}

/// The ASCII byte of a single hex digit, lowercase.
pub open spec fn hex_digit_byte(d: nat) -> u8 {
    if d < 10 {
        (48 + d) as u8
    } else {
        (87 + d) as u8
    }
}

/// The shortest lowercase hexadecimal rendering of `n` as ASCII bytes.
pub open spec fn hex_bytes(n: nat) -> Seq<u8>
    decreases n,
{
    if n < 16 {
        seq![hex_digit_byte(n)]
    } else {
        hex_bytes(n / 16) + seq![hex_digit_byte(n % 16)]
    }
}

/// True when every byte is an ASCII code point.
pub open spec fn all_ascii(bytes: Seq<u8>) -> bool {
    forall|i: int| 0 <= i < bytes.len() ==> bytes[i] < 128
}

/// Relies on `String::from_utf8`: a sequence of ASCII bytes is valid UTF-8
/// and decodes to the characters with the same code points.
#[verifier::external_body]
pub fn ascii_bytes_to_string(v: Vec<u8>) -> (r: String)
    requires
        all_ascii(v@),
    ensures
        r@ == ascii_to_chars(v@),
{
    match String::from_utf8(v) {
        Ok(s) => s,
        Err(_) => String::new(),
    }
}

/// The decimal digit bytes of `n`, most significant first.
pub fn u32_to_decimal_bytes(n: u32) -> (r: Vec<u8>)
    ensures
        r@ == decimal_bytes(n as nat),
        all_ascii(r@),
    decreases n,
{
    if n < 10 {
        let mut v: Vec<u8> = Vec::new();
        v.push(48 + n as u8);
        v
    } else {
        let mut v = u32_to_decimal_bytes(n / 10);
        v.push(48 + (n % 10) as u8);
        v
    }
}

/// The lowercase hex digit bytes of `n`, most significant first.
pub fn u32_to_hex_bytes(n: u32) -> (r: Vec<u8>)
    ensures
        r@ == hex_bytes(n as nat),
        all_ascii(r@),
    decreases n,
{
    if n < 16 {
        let d = n as u8;
        let mut v: Vec<u8> = Vec::new();
        if d < 10 {
            v.push(48 + d);
        } else {
            v.push(87 + d);
        }
        v
    } else {
        let mut v = u32_to_hex_bytes(n / 16);
        let d = (n % 16) as u8;
        if d < 10 {
            v.push(48 + d);
        } else {
            v.push(87 + d);
        }
        v
    }
}

/// The decimal rendering of `n` as a string.
pub fn u32_to_decimal_string(n: u32) -> (r: String)
    ensures
        r@ == ascii_to_chars(decimal_bytes(n as nat)),
{
    ascii_bytes_to_string(u32_to_decimal_bytes(n))
}

/// The decimal rendering of `n` as a string.
pub fn u16_to_decimal_string(n: u16) -> (r: String)
    ensures
        r@ == ascii_to_chars(decimal_bytes(n as nat)),
{
    u32_to_decimal_string(n as u32)
}

} // verus!
