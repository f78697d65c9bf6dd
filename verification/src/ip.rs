//! Presentation forms of IP addresses: dotted-quad IPv4 and canonical IPv6
//! (lowercase hex groups, the longest zero run of two or more groups
//! compressed to `::`, leftmost on a tie, and the IPv4-mapped prefix shown
//! in mixed notation). A records and AAAA records carry their addresses in
//! these forms.

use vstd::prelude::*;

use crate::cursor::be16;
use crate::strutil::{
    all_ascii, ascii_bytes_to_string, ascii_to_chars, decimal_bytes, hex_bytes, hex_digit_byte,
    u32_to_decimal_bytes, u32_to_hex_bytes,
};

verus! {

broadcast use vstd::string::group_string_axioms;

/// The index of the first occurrence of `sep` in `s`, or `s.len()`.
pub open spec fn first_sep(s: Seq<char>, sep: char) -> int
    decreases s.len(),
{
    if s.len() == 0 {
        0
    } else if s[0] == sep {
        0
    } else {
        1 + first_sep(s.drop_first(), sep)
    }
}

/// `first_sep` is the unique position holding `sep` with none before it (or
/// the length, when `sep` does not occur).
pub proof fn lemma_first_sep_at(s: Seq<char>, sep: char, j: int)
    requires
        0 <= j <= s.len(),
        forall|k: int| 0 <= k < j ==> s[k] != sep,
        j < s.len() ==> s[j] == sep,
    ensures
        first_sep(s, sep) == j,
    decreases j,
{
    if s.len() == 0 {
    } else if j == 0 {
    } else {
        let t = s.drop_first();
        assert forall|k: int| 0 <= k < j - 1 implies t[k] != sep by {
            assert(t[k] == s[k + 1]);
        }
        if j - 1 < t.len() {
            assert(t[j - 1] == s[j]);
        }
        lemma_first_sep_at(t, sep, j - 1);
    }
}

/// The index of the first occurrence of the ASCII byte `sep` in `s`, or the
/// length of `s`.
#[verifier::loop_isolation(false)]
fn find_first_sep(s: &str, sep: u8) -> (j: usize)
    requires
        s.is_ascii(),
        sep < 128,
    ensures
        j == first_sep(s@, sep as char),
        j <= s@.len(),
{
    let n = s.unicode_len();
    let mut j: usize = 0;
    while j < n
        invariant
            j <= n,
            forall|k: int| 0 <= k < j ==> s@[k] != sep as char,
        decreases n - j,
    {
        let c = s.get_ascii(j);
        if c == sep {
            proof {
                assert(s@[j as int] as u8 == sep);
                assert('\0' <= s@[j as int] <= '\u{7f}');
                assert(s@[j as int] == sep as char);
                lemma_first_sep_at(s@, sep as char, j as int);
            }
            return j;
        }
        proof {
            assert(s@[j as int] as u8 != sep);
            assert(s@[j as int] != sep as char);
        }
        j = j + 1;
    }
    proof {
        lemma_first_sep_at(s@, sep as char, n as int);
    }
    j
}

/// A decimal digit.
pub open spec fn is_digit(c: char) -> bool {
    '0' <= c <= '9'
}

/// The value of a decimal digit.
pub open spec fn digit_val(c: char) -> int {
    c as u8 - 48
}

/// The value of a one-, two- or three-digit decimal string (or -1 for other
/// lengths).
pub open spec fn octet_val(s: Seq<char>) -> int {
    if s.len() == 1 {
        digit_val(s[0])
    } else if s.len() == 2 {
        10 * digit_val(s[0]) + digit_val(s[1])
    } else if s.len() == 3 {
        100 * digit_val(s[0]) + 10 * digit_val(s[1]) + digit_val(s[2])
    } else {
        -1
    }
}

/// A valid IPv4 octet in presentation form: one to three digits, no leading
/// zero, value at most 255.
pub open spec fn valid_octet_str(s: Seq<char>) -> bool {
    &&& 1 <= s.len() <= 3
    &&& forall|i: int| 0 <= i < s.len() ==> is_digit(#[trigger] s[i])
    &&& (s.len() > 1 ==> s[0] != '0')
    &&& octet_val(s) <= 255
}

/// The octet values of a `'.'`-separated list of valid octet strings.
pub open spec fn spec_parse_dotted(s: Seq<char>) -> Option<Seq<u8>>
    decreases s.len(),
{
    let i = first_sep(s, '.');
    if 0 <= i < s.len() {
        if valid_octet_str(s.take(i)) {
            match spec_parse_dotted(s.skip(i + 1)) {
                Some(v) => Some(seq![octet_val(s.take(i)) as u8] + v),
                None => None,
            }
        } else {
            None
        }
    } else {
        if valid_octet_str(s) {
            Some(seq![octet_val(s) as u8])
        } else {
            None
        }
    }
}

/// The four octets of an IPv4 address in dotted-quad form, if `s` is one.
pub open spec fn spec_parse_ipv4(s: Seq<char>) -> Option<(u8, u8, u8, u8)> {
    if !vstd::utf8::is_ascii_chars(s) {
        None
    } else {
        match spec_parse_dotted(s) {
            Some(v) => if v.len() == 4 {
                Some((v[0], v[1], v[2], v[3]))
            } else {
                None
            },
            None => None,
        }
    }
}

/// The ASCII bytes of the dotted-quad presentation of four octets.
pub open spec fn ipv4_bytes(a: u8, b: u8, c: u8, d: u8) -> Seq<u8> {
    decimal_bytes(a as nat) + seq![46u8] + decimal_bytes(b as nat) + seq![46u8] + decimal_bytes(
        c as nat,
    ) + seq![46u8] + decimal_bytes(d as nat)
}

/// The dotted-quad presentation of four octets.
pub open spec fn ipv4_chars(a: u8, b: u8, c: u8, d: u8) -> Seq<char> {
    ascii_to_chars(ipv4_bytes(a, b, c, d))
}

/// Parse one IPv4 octet: at most three digits, no leading zero, at most 255.
fn parse_octet(s: &str) -> (r: Option<u8>)
    requires
        s.is_ascii(),
    ensures
        match r {
            Some(v) => valid_octet_str(s@) && v == octet_val(s@),
            None => !valid_octet_str(s@),
        },
{
    let n = s.unicode_len();
    if n == 0 || n > 3 {
        return None;
    }
    let mut value: u32 = 0;
    let mut i: usize = 0;
    while i < n
        invariant
            s.is_ascii(),
            n == s@.len(),
            1 <= n <= 3,
            i <= n,
            forall|k: int| 0 <= k < i ==> is_digit(#[trigger] s@[k]),
            value == if i == 0 {
                0int
            } else if i == 1 {
                digit_val(s@[0])
            } else if i == 2 {
                10 * digit_val(s@[0]) + digit_val(s@[1])
            } else {
                100 * digit_val(s@[0]) + 10 * digit_val(s@[1]) + digit_val(s@[2])
            },
        decreases n - i,
    {
        let c = s.get_ascii(i);
        if c < 48 || c > 57 {
            proof {
                assert(s@[i as int] as u8 == c);
                assert(!is_digit(s@[i as int]));
            }
            return None;
        }
        proof {
            assert(s@[i as int] as u8 == c);
            assert('\0' <= s@[i as int] <= '\u{7f}');
            assert(is_digit(s@[i as int]));
            assert(digit_val(s@[i as int]) == c - 48);
        }
        value = value * 10 + (c - 48) as u32;
        i = i + 1;
    }
    if n > 1 {
        let c0 = s.get_ascii(0);
        if c0 == 48 {
            proof {
                assert(s@[0] == '0');
            }
            return None;
        }
        proof {
            assert(s@[0] != '0');
        }
    }
    if value > 255 {
        return None;
    }
    proof {
        assert(valid_octet_str(s@));
    }
    Some(value as u8)
}

/// Parse a `'.'`-separated octet list, as `spec_parse_dotted` describes.
fn parse_dotted(s: &str) -> (r: Option<Vec<u8>>)
    requires
        s.is_ascii(),
    ensures
        match r {
            Some(v) => spec_parse_dotted(s@) == Some(v@),
            None => spec_parse_dotted(s@) is None,
        },
    decreases s@.len(),
{
    let n = s.unicode_len();
    let j = find_first_sep(s, 46);
    if j < n {
        let head = s.substring_ascii(0, j);
        proof {
            assert(head@ =~= s@.take(j as int));
        }
        let octet = match parse_octet(head) {
            Some(v) => v,
            None => {
                return None;
            },
        };
        let rest = s.substring_ascii(j + 1, n);
        proof {
            assert(rest@ =~= s@.skip(j + 1));
        }
        let mut tail = match parse_dotted(rest) {
            Some(v) => v,
            None => {
                return None;
            },
        };
        let ghost tail0 = tail@;
        let mut v: Vec<u8> = Vec::new();
        v.push(octet);
        v.append(&mut tail);
        proof {
            assert(v@ =~= seq![octet_val(s@.take(j as int)) as u8] + tail0);
        }
        Some(v)
    } else {
        let octet = match parse_octet(s) {
            Some(v) => v,
            None => {
                return None;
            },
        };
        let mut v: Vec<u8> = Vec::new();
        v.push(octet);
        proof {
            assert(v@ =~= seq![octet_val(s@) as u8]);
        }
        Some(v)
    }
}

/// Parse an IPv4 address in dotted-quad presentation form.
pub fn parse_ipv4(s: &str) -> (r: Option<(u8, u8, u8, u8)>)
    ensures
        r == spec_parse_ipv4(s@),
{
    if !s.is_ascii() {
        return None;
    }
    let v = match parse_dotted(s) {
        Some(v) => v,
        None => {
            return None;
        },
    };
    if v.len() == 4 {
        Some((v[0], v[1], v[2], v[3]))
    } else {
        None
    }
}

/// The dotted-quad ASCII bytes of four octets.
fn ipv4_bytes_exec(a: u8, b: u8, c: u8, d: u8) -> (r: Vec<u8>)
    ensures
        r@ == ipv4_bytes(a, b, c, d),
        all_ascii(r@),
{
    let mut bytes = u32_to_decimal_bytes(a as u32);
    bytes.push(46);
    let mut bb = u32_to_decimal_bytes(b as u32);
    bytes.append(&mut bb);
    bytes.push(46);
    let mut cb = u32_to_decimal_bytes(c as u32);
    bytes.append(&mut cb);
    bytes.push(46);
    let mut db = u32_to_decimal_bytes(d as u32);
    bytes.append(&mut db);
    proof {
        assert(bytes@ =~= ipv4_bytes(a, b, c, d));
    }
    bytes
}

/// Format four octets as a dotted quad.
pub fn format_ipv4(a: u8, b: u8, c: u8, d: u8) -> (r: String)
    ensures
        r@ == ipv4_chars(a, b, c, d),
{
    ascii_bytes_to_string(ipv4_bytes_exec(a, b, c, d))
}

/// The decimal rendering of an octet is a valid octet string holding the
/// same value, and contains no dot.
proof fn lemma_decimal_octet_props(n: nat)
    requires
        n <= 255,
    ensures
        ({
            let cs = ascii_to_chars(decimal_bytes(n));
            &&& 1 <= cs.len() <= 3
            &&& valid_octet_str(cs)
            &&& octet_val(cs) == n
            &&& forall|k: int| 0 <= k < cs.len() ==> #[trigger] cs[k] != '.'
        }),
{
    let db = decimal_bytes(n);
    let cs = ascii_to_chars(db);
    if n < 10 {
        assert(db =~= seq![(48 + n) as u8]);
        assert(cs[0] == ((48 + n) as u8) as char);
    } else if n < 100 {
        assert(decimal_bytes(n / 10) =~= seq![(48 + n / 10) as u8]);
        assert(db =~= seq![(48 + n / 10) as u8, (48 + n % 10) as u8]);
        assert(1 <= n / 10 <= 9);
        assert(cs[0] == ((48 + n / 10) as u8) as char);
        assert(cs[1] == ((48 + n % 10) as u8) as char);
        assert(10 * digit_val(cs[0]) + digit_val(cs[1]) == n);
    } else {
        assert(10 <= n / 10 <= 25);
        assert(n / 10 / 10 == n / 100);
        assert(1 <= n / 100 <= 2);
        assert(decimal_bytes(n / 100) =~= seq![(48 + n / 100) as u8]);
        assert(decimal_bytes(n / 10) =~= seq![(48 + n / 100) as u8, (48 + (n / 10) % 10) as u8]);
        assert(db =~= seq![
            (48 + n / 100) as u8,
            (48 + (n / 10) % 10) as u8,
            (48 + n % 10) as u8,
        ]);
        assert(cs[0] == ((48 + n / 100) as u8) as char);
        assert(cs[1] == ((48 + (n / 10) % 10) as u8) as char);
        assert(cs[2] == ((48 + n % 10) as u8) as char);
        assert(n == 100 * (n / 100) + 10 * ((n / 10) % 10) + n % 10) by {
            assert(n == 10 * (n / 10) + n % 10);
            assert(n / 10 == 10 * (n / 10 / 10) + (n / 10) % 10);
        }
        assert(100 * digit_val(cs[0]) + 10 * digit_val(cs[1]) + digit_val(cs[2]) == n);
    }
}

/// One step of parsing a dotted list whose head is a valid dot-free octet
/// string.
proof fn lemma_parse_dotted_step(head: Seq<char>, rest: Seq<char>)
    requires
        valid_octet_str(head),
        forall|k: int| 0 <= k < head.len() ==> #[trigger] head[k] != '.',
    ensures
        spec_parse_dotted(head + seq!['.'] + rest) == (match spec_parse_dotted(rest) {
            Some(v) => Some(seq![octet_val(head) as u8] + v),
            None => None::<Seq<u8>>,
        }),
{
    let s = head + seq!['.'] + rest;
    assert forall|k: int| 0 <= k < head.len() implies s[k] != '.' by {
        assert(s[k] == head[k]);
    }
    assert(s[head.len() as int] == '.');
    lemma_first_sep_at(s, '.', head.len() as int);
    assert(s.take(head.len() as int) =~= head);
    assert(s.skip(head.len() as int + 1) =~= rest);
}

/// A dotted quad parses to its four octets; its characters are ASCII
/// digits and dots, at least seven of them.
#[verifier::rlimit(60)]
proof fn lemma_parse_dotted_quad(a: u8, b: u8, c: u8, d: u8)
    ensures
        ({
            let s = ipv4_chars(a, b, c, d);
            &&& spec_parse_dotted(s) == Some(seq![a, b, c, d])
            &&& vstd::utf8::is_ascii_chars(s)
            &&& s.len() >= 7
            &&& forall|k: int| 0 <= k < s.len() ==> #[trigger] s[k] != ':'
        }),
{
    let ca = ascii_to_chars(decimal_bytes(a as nat));
    let cb = ascii_to_chars(decimal_bytes(b as nat));
    let cc = ascii_to_chars(decimal_bytes(c as nat));
    let cd = ascii_to_chars(decimal_bytes(d as nat));
    lemma_decimal_octet_props(a as nat);
    lemma_decimal_octet_props(b as nat);
    lemma_decimal_octet_props(c as nat);
    lemma_decimal_octet_props(d as nat);
    let s = ipv4_chars(a, b, c, d);
    assert(s =~= ca + seq!['.'] + (cb + seq!['.'] + (cc + seq!['.'] + cd)));
    assert forall|k: int| 0 <= k < s.len() implies ('\0' <= #[trigger] s[k] <= '\u{7f}' && s[k]
        != ':') by {
        assert(s[k] == ascii_to_chars(ipv4_bytes(a, b, c, d))[k]);
        assert(s[k] == ipv4_bytes(a, b, c, d)[k] as char);
        assert(ipv4_bytes(a, b, c, d)[k] < 128 && ipv4_bytes(a, b, c, d)[k] != 58) by {
            lemma_decimal_bytes_digits(a as nat);
            lemma_decimal_bytes_digits(b as nat);
            lemma_decimal_bytes_digits(c as nat);
            lemma_decimal_bytes_digits(d as nat);
        }
    }
    lemma_parse_dotted_step(ca, cb + seq!['.'] + (cc + seq!['.'] + cd));
    lemma_parse_dotted_step(cb, cc + seq!['.'] + cd);
    lemma_parse_dotted_step(cc, cd);
    assert(first_sep(cd, '.') == cd.len()) by {
        lemma_first_sep_at(cd, '.', cd.len() as int);
    }
    assert(spec_parse_dotted(cd) == Some(seq![octet_val(cd) as u8]));
    let v = spec_parse_dotted(s).unwrap();
    assert(v =~= seq![a, b, c, d]);
}

/// Formatting four octets as a dotted quad and parsing the result yields
/// the same octets: the IPv4 presentation form round-trips.
pub proof fn lemma_ipv4_round_trip(a: u8, b: u8, c: u8, d: u8)
    ensures
        spec_parse_ipv4(ipv4_chars(a, b, c, d)) == Some((a, b, c, d)),
{
    lemma_parse_dotted_quad(a, b, c, d);
    let v = spec_parse_dotted(ipv4_chars(a, b, c, d)).unwrap();
    assert(v =~= seq![a, b, c, d]);
}

/// Decimal digit bytes lie in the ASCII digit range.
proof fn lemma_decimal_bytes_digits(n: nat)
    ensures
        forall|k: int|
            0 <= k < decimal_bytes(n).len() ==> 48 <= #[trigger] decimal_bytes(n)[k] <= 57,
    decreases n,
{
    if n >= 10 {
        lemma_decimal_bytes_digits(n / 10);
        assert(decimal_bytes(n) =~= decimal_bytes(n / 10) + seq![(48 + n % 10) as u8]);
    }
}

// ---------------------------------------------------------------------------
// IPv6
// ---------------------------------------------------------------------------
/// A hexadecimal digit, either case.
pub open spec fn is_hex_digit(c: char) -> bool {
    ('0' <= c <= '9') || ('a' <= c <= 'f') || ('A' <= c <= 'F')
}

/// The value of a hexadecimal digit.
pub open spec fn hex_val(c: char) -> int {
    if '0' <= c <= '9' {
        c as u8 - 48
    } else if 'a' <= c <= 'f' {
        c as u8 - 87
    } else {
        c as u8 - 55
    }
}

/// The value of a hex-digit string, most significant digit first.
pub open spec fn hex_group_val(s: Seq<char>) -> int
    decreases s.len(),
{
    if s.len() == 0 {
        0
    } else {
        16 * hex_group_val(s.drop_last()) + hex_val(s.last())
    }
}

/// A valid IPv6 group in presentation form: one to four hex digits.
pub open spec fn valid_hex_group(s: Seq<char>) -> bool {
    1 <= s.len() <= 4 && forall|i: int| 0 <= i < s.len() ==> is_hex_digit(#[trigger] s[i])
}

/// A hex-digit string of length at most 4 has a 16-bit value.
proof fn lemma_hex_group_val_bound(s: Seq<char>)
    requires
        forall|i: int| 0 <= i < s.len() ==> is_hex_digit(#[trigger] s[i]),
    ensures
        0 <= hex_group_val(s),
        s.len() <= 1 ==> hex_group_val(s) < 0x10,
        s.len() <= 2 ==> hex_group_val(s) < 0x100,
        s.len() <= 3 ==> hex_group_val(s) < 0x1000,
        s.len() <= 4 ==> hex_group_val(s) < 0x10000,
    decreases s.len(),
{
    if s.len() > 0 {
        assert(is_hex_digit(s.last()));
        assert(0 <= hex_val(s.last()) < 16);
        assert(forall|i: int|
            0 <= i < s.drop_last().len() ==> is_hex_digit(#[trigger] s.drop_last()[i]));
        lemma_hex_group_val_bound(s.drop_last());
    }
}

/// The index of the first `"::"` in `s`, or `s.len()` if there is none.
pub open spec fn first_dcolon(s: Seq<char>) -> int
    decreases s.len(),
{
    if s.len() < 2 {
        s.len() as int
    } else if s[0] == ':' && s[1] == ':' {
        0
    } else {
        1 + first_dcolon(s.drop_first())
    }
}

/// `first_dcolon` is the unique position of a `"::"` with none before it
/// (or the length, when none occurs).
proof fn lemma_first_dcolon_at(s: Seq<char>, j: int)
    requires
        0 <= j <= s.len(),
        forall|k: int| 0 <= k < j && k + 1 < s.len() ==> !(#[trigger] s[k] == ':' && s[k + 1] == ':'),
        j < s.len() ==> j + 1 < s.len() && s[j] == ':' && s[j + 1] == ':',
    ensures
        first_dcolon(s) == j,
    decreases j,
{
    if s.len() < 2 {
    } else if j == 0 {
    } else {
        assert(!(s[0] == ':' && s[1] == ':'));
        let t = s.drop_first();
        assert forall|k: int| 0 <= k < j - 1 && k + 1 < t.len() implies !(#[trigger] t[k] == ':'
            && t[k + 1] == ':') by {
            assert(t[k] == s[k + 1] && t[k + 1] == s[k + 2]);
        }
        if j - 1 < t.len() {
            assert(t[j - 1] == s[j] && t[j] == s[j + 1]);
        }
        lemma_first_dcolon_at(t, j - 1);
    }
}

/// The index of the first `"::"` in an ASCII string, or its length.
#[verifier::loop_isolation(false)]
fn find_first_dcolon(s: &str) -> (j: usize)
    requires
        s.is_ascii(),
    ensures
        j == first_dcolon(s@),
        j <= s@.len(),
        j < s@.len() ==> j + 1 < s@.len() && s@[j as int] == ':' && s@[j + 1] == ':',
{
    let n = s.unicode_len();
    let mut j: usize = 0;
    while j < n && j + 1 < n
        invariant
            j <= n,
            forall|k: int| 0 <= k < j && k + 1 < n ==> !(#[trigger] s@[k] == ':' && s@[k + 1] == ':'),
        decreases n - j,
    {
        let c0 = s.get_ascii(j);
        let c1 = s.get_ascii(j + 1);
        if c0 == 58 && c1 == 58 {
            proof {
                assert(s@[j as int] as u8 == 58 && s@[j + 1] as u8 == 58);
                assert(s@[j as int] == ':' && s@[j + 1] == ':');
                lemma_first_dcolon_at(s@, j as int);
            }
            return j;
        }
        proof {
            assert(!(s@[j as int] == ':' && s@[j + 1] == ':'));
        }
        j = j + 1;
    }
    proof {
        lemma_first_dcolon_at(s@, n as int);
    }
    n
}

/// The group values of a `':'`-separated list of hex groups; when `v4_ok`
/// is set, the final element may instead be an IPv4 dotted quad, which
/// stands for two groups.
pub open spec fn spec_parse_groups(s: Seq<char>, v4_ok: bool) -> Option<Seq<u16>>
    decreases s.len(),
{
    let i = first_sep(s, ':');
    if 0 <= i < s.len() {
        if valid_hex_group(s.take(i)) {
            match spec_parse_groups(s.skip(i + 1), v4_ok) {
                Some(g) => Some(seq![hex_group_val(s.take(i)) as u16] + g),
                None => None,
            }
        } else {
            None
        }
    } else {
        if valid_hex_group(s) {
            Some(seq![hex_group_val(s) as u16])
        } else if v4_ok {
            match spec_parse_dotted(s) {
                Some(v) => if v.len() == 4 {
                    Some(seq![be16(v[0], v[1]), be16(v[2], v[3])])
                } else {
                    None
                },
                None => None,
            }
        } else {
            None
        }
    }
}

/// `n` zero groups.
pub open spec fn zero_groups(n: int) -> Seq<u16> {
    Seq::new(n as nat, |i: int| 0u16)
}

/// The big-endian bytes of a group sequence.
pub open spec fn groups_to_bytes(g: Seq<u16>) -> Seq<u8>
    decreases g.len(),
{
    if g.len() == 0 {
        Seq::empty()
    } else {
        seq![(g[0] / 256) as u8, (g[0] % 256) as u8] + groups_to_bytes(g.drop_first())
    }
}

/// Appending a group appends its two bytes.
proof fn lemma_groups_to_bytes_push(g: Seq<u16>, x: u16)
    ensures
        groups_to_bytes(g.push(x)) == groups_to_bytes(g) + seq![(x / 256) as u8, (x % 256) as u8],
    decreases g.len(),
{
    if g.len() == 0 {
        assert(g.push(x) =~= seq![x]);
        assert(g.push(x).drop_first() =~= Seq::<u16>::empty());
        assert(groups_to_bytes(Seq::<u16>::empty()) == Seq::<u8>::empty());
        assert(groups_to_bytes(g.push(x)) =~= groups_to_bytes(g) + seq![
            (x / 256) as u8,
            (x % 256) as u8,
        ]);
    } else {
        assert(g.push(x).drop_first() =~= g.drop_first().push(x));
        lemma_groups_to_bytes_push(g.drop_first(), x);
        assert(groups_to_bytes(g.push(x)) =~= groups_to_bytes(g) + seq![
            (x / 256) as u8,
            (x % 256) as u8,
        ]);
    }
}

/// A group sequence encodes to twice as many bytes.
proof fn lemma_groups_to_bytes_len(g: Seq<u16>)
    ensures
        groups_to_bytes(g).len() == 2 * g.len(),
    decreases g.len(),
{
    if g.len() > 0 {
        lemma_groups_to_bytes_len(g.drop_first());
    }
}

/// The sixteen bytes of an IPv6 address in presentation form, if `s` is
/// one: hex groups separated by single colons, at most one `"::"` standing
/// for the missing zero groups, and optionally a trailing dotted quad in
/// place of the last two groups.
pub open spec fn spec_parse_ipv6(s: Seq<char>) -> Option<Seq<u8>> {
    if !vstd::utf8::is_ascii_chars(s) {
        None
    } else {
        let i = first_dcolon(s);
        if i >= s.len() {
            match spec_parse_groups(s, true) {
                Some(g) => if g.len() == 8 {
                    Some(groups_to_bytes(g))
                } else {
                    None
                },
                None => None,
            }
        } else {
            let front = s.take(i);
            let back = s.skip(i + 2);
            let fg = if front.len() == 0 {
                Some(Seq::<u16>::empty())
            } else {
                spec_parse_groups(front, false)
            };
            let bg = if back.len() == 0 {
                Some(Seq::<u16>::empty())
            } else {
                spec_parse_groups(back, true)
            };
            match (fg, bg) {
                (Some(f), Some(b)) => if f.len() + b.len() <= 7 {
                    Some(groups_to_bytes(f + zero_groups(8 - f.len() - b.len()) + b))
                } else {
                    None
                },
                _ => None,
            }
        }
    }
}

/// Parse one hex group of one to four digits.
fn parse_hex_group(s: &str) -> (r: Option<u16>)
    requires
        s.is_ascii(),
    ensures
        match r {
            Some(v) => valid_hex_group(s@) && v == hex_group_val(s@),
            None => !valid_hex_group(s@),
        },
{
    let n = s.unicode_len();
    if n == 0 || n > 4 {
        return None;
    }
    let mut value: u32 = 0;
    let mut i: usize = 0;
    while i < n
        invariant
            s.is_ascii(),
            n == s@.len(),
            1 <= n <= 4,
            i <= n,
            forall|k: int| 0 <= k < i ==> is_hex_digit(#[trigger] s@[k]),
            value == hex_group_val(s@.take(i as int)),
            0 <= value < 0x10000,
        decreases n - i,
    {
        let c = s.get_ascii(i);
        let d: u32 = if c >= 48 && c <= 57 {
            (c - 48) as u32
        } else if c >= 97 && c <= 102 {
            (c - 87) as u32
        } else if c >= 65 && c <= 70 {
            (c - 55) as u32
        } else {
            proof {
                assert(s@[i as int] as u8 == c);
                assert(!is_hex_digit(s@[i as int]));
            }
            return None;
        };
        proof {
            assert(s@[i as int] as u8 == c);
            assert('\0' <= s@[i as int] <= '\u{7f}');
            assert(is_hex_digit(s@[i as int]));
            assert(hex_val(s@[i as int]) == d);
            assert(s@.take(i + 1).drop_last() =~= s@.take(i as int));
            assert(s@.take(i + 1).last() == s@[i as int]);
            lemma_hex_group_val_bound(s@.take(i + 1));
        }
        value = value * 16 + d;
        i = i + 1;
    }
    proof {
        assert(s@.take(n as int) =~= s@);
        assert(valid_hex_group(s@));
    }
    Some(value as u16)
}

/// Parse a `':'`-separated group list, as `spec_parse_groups` describes.
fn parse_groups(s: &str, v4_ok: bool) -> (r: Option<Vec<u16>>)
    requires
        s.is_ascii(),
    ensures
        match r {
            Some(v) => spec_parse_groups(s@, v4_ok) == Some(v@),
            None => spec_parse_groups(s@, v4_ok) is None,
        },
    decreases s@.len(),
{
    let n = s.unicode_len();
    let j = find_first_sep(s, 58);
    if j < n {
        let head = s.substring_ascii(0, j);
        proof {
            assert(head@ =~= s@.take(j as int));
        }
        let g = match parse_hex_group(head) {
            Some(v) => v,
            None => {
                return None;
            },
        };
        let rest = s.substring_ascii(j + 1, n);
        proof {
            assert(rest@ =~= s@.skip(j + 1));
        }
        let mut tail = match parse_groups(rest, v4_ok) {
            Some(v) => v,
            None => {
                return None;
            },
        };
        let ghost tail0 = tail@;
        let mut v: Vec<u16> = Vec::new();
        v.push(g);
        v.append(&mut tail);
        proof {
            assert(v@ =~= seq![hex_group_val(s@.take(j as int)) as u16] + tail0);
        }
        Some(v)
    } else {
        match parse_hex_group(s) {
            Some(g) => {
                let mut v: Vec<u16> = Vec::new();
                v.push(g);
                proof {
                    assert(v@ =~= seq![hex_group_val(s@) as u16]);
                }
                Some(v)
            },
            None => {
                if v4_ok {
                    let quad = match parse_dotted(s) {
                        Some(v) => v,
                        None => {
                            return None;
                        },
                    };
                    if quad.len() == 4 {
                        let g0 = (quad[0] as u16) * 256 + (quad[1] as u16);
                        let g1 = (quad[2] as u16) * 256 + (quad[3] as u16);
                        let mut v: Vec<u16> = Vec::new();
                        v.push(g0);
                        v.push(g1);
                        proof {
                            assert(v@ =~= seq![
                                be16(quad@[0], quad@[1]),
                                be16(quad@[2], quad@[3]),
                            ]);
                        }
                        Some(v)
                    } else {
                        None
                    }
                } else {
                    None
                }
            },
        }
    }
}

/// The big-endian bytes of a group list.
#[verifier::loop_isolation(false)]
fn groups_to_bytes_exec(g: &Vec<u16>) -> (r: Vec<u8>)
    ensures
        r@ == groups_to_bytes(g@),
{
    let mut bytes: Vec<u8> = Vec::new();
    let mut i: usize = 0;
    while i < g.len()
        invariant
            i <= g@.len(),
            bytes@ == groups_to_bytes(g@.take(i as int)),
        decreases g@.len() - i,
    {
        bytes.push((g[i] / 256) as u8);
        bytes.push((g[i] % 256) as u8);
        proof {
            lemma_groups_to_bytes_push(g@.take(i as int), g@[i as int]);
            assert(g@.take(i + 1) =~= g@.take(i as int).push(g@[i as int]));
        }
        i = i + 1;
    }
    proof {
        assert(g@.take(g@.len() as int) =~= g@);
    }
    bytes
}

/// Parse an IPv6 address in presentation form into its sixteen bytes.
pub fn parse_ipv6(s: &str) -> (r: Option<Vec<u8>>)
    ensures
        match r {
            Some(v) => spec_parse_ipv6(s@) == Some(v@) && v@.len() == 16,
            None => spec_parse_ipv6(s@) is None,
        },
{
    if !s.is_ascii() {
        return None;
    }
    let n = s.unicode_len();
    let j = find_first_dcolon(s);
    if j >= n {
        let g = match parse_groups(s, true) {
            Some(v) => v,
            None => {
                return None;
            },
        };
        if g.len() == 8 {
            let bytes = groups_to_bytes_exec(&g);
            proof {
                lemma_groups_to_bytes_len(g@);
            }
            Some(bytes)
        } else {
            None
        }
    } else {
        let front = s.substring_ascii(0, j);
        let back = s.substring_ascii(j + 2, n);
        proof {
            assert(front@ =~= s@.take(j as int));
            assert(back@ =~= s@.skip(j + 2));
        }
        let mut f: Vec<u16> = Vec::new();
        if front.unicode_len() != 0 {
            f = match parse_groups(front, false) {
                Some(v) => v,
                None => {
                    return None;
                },
            };
        }
        let mut b: Vec<u16> = Vec::new();
        if back.unicode_len() != 0 {
            b = match parse_groups(back, true) {
                Some(v) => v,
                None => {
                    return None;
                },
            };
        }
        if f.len() <= 7 && b.len() <= 7 - f.len() {
            let ghost f0 = f@;
            let ghost b0 = b@;
            let zeros = 8 - f.len() - b.len();
            let mut g: Vec<u16> = f;
            let mut k: usize = 0;
            while k < zeros
                invariant
                    k <= zeros,
                    zeros == 8 - f0.len() - b0.len(),
                    g@ == f0 + zero_groups(k as int),
                decreases zeros - k,
            {
                g.push(0);
                proof {
                    assert(f0 + zero_groups(k + 1) =~= (f0 + zero_groups(k as int)).push(0u16));
                }
                k = k + 1;
            }
            let mut btail = b;
            g.append(&mut btail);
            proof {
                assert(g@ =~= f0 + zero_groups(8 - f0.len() - b0.len()) + b0);
                lemma_groups_to_bytes_len(g@);
            }
            let bytes = groups_to_bytes_exec(&g);
            Some(bytes)
        } else {
            None
        }
    }
}

/// The ASCII bytes of a `':'`-joined list of shortest-form hex groups.
pub open spec fn join_groups_bytes(g: Seq<u16>) -> Seq<u8>
    decreases g.len(),
{
    if g.len() == 0 {
        Seq::empty()
    } else if g.len() == 1 {
        hex_bytes(g[0] as nat)
    } else {
        hex_bytes(g[0] as nat) + seq![58u8] + join_groups_bytes(g.drop_first())
    }
}

/// Appending one more group extends the join with a colon (unless it is the
/// first group).
proof fn lemma_join_groups_bytes_push(g: Seq<u16>, x: u16)
    ensures
        join_groups_bytes(g.push(x)) == if g.len() == 0 {
            hex_bytes(x as nat)
        } else {
            join_groups_bytes(g) + seq![58u8] + hex_bytes(x as nat)
        },
    decreases g.len(),
{
    if g.len() == 0 {
        assert(g.push(x) =~= seq![x]);
    } else if g.len() == 1 {
        assert(g.push(x).drop_first() =~= seq![x]);
        assert(join_groups_bytes(seq![x]) == hex_bytes(x as nat));
        assert(g.push(x)[0] == g[0]);
        assert(join_groups_bytes(g) == hex_bytes(g[0] as nat));
    } else {
        assert(g.push(x).drop_first() =~= g.drop_first().push(x));
        lemma_join_groups_bytes_push(g.drop_first(), x);
        assert(join_groups_bytes(g.push(x)) == hex_bytes(g[0] as nat) + seq![58u8]
            + join_groups_bytes(g.drop_first().push(x)));
        assert((hex_bytes(g[0] as nat) + seq![58u8] + (join_groups_bytes(g.drop_first())
            + seq![58u8] + hex_bytes(x as nat))) =~= (join_groups_bytes(g) + seq![58u8]
            + hex_bytes(x as nat)));
    }
}

/// The length of the run of zero groups starting at `i`.
pub open spec fn run_len(g: Seq<u16>, i: int) -> int
    decreases g.len() - i,
{
    if i < 0 || i >= g.len() || g[i] != 0 {
        0
    } else {
        1 + run_len(g, i + 1)
    }
}

/// The leftmost longest run of zero groups at or after `i`: its start and
/// its length.
pub open spec fn best_run_from(g: Seq<u16>, i: int) -> (int, int)
    decreases g.len() - i,
{
    if i >= g.len() {
        (g.len() as int, 0)
    } else {
        let l = run_len(g, i);
        let rest = best_run_from(g, i + 1);
        if l >= rest.1 {
            (i, l)
        } else {
            rest
        }
    }
}

/// The 8 16-bit groups of 16 address bytes.
pub open spec fn ipv6_groups(b: Seq<u8>) -> Seq<u16> {
    Seq::new(8, |i: int| be16(b[2 * i], b[2 * i + 1]))
}

/// The ASCII bytes of the canonical presentation of 16 IPv6 address bytes.
pub open spec fn ipv6_format_bytes(b: Seq<u8>) -> Seq<u8> {
    let g = ipv6_groups(b);
    if g[0] == 0 && g[1] == 0 && g[2] == 0 && g[3] == 0 && g[4] == 0 && g[5] == 0xffff {
        seq![58u8, 58u8, 102u8, 102u8, 102u8, 102u8, 58u8] + ipv4_bytes(b[12], b[13], b[14], b[15])
    } else {
        let best = best_run_from(g, 0);
        if best.1 >= 2 {
            join_groups_bytes(g.take(best.0)) + seq![58u8, 58u8] + join_groups_bytes(
                g.skip(best.0 + best.1),
            )
        } else {
            join_groups_bytes(g)
        }
    }
}

/// The canonical presentation of 16 IPv6 address bytes.
pub open spec fn ipv6_chars(b: Seq<u8>) -> Seq<char> {
    ascii_to_chars(ipv6_format_bytes(b))
}

/// The length of the zero run at `i`.
fn run_len_exec(g: &Vec<u16>, i: usize) -> (r: usize)
    requires
        i <= g@.len(),
    ensures
        r == run_len(g@, i as int),
        i + r <= g@.len(),
    decreases g@.len() - i,
{
    if i >= g.len() || g[i] != 0 {
        0
    } else {
        1 + run_len_exec(g, i + 1)
    }
}

/// The leftmost longest zero run at or after `i`.
fn best_run_from_exec(g: &Vec<u16>, i: usize) -> (r: (usize, usize))
    requires
        i <= g@.len(),
    ensures
        (r.0 as int, r.1 as int) == best_run_from(g@, i as int),
        r.0 <= g@.len(),
        r.0 + r.1 <= g@.len(),
    decreases g@.len() - i,
{
    if i >= g.len() {
        (g.len(), 0)
    } else {
        let l = run_len_exec(g, i);
        let rest = best_run_from_exec(g, i + 1);
        if l >= rest.1 {
            (i, l)
        } else {
            rest
        }
    }
}

/// The `':'`-joined shortest-form hex groups of `g[from..to]`.
#[verifier::loop_isolation(false)]
fn join_groups_exec(g: &Vec<u16>, from: usize, to: usize) -> (r: Vec<u8>)
    requires
        from <= to <= g@.len(),
    ensures
        r@ == join_groups_bytes(g@.subrange(from as int, to as int)),
        all_ascii(r@),
{
    let mut bytes: Vec<u8> = Vec::new();
    let mut i: usize = from;
    while i < to
        invariant
            from <= i <= to,
            bytes@ == join_groups_bytes(g@.subrange(from as int, i as int)),
            all_ascii(bytes@),
        decreases to - i,
    {
        if i > from {
            bytes.push(58);
        }
        let mut h = u32_to_hex_bytes(g[i] as u32);
        bytes.append(&mut h);
        proof {
            lemma_join_groups_bytes_push(
                g@.subrange(from as int, i as int),
                g@[i as int],
            );
            assert(g@.subrange(from as int, i + 1) =~= g@.subrange(from as int, i as int).push(
                g@[i as int],
            ));
            assert(bytes@ =~= join_groups_bytes(g@.subrange(from as int, i + 1)));
        }
        i = i + 1;
    }
    bytes
}

/// Format sixteen address bytes as a canonical IPv6 presentation string.
pub fn format_ipv6(v: &Vec<u8>) -> (r: String)
    requires
        v@.len() == 16,
    ensures
        r@ == ipv6_chars(v@),
{
    let mut g: Vec<u16> = Vec::new();
    let mut i: usize = 0;
    while i < 8
        invariant
            i <= 8,
            v@.len() == 16,
            g@.len() == i,
            forall|k: int| 0 <= k < i ==> g@[k] == be16(v@[2 * k], v@[2 * k + 1]),
        decreases 8 - i,
    {
        g.push((v[2 * i] as u16) * 256 + (v[2 * i + 1] as u16));
        i = i + 1;
    }
    proof {
        assert(g@ =~= ipv6_groups(v@));
    }
    if g[0] == 0 && g[1] == 0 && g[2] == 0 && g[3] == 0 && g[4] == 0 && g[5] == 0xffff {
        let mut bytes: Vec<u8> = Vec::new();
        bytes.push(58);
        bytes.push(58);
        bytes.push(102);
        bytes.push(102);
        bytes.push(102);
        bytes.push(102);
        bytes.push(58);
        let mut quad = ipv4_bytes_exec(v[12], v[13], v[14], v[15]);
        bytes.append(&mut quad);
        proof {
            assert(bytes@ =~= ipv6_format_bytes(v@));
        }
        ascii_bytes_to_string(bytes)
    } else {
        let best = best_run_from_exec(&g, 0);
        if best.1 >= 2 {
            let mut bytes = join_groups_exec(&g, 0, best.0);
            let ghost head = bytes@;
            bytes.push(58);
            bytes.push(58);
            let mut tail = join_groups_exec(&g, best.0 + best.1, g.len());
            let ghost tail0 = tail@;
            bytes.append(&mut tail);
            proof {
                assert(g@.subrange(0, best.0 as int) =~= g@.take(best.0 as int));
                assert(g@.subrange(best.0 + best.1, g@.len() as int) =~= g@.skip(
                    best.0 + best.1,
                ));
                assert(bytes@ =~= ipv6_format_bytes(v@));
            }
            ascii_bytes_to_string(bytes)
        } else {
            let bytes = join_groups_exec(&g, 0, g.len());
            proof {
                assert(g@.subrange(0, g@.len() as int) =~= g@);
                assert(bytes@ =~= ipv6_format_bytes(v@));
            }
            ascii_bytes_to_string(bytes)
        }
    }
}

/// The shortest hex rendering of a 16-bit value is a valid hex group
/// holding that value; its characters are hex digits, never separators.
proof fn lemma_hex_group_chars_props(n: nat)
    requires
        n <= 0xFFFF,
    ensures
        ({
            let cs = ascii_to_chars(hex_bytes(n));
            &&& valid_hex_group(cs)
            &&& hex_group_val(cs) == n
            &&& 1 <= cs.len() <= 4
            &&& (n < 0x1000 ==> cs.len() <= 3)
            &&& forall|k: int|
                0 <= k < cs.len() ==> (#[trigger] cs[k] != ':' && cs[k] != '.' && '\0' <= cs[k]
                    <= '\u{7f}')
        }),
    decreases n,
{
    let cs = ascii_to_chars(hex_bytes(n));
    if n < 16 {
        assert(hex_bytes(n) =~= seq![hex_digit_byte(n)]);
        assert(cs[0] == hex_digit_byte(n) as char);
        assert(cs.drop_last() =~= Seq::<char>::empty());
        assert(hex_group_val(cs) == 16 * hex_group_val(Seq::<char>::empty()) + hex_val(cs[0]));
    } else {
        lemma_hex_group_chars_props(n / 16);
        let cp = ascii_to_chars(hex_bytes(n / 16));
        assert(hex_bytes(n) =~= hex_bytes(n / 16) + seq![hex_digit_byte(n % 16)]);
        assert(cs =~= cp + seq![hex_digit_byte(n % 16) as char]);
        assert(cs.drop_last() =~= cp);
        assert(cs.last() == hex_digit_byte(n % 16) as char);
        assert(hex_val(cs.last()) == n % 16);
        assert(hex_group_val(cs) == 16 * hex_group_val(cp) + hex_val(cs.last()));
        if n < 0x1000 {
            assert(cp.len() <= 2) by {
                if n / 16 >= 0x100 {
                    assert(false);
                }
                if n / 16 < 0x100 && n / 16 >= 0x10 {
                    lemma_hex_group_chars_props(n / 16 / 16);
                }
            }
        }
        if n >= 0x1000 {
            assert(n / 16 < 0x1000);
        }
    }
}

/// Parsing the colon-joined shortest hex renderings of a group list yields
/// the list; the join has no dots, starts and ends with a hex digit, and
/// holds no two adjacent colons.
proof fn lemma_parse_join_groups(g: Seq<u16>, v4_ok: bool)
    requires
        g.len() >= 1,
    ensures
        ({
            let cs = ascii_to_chars(join_groups_bytes(g));
            &&& spec_parse_groups(cs, v4_ok) == Some(g)
            &&& cs.len() >= 1
            &&& vstd::utf8::is_ascii_chars(cs)
            &&& cs[0] != ':'
            &&& cs[cs.len() - 1] != ':'
            &&& forall|k: int| 0 <= k < cs.len() ==> #[trigger] cs[k] != '.'
            &&& forall|k: int|
                0 <= k < cs.len() - 1 ==> !(#[trigger] cs[k] == ':' && cs[k + 1] == ':')
        }),
    decreases g.len(),
{
    let cs = ascii_to_chars(join_groups_bytes(g));
    lemma_hex_group_chars_props(g[0] as nat);
    let h0 = ascii_to_chars(hex_bytes(g[0] as nat));
    if g.len() == 1 {
        assert(cs =~= h0);
        lemma_first_sep_at(cs, ':', cs.len() as int);
        assert(hex_group_val(cs) as u16 == g[0]);
        assert(seq![g[0]] =~= g);
    } else {
        lemma_parse_join_groups(g.drop_first(), v4_ok);
        let rest = ascii_to_chars(join_groups_bytes(g.drop_first()));
        assert(join_groups_bytes(g) == hex_bytes(g[0] as nat) + seq![58u8] + join_groups_bytes(
            g.drop_first(),
        ));
        assert(cs =~= h0 + seq![':'] + rest);
        assert forall|k: int| 0 <= k < h0.len() implies cs[k] != ':' by {
            assert(cs[k] == h0[k]);
        }
        assert(cs[h0.len() as int] == ':');
        lemma_first_sep_at(cs, ':', h0.len() as int);
        assert(cs.take(h0.len() as int) =~= h0);
        assert(cs.skip(h0.len() as int + 1) =~= rest);
        assert(hex_group_val(h0) as u16 == g[0]);
        assert(seq![g[0]] + g.drop_first() =~= g);
        assert forall|k: int| 0 <= k < cs.len() - 1 implies !(#[trigger] cs[k] == ':' && cs[k + 1]
            == ':') by {
            if k < h0.len() {
                assert(cs[k] == h0[k]);
            } else if k == h0.len() {
                assert(cs[k + 1] == rest[0]);
            } else {
                assert(cs[k] == rest[k - h0.len() - 1] && cs[k + 1] == rest[k - h0.len()]);
            }
        }
        assert(cs[cs.len() - 1] == rest[rest.len() - 1]);
    }
}

/// Every group inside the best zero run is zero.
proof fn lemma_run_len_zeros(g: Seq<u16>, i: int)
    requires
        0 <= i <= g.len(),
    ensures
        i + run_len(g, i) <= g.len(),
        run_len(g, i) >= 0,
        forall|k: int| i <= k < i + run_len(g, i) ==> g[k] == 0,
    decreases g.len() - i,
{
    if !(i < 0 || i >= g.len() || g[i] != 0) {
        lemma_run_len_zeros(g, i + 1);
    }
}

/// The best run lies inside the sequence and holds only zeros.
proof fn lemma_best_run_zeros(g: Seq<u16>, i: int)
    requires
        0 <= i <= g.len(),
    ensures
        ({
            let best = best_run_from(g, i);
            &&& i <= best.0 <= g.len()
            &&& 0 <= best.1
            &&& best.0 + best.1 <= g.len()
            &&& forall|k: int| best.0 <= k < best.0 + best.1 ==> g[k] == 0
        }),
    decreases g.len() - i,
{
    if i < g.len() {
        lemma_run_len_zeros(g, i);
        lemma_best_run_zeros(g, i + 1);
    }
}

/// The big-endian bytes of the groups of sixteen bytes are those bytes.
proof fn lemma_groups_to_bytes_inverse(b: Seq<u8>)
    requires
        b.len() == 16,
    ensures
        groups_to_bytes(ipv6_groups(b)) == b,
{
    let g = ipv6_groups(b);
    lemma_groups_to_bytes_len(g);
    assert forall|i: int| 0 <= i < 8 implies (groups_to_bytes(g)[2 * i] == (g[i] / 256) as u8
        && groups_to_bytes(g)[2 * i + 1] == (g[i] % 256) as u8) by {
        lemma_groups_to_bytes_index(g, i);
    }
    assert forall|j: int| 0 <= j < 16 implies groups_to_bytes(g)[j] == b[j] by {
        let i = j / 2;
        assert(g[i] == be16(b[2 * i], b[2 * i + 1]));
        if j % 2 == 0 {
            assert(j == 2 * i);
            assert((g[i] / 256) as u8 == b[j]);
        } else {
            assert(j == 2 * i + 1);
            assert((g[i] % 256) as u8 == b[j]);
        }
    }
    assert(groups_to_bytes(g) =~= b);
}

/// The bytes of group `i` inside an encoded group list.
proof fn lemma_groups_to_bytes_index(g: Seq<u16>, i: int)
    requires
        0 <= i < g.len(),
    ensures
        groups_to_bytes(g).len() == 2 * g.len(),
        groups_to_bytes(g)[2 * i] == (g[i] / 256) as u8,
        groups_to_bytes(g)[2 * i + 1] == (g[i] % 256) as u8,
    decreases g.len(),
{
    lemma_groups_to_bytes_len(g);
    if i == 0 {
    } else {
        lemma_groups_to_bytes_index(g.drop_first(), i - 1);
        assert(g.drop_first()[i - 1] == g[i]);
        lemma_groups_to_bytes_len(g.drop_first());
    }
}

/// The groups of sixteen bytes, when the address is IPv4-mapped, parse
/// back out of the mixed-notation form.
#[verifier::rlimit(100)]
proof fn lemma_ipv6_round_trip_mapped(b: Seq<u8>)
    requires
        b.len() == 16,
        ({
            let g = ipv6_groups(b);
            g[0] == 0 && g[1] == 0 && g[2] == 0 && g[3] == 0 && g[4] == 0 && g[5] == 0xffff
        }),
    ensures
        spec_parse_ipv6(ipv6_chars(b)) == Some(b),
{
    let g = ipv6_groups(b);
    let quad = ipv4_chars(b[12], b[13], b[14], b[15]);
    lemma_parse_dotted_quad(b[12], b[13], b[14], b[15]);
    let s = ipv6_chars(b);
    assert(s =~= seq![':', ':', 'f', 'f', 'f', 'f', ':'] + quad);
    assert(vstd::utf8::is_ascii_chars(s)) by {
        assert forall|k: int| 0 <= k < s.len() implies '\0' <= #[trigger] s[k] <= '\u{7f}' by {
            if k >= 7 {
                assert(s[k] == quad[k - 7]);
            }
        }
    }
    lemma_first_dcolon_at(s, 0);
    assert(s.take(0) =~= Seq::<char>::empty());
    let back = s.skip(2);
    let hf = seq!['f', 'f', 'f', 'f'];
    assert(back =~= hf + seq![':'] + quad);
    assert forall|k: int| 0 <= k < 4 implies back[k] != ':' by {
        assert(back[k] == hf[k]);
    }
    assert(back[4] == ':');
    lemma_first_sep_at(back, ':', 4);
    assert(back.take(4) =~= hf);
    assert(back.skip(5) =~= quad);
    assert(valid_hex_group(hf));
    assert(hex_group_val(hf) == 0xffff) by {
        assert(hf.drop_last() =~= seq!['f', 'f', 'f']);
        assert(seq!['f', 'f', 'f'].drop_last() =~= seq!['f', 'f']);
        assert(seq!['f', 'f'].drop_last() =~= seq!['f']);
        assert(seq!['f'].drop_last() =~= Seq::<char>::empty());
        assert(hex_val('f') == 15);
        assert(hex_group_val(Seq::<char>::empty()) == 0);
        assert(seq!['f'].last() == 'f');
        assert(hex_group_val(seq!['f']) == 16 * hex_group_val(seq!['f'].drop_last()) + hex_val(
            seq!['f'].last(),
        ));
        assert(hex_group_val(seq!['f']) == 15);
        assert(hex_group_val(seq!['f', 'f']) == 255);
        assert(hex_group_val(seq!['f', 'f', 'f']) == 4095);
    }
    assert(!valid_hex_group(quad)) by {
        assert(quad.len() >= 7);
    }
    assert(first_sep(quad, ':') == quad.len()) by {
        lemma_first_sep_at(quad, ':', quad.len() as int);
    }
    assert(spec_parse_groups(quad, true) == Some(seq![be16(b[12], b[13]), be16(b[14], b[15])]));
    assert(spec_parse_groups(back, true) == Some(seq![
        0xffffu16,
        be16(b[12], b[13]),
        be16(b[14], b[15]),
    ]));
    let bg = seq![0xffffu16, be16(b[12], b[13]), be16(b[14], b[15])];
    let assembled = Seq::<u16>::empty() + zero_groups(5) + bg;
    assert(assembled =~= g);
    lemma_groups_to_bytes_inverse(b);
}

/// The groups of sixteen bytes whose longest zero run has two or more
/// groups parse back out of the compressed form.
#[verifier::rlimit(100)]
proof fn lemma_ipv6_round_trip_compressed(b: Seq<u8>)
    requires
        b.len() == 16,
        !({
            let g = ipv6_groups(b);
            g[0] == 0 && g[1] == 0 && g[2] == 0 && g[3] == 0 && g[4] == 0 && g[5] == 0xffff
        }),
        best_run_from(ipv6_groups(b), 0).1 >= 2,
    ensures
        spec_parse_ipv6(ipv6_chars(b)) == Some(b),
{
    let g = ipv6_groups(b);
    let best = best_run_from(g, 0);
    let bs = best.0;
    let bl = best.1;
    lemma_best_run_zeros(g, 0);
    let front_g = g.take(bs);
    let back_g = g.skip(bs + bl);
    let front_cs = ascii_to_chars(join_groups_bytes(front_g));
    let back_cs = ascii_to_chars(join_groups_bytes(back_g));
    let s = ipv6_chars(b);
    assert(s =~= front_cs + seq![':', ':'] + back_cs);
    if bs > 0 {
        lemma_parse_join_groups(front_g, false);
    } else {
        assert(front_g =~= Seq::<u16>::empty());
        assert(front_cs =~= Seq::<char>::empty());
    }
    if bs + bl < 8 {
        lemma_parse_join_groups(back_g, true);
    } else {
        assert(back_g =~= Seq::<u16>::empty());
        assert(back_cs =~= Seq::<char>::empty());
    }
    let j = front_cs.len() as int;
    assert(s[j] == ':' && s[j + 1] == ':');
    assert forall|k: int| 0 <= k < j && k + 1 < s.len() implies !(#[trigger] s[k] == ':' && s[k
        + 1] == ':') by {
        if k < j - 1 {
            assert(s[k] == front_cs[k] && s[k + 1] == front_cs[k + 1]);
        } else {
            assert(s[k] == front_cs[front_cs.len() - 1]);
        }
    }
    lemma_first_dcolon_at(s, j);
    assert(s.take(j) =~= front_cs);
    assert(s.skip(j + 2) =~= back_cs);
    assert(vstd::utf8::is_ascii_chars(s)) by {
        assert forall|k: int| 0 <= k < s.len() implies '\0' <= #[trigger] s[k] <= '\u{7f}' by {
            if k < j {
                assert(s[k] == front_cs[k]);
            } else if k >= j + 2 {
                assert(s[k] == back_cs[k - j - 2]);
            }
        }
    }
    let fg: Seq<u16> = front_g;
    let bg: Seq<u16> = back_g;
    assert(fg.len() + bg.len() == 8 - bl);
    let assembled = fg + zero_groups(8 - fg.len() - bg.len()) + bg;
    assert(assembled =~= g) by {
        assert(forall|k: int| bs <= k < bs + bl ==> g[k] == 0);
    }
    lemma_groups_to_bytes_inverse(b);
}

/// The groups of sixteen bytes with no zero run of two or more groups parse
/// back out of the plain colon-joined form.
proof fn lemma_ipv6_round_trip_plain(b: Seq<u8>)
    requires
        b.len() == 16,
        !({
            let g = ipv6_groups(b);
            g[0] == 0 && g[1] == 0 && g[2] == 0 && g[3] == 0 && g[4] == 0 && g[5] == 0xffff
        }),
        best_run_from(ipv6_groups(b), 0).1 < 2,
    ensures
        spec_parse_ipv6(ipv6_chars(b)) == Some(b),
{
    let g = ipv6_groups(b);
    let s = ipv6_chars(b);
    lemma_parse_join_groups(g, true);
    assert(s =~= ascii_to_chars(join_groups_bytes(g)));
    lemma_first_dcolon_at(s, s.len() as int);
    assert(spec_parse_groups(s, true) == Some(g));
    lemma_groups_to_bytes_inverse(b);
}

/// Formatting sixteen address bytes canonically and parsing the result
/// yields the same bytes: the IPv6 presentation form round-trips.
pub proof fn lemma_ipv6_round_trip(b: Seq<u8>)
    requires
        b.len() == 16,
    ensures
        spec_parse_ipv6(ipv6_chars(b)) == Some(b),
{
    let g = ipv6_groups(b);
    if g[0] == 0 && g[1] == 0 && g[2] == 0 && g[3] == 0 && g[4] == 0 && g[5] == 0xffff {
        lemma_ipv6_round_trip_mapped(b);
    } else if best_run_from(g, 0).1 >= 2 {
        lemma_ipv6_round_trip_compressed(b);
    } else {
        lemma_ipv6_round_trip_plain(b);
    }
}

} // verus!
