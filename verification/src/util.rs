//! The domain-name codec: length-prefixed labels on the wire, with
//! compression pointers on decode. Decoding tracks the set of pointer
//! targets already followed, so a crafted message with a pointer cycle is
//! rejected instead of looping; that set also bounds the recursion, which is
//! how termination is proved.

use vstd::prelude::*;
use vstd::set_lib::{lemma_int_range, lemma_len_subset, set_int_range};

use crate::cursor::Cursor;
use crate::error::DnsError;
use crate::strutil::{all_ascii, ascii_bytes_to_string, ascii_to_chars};

verus! {

broadcast use {vstd::string::group_string_axioms, crate::cursor::lemma_cursor_pos_nonneg};

/// The bytes whose values are the code points of the given ASCII characters.
pub open spec fn chars_to_bytes(s: Seq<char>) -> Seq<u8> {
    s.map_values(|c: char| c as u8)
}

/// The index of the first `'.'` in `s`, or `s.len()` if there is none.
pub open spec fn first_dot(s: Seq<char>) -> int
    decreases s.len(),
{
    if s.len() == 0 {
        0
    } else if s[0] == '.' {
        0
    } else {
        1 + first_dot(s.drop_first())
    }
}

/// True when every `'.'`-separated label of `s` is at most 63 characters,
/// the precondition for encoding a name.
pub open spec fn encode_ok(s: Seq<char>) -> bool
    decreases s.len(),
{
    let i = first_dot(s);
    if 0 <= i < s.len() {
        i <= 63 && encode_ok(s.skip(i + 1))
    } else {
        s.len() <= 63
    }
}

/// The wire encoding of the labels of `s`: for each `'.'`-separated label,
/// one length byte followed by the label's bytes (without the final 0 byte).
pub open spec fn encode_labels(s: Seq<char>) -> Seq<u8>
    decreases s.len(),
{
    let i = first_dot(s);
    if 0 <= i < s.len() {
        seq![i as u8] + chars_to_bytes(s.take(i)) + encode_labels(s.skip(i + 1))
    } else {
        seq![s.len() as u8] + chars_to_bytes(s)
    }
}

/// The full wire encoding of a domain name: its labels, then a 0 byte.
pub open spec fn encoded_name(s: Seq<char>) -> Seq<u8> {
    encode_labels(s) + seq![0u8]
}

/// `first_dot(s)` is the unique position that has a dot with none before it
/// (or the length, when there is no dot at all).
pub proof fn lemma_first_dot_at(s: Seq<char>, j: int)
    requires
        0 <= j <= s.len(),
        forall|k: int| 0 <= k < j ==> s[k] != '.',
        j < s.len() ==> s[j] == '.',
    ensures
        first_dot(s) == j,
    decreases j,
{
    if s.len() == 0 {
    } else if j == 0 {
    } else {
        assert(s[0] != '.');
        let t = s.drop_first();
        assert forall|k: int| 0 <= k < j - 1 implies t[k] != '.' by {
            assert(t[k] == s[k + 1]);
        }
        if j - 1 < t.len() {
            assert(t[j - 1] == s[j]);
        }
        lemma_first_dot_at(t, j - 1);
    }
}

/// Where `first_dot` lands: on a dot with none before it, or at the end.
pub proof fn lemma_first_dot_props(s: Seq<char>)
    ensures
        0 <= first_dot(s) <= s.len(),
        first_dot(s) < s.len() ==> s[first_dot(s)] == '.',
        forall|k: int| 0 <= k < first_dot(s) ==> #[trigger] s[k] != '.',
    decreases s.len(),
{
    if s.len() == 0 {
    } else if s[0] == '.' {
    } else {
        let t = s.drop_first();
        lemma_first_dot_props(t);
        assert(first_dot(s) == 1 + first_dot(t));
        if first_dot(t) < t.len() {
            assert(s[first_dot(s)] == t[first_dot(t)]);
        }
        assert forall|k: int| 0 <= k < first_dot(s) implies #[trigger] s[k] != '.' by {
            if k > 0 {
                assert(s[k] == t[k - 1]);
            }
        }
    }
}

/// The index of the first `'.'` in an ASCII string, or its length.
#[verifier::loop_isolation(false)]
fn find_first_dot(s: &str) -> (j: usize)
    requires
        s.is_ascii(),
    ensures
        j == first_dot(s@),
        j <= s@.len(),
{
    let n = s.unicode_len();
    let mut j: usize = 0;
    while j < n
        invariant
            s.is_ascii(),
            n == s@.len(),
            j <= n,
            forall|k: int| 0 <= k < j ==> s@[k] != '.',
        decreases n - j,
    {
        let c = s.get_ascii(j);
        if c == 46 {
            proof {
                assert(s@[j as int] as u8 == 46);
                assert('\0' <= s@[j as int] <= '\u{7f}');
                assert(s@[j as int] == '.');
                lemma_first_dot_at(s@, j as int);
            }
            return j;
        }
        proof {
            assert(s@[j as int] as u8 != 46);
            assert(s@[j as int] != '.');
        }
        j = j + 1;
    }
    proof {
        lemma_first_dot_at(s@, n as int);
    }
    j
}

/// Encode the labels of `s` without the terminating 0 byte.
fn encode_labels_exec(s: &str) -> (r: Vec<u8>)
    requires
        s.is_ascii(),
        encode_ok(s@),
    ensures
        r@ == encode_labels(s@),
    decreases s@.len(),
{
    let n = s.unicode_len();
    let j = find_first_dot(s);
    if j < n {
        let mut v: Vec<u8> = Vec::new();
        v.push(j as u8);
        let label = s.substring_ascii(0, j);
        let mut lb = label.as_bytes_vec();
        proof {
            assert(lb@ =~= chars_to_bytes(s@.take(j as int)));
        }
        v.append(&mut lb);
        let rest = s.substring_ascii(j + 1, n);
        proof {
            assert(rest@ =~= s@.skip(j + 1));
        }
        let mut rb = encode_labels_exec(rest);
        v.append(&mut rb);
        proof {
            assert(v@ =~= encode_labels(s@));
        }
        v
    } else {
        let mut v: Vec<u8> = Vec::new();
        v.push(n as u8);
        let mut lb = s.as_bytes_vec();
        proof {
            assert(lb@ =~= chars_to_bytes(s@));
        }
        v.append(&mut lb);
        proof {
            assert(v@ =~= encode_labels(s@));
        }
        v
    }
}

/// Encode an ASCII domain name as length-prefixed labels ending in a 0 byte.
/// Non-ASCII names and labels over 63 characters are the caller's programming
/// errors and are excluded up front.
pub fn encode_dns_name(domain_name: &str) -> (r: Vec<u8>)
    requires
        domain_name.is_ascii(),
        encode_ok(domain_name@),
    ensures
        r@ == encoded_name(domain_name@),
{
    let mut encoded = encode_labels_exec(domain_name);
    encoded.push(0);
    proof {
        assert(encoded@ =~= encoded_name(domain_name@));
    }
    encoded
}

/// The absolute offset named by a compression pointer whose first byte is
/// `l` (top two bits set) and second byte is `b`. The low six bits of `l`
/// are added to `b`, not shifted past it, so targets are capped below 320:
/// a pointer aimed at an offset of 256 or more resolves to a smaller offset
/// instead, and the name there will normally fail to decode. Messages up to
/// 256 bytes, which covers every query this resolver sends, are unaffected.
pub open spec fn ptr_target(l: u8, b: u8) -> int {
    (l - 192) + b
}

/// The bytes of `buf` still ahead of `pos`, clamped at zero.
pub open spec fn remaining(buf: Seq<u8>, pos: int) -> int {
    if 0 <= pos <= buf.len() {
        buf.len() - pos
    } else {
        0
    }
}

/// Pointer targets are bounded by 63 + 255, so no decode ever follows more
/// distinct targets than this.
pub open spec fn visited_bound() -> int {
    320
}

/// The set of pointer targets recorded in the visited list.
pub open spec fn visited_set(v: Seq<u16>) -> Set<int> {
    v.map_values(|x: u16| x as int).to_set()
}

/// A well-formed visited set: finitely many targets, all below the bound.
pub open spec fn visited_ok(visited: Set<int>) -> bool {
    visited.finite() && visited.subset_of(set_int_range(0, visited_bound()))
}

/// The labels decoded from `buf` starting at `pos`, following compression
/// pointers but refusing any target in `visited`, together with the position
/// just past the name's own bytes. `None` is a malformed name: a truncated
/// buffer, a reserved length byte, a non-ASCII label, or a pointer loop.
pub open spec fn spec_decode_parts(buf: Seq<u8>, pos: int, visited: Set<int>) -> Option<
    (Seq<Seq<char>>, int),
>
    decreases visited_bound() - visited.len(), remaining(buf, pos),
    when visited_ok(visited)
    via spec_decode_parts_decreases
{
    if !(0 <= pos < buf.len()) {
        None
    } else {
        let l = buf[pos];
        if l == 0 {
            Some((Seq::empty(), pos + 1))
        } else if l >= 192 {
            if pos + 2 > buf.len() {
                None
            } else {
                let t = ptr_target(l, buf[pos + 1]);
                if visited.contains(t) {
                    None
                } else {
                    match spec_decode_parts(buf, t, visited.insert(t)) {
                        Some(sub) => Some((seq![join_parts(sub.0)], pos + 2)),
                        None => None,
                    }
                }
            }
        } else if l > 63 {
            None
        } else if pos + 1 + l > buf.len() {
            None
        } else if !all_ascii(buf.subrange(pos + 1, pos + 1 + l)) {
            None
        } else {
            match spec_decode_parts(buf, pos + 1 + l, visited) {
                Some(rest) => Some(
                    (seq![ascii_to_chars(buf.subrange(pos + 1, pos + 1 + l))] + rest.0, rest.1),
                ),
                None => None,
            }
        }
    }
}

#[via_fn]
proof fn spec_decode_parts_decreases(buf: Seq<u8>, pos: int, visited: Set<int>) {
    lemma_visited_len_bound(visited);
    if 0 <= pos < buf.len() {
        let l = buf[pos];
        if l != 0 && l >= 192 && pos + 2 <= buf.len() {
            let t = ptr_target(l, buf[pos + 1]);
            if !visited.contains(t) {
                lemma_visited_len_bound(visited.insert(t));
            }
        }
    }
}

/// A well-formed visited set has at most `visited_bound()` elements.
proof fn lemma_visited_len_bound(visited: Set<int>)
    requires
        visited_ok(visited),
    ensures
        visited.len() <= visited_bound(),
{
    lemma_int_range(0, visited_bound());
    lemma_len_subset(visited, set_int_range(0, visited_bound()));
}

/// The labels joined with `'.'`, as the decoder presents a name.
pub open spec fn join_parts(parts: Seq<Seq<char>>) -> Seq<char>
    decreases parts.len(),
{
    if parts.len() == 0 {
        Seq::empty()
    } else if parts.len() == 1 {
        parts[0]
    } else {
        parts[0] + seq!['.'] + join_parts(parts.drop_first())
    }
}

/// Appending one more part extends the join with a dot (unless it is the
/// first part).
pub proof fn lemma_join_parts_push(parts: Seq<Seq<char>>, x: Seq<char>)
    ensures
        join_parts(parts.push(x)) == if parts.len() == 0 {
            x
        } else {
            join_parts(parts) + seq!['.'] + x
        },
    decreases parts.len(),
{
    if parts.len() == 0 {
        assert(parts.push(x) =~= seq![x]);
        assert(join_parts(seq![x]) == x);
    } else if parts.len() == 1 {
        assert(parts.push(x).drop_first() =~= seq![x]);
        assert(join_parts(seq![x]) == x);
        assert(parts.push(x)[0] == parts[0]);
        assert(join_parts(parts) == parts[0]);
    } else {
        assert(parts.push(x).drop_first() =~= parts.drop_first().push(x));
        lemma_join_parts_push(parts.drop_first(), x);
        assert(join_parts(parts.push(x)) == parts[0] + seq!['.'] + join_parts(
            parts.drop_first().push(x),
        ));
        assert((parts[0] + seq!['.'] + (join_parts(parts.drop_first()) + seq!['.'] + x)) =~= (
        join_parts(parts) + seq!['.'] + x));
    }
}

/// The decoded name at `pos`: the join of its labels and the end position.
pub open spec fn spec_decode_name(buf: Seq<u8>, pos: int, visited: Set<int>) -> Option<
    (Seq<char>, int),
> {
    match spec_decode_parts(buf, pos, visited) {
        Some(r) => Some((join_parts(r.0), r.1)),
        None => None,
    }
}

/// Pushing a target onto the visited list inserts it into the visited set.
proof fn lemma_visited_set_push(v: Seq<u16>, t: u16)
    ensures
        visited_set(v.push(t)) =~= visited_set(v).insert(t as int),
{
    let m = v.map_values(|x: u16| x as int);
    let mp = v.push(t).map_values(|x: u16| x as int);
    assert(mp =~= m.push(t as int));
    assert forall|y: int| visited_set(v.push(t)).contains(y) implies visited_set(v).insert(
        t as int,
    ).contains(y) by {
        let i = choose|i: int| 0 <= i < mp.len() && mp[i] == y;
        if i < m.len() {
            assert(m[i] == y);
        }
    }
    assert forall|y: int| visited_set(v).insert(t as int).contains(y) implies visited_set(
        v.push(t),
    ).contains(y) by {
        if y == t as int {
            assert(mp[mp.len() - 1] == y);
        } else {
            let i = choose|i: int| 0 <= i < m.len() && m[i] == y;
            assert(mp[i] == y);
        }
    }
}

/// Membership in the visited set is membership in the visited list.
proof fn lemma_visited_set_contains(v: Seq<u16>, t: u16)
    ensures
        visited_set(v).contains(t as int) <==> v.contains(t),
{
    let m = v.map_values(|x: u16| x as int);
    if v.contains(t) {
        let i = choose|i: int| 0 <= i < v.len() && v[i] == t;
        assert(m[i] == t as int);
        assert(m.contains(t as int));
    }
    if m.contains(t as int) {
        let i = choose|i: int| 0 <= i < m.len() && m[i] == t as int;
        assert(v[i] == t);
        assert(v.contains(t));
    }
}

/// True when the visited list mirrors a well-formed visited set.
proof fn lemma_visited_list_ok(v: Seq<u16>)
    requires
        forall|i: int| 0 <= i < v.len() ==> v[i] < 320,
    ensures
        visited_ok(visited_set(v)),
{
    broadcast use vstd::seq_lib::seq_to_set_is_finite;

    let m = v.map_values(|x: u16| x as int);
    assert forall|y: int| visited_set(v).contains(y) implies set_int_range(
        0,
        visited_bound(),
    ).contains(y) by {
        let i = choose|i: int| 0 <= i < m.len() && m[i] == y;
        assert(v[i] < 320);
    }
}

/// Whether `t` was already recorded as a followed pointer target.
#[verifier::loop_isolation(false)]
fn visited_contains(v: &Vec<u16>, t: u16) -> (r: bool)
    ensures
        r == visited_set(v@).contains(t as int),
{
    proof {
        lemma_visited_set_contains(v@, t);
    }
    let mut i: usize = 0;
    while i < v.len()
        invariant
            i <= v@.len(),
            forall|k: int| 0 <= k < i ==> v@[k] != t,
        decreases v@.len() - i,
    {
        if v[i] == t {
            return true;
        }
        i = i + 1;
    }
    proof {
        assert(!v@.contains(t));
    }
    false
}

/// Whether every byte is an ASCII code point.
#[verifier::loop_isolation(false)]
fn check_all_ascii(v: &Vec<u8>) -> (r: bool)
    ensures
        r == all_ascii(v@),
{
    let mut i: usize = 0;
    while i < v.len()
        invariant
            i <= v@.len(),
            forall|k: int| 0 <= k < i ==> v@[k] < 128,
        decreases v@.len() - i,
    {
        if v[i] >= 128 {
            return false;
        }
        i = i + 1;
    }
    true
}

/// Join decoded labels with dots, as the presentation form of the name.
#[verifier::loop_isolation(false)]
fn join_with_dots(parts: &Vec<String>) -> (r: String)
    ensures
        r@ == join_parts(parts.deep_view()),
{
    let ghost pv = parts.deep_view();
    let mut s = String::new();
    let mut i: usize = 0;
    while i < parts.len()
        invariant
            pv == parts.deep_view(),
            pv.len() == parts@.len(),
            forall|k: int| 0 <= k < pv.len() ==> pv[k] == parts@[k]@,
            i <= parts@.len(),
            s@ == join_parts(pv.take(i as int)),
        decreases parts@.len() - i,
    {
        if i > 0 {
            s.append(".");
            proof {
                reveal_strlit(".");
                assert("."@ =~= seq!['.']);
            }
        }
        s.append(parts[i].as_str());
        proof {
            lemma_join_parts_push(pv.take(i as int), pv[i as int]);
            assert(pv.take(i + 1) =~= pv.take(i as int).push(pv[i as int]));
        }
        i = i + 1;
    }
    proof {
        assert(pv.take(parts@.len() as int) =~= pv);
    }
    s
}

/// Decode a compressed name: `length` is the pointer's first byte (top two
/// bits set); the second byte is read from the cursor, the decoder seeks to
/// the target, decodes the suffix there, and restores the cursor to just
/// past the pointer. A target already followed is a pointer loop and is
/// rejected.
fn decode_compressed_name(length: u8, reader: &mut Cursor, visited: &mut Vec<u16>) -> (r: Result<
    String,
    DnsError,
>)
    requires
        length >= 192,
        forall|i: int| 0 <= i < old(visited)@.len() ==> old(visited)@[i] < 320,
    ensures
        final(reader)@ == old(reader)@,
        forall|i: int| 0 <= i < final(visited)@.len() ==> final(visited)@[i] < 320,
        ({
            let buf = old(reader)@;
            let pos = old(reader).spec_pos();
            let vs = visited_set(old(visited)@);
            match r {
                Ok(s) => {
                    &&& pos + 1 <= buf.len()
                    &&& !vs.contains(ptr_target(length, buf[pos]))
                    &&& spec_decode_name(buf, ptr_target(length, buf[pos]), vs.insert(ptr_target(length, buf[pos]))) matches Some(p) && s@ == p.0
                    &&& final(reader).spec_pos() == pos + 1
                },
                Err(e) => {
                    &&& e is DecodeError
                    &&& (pos + 1 > buf.len() || vs.contains(ptr_target(length, buf[pos]))
                        || spec_decode_name(
                        buf,
                        ptr_target(length, buf[pos]),
                        vs.insert(ptr_target(length, buf[pos])),
                    ) is None)
                },
            }
        }),
    decreases
            visited_bound() - visited_set(visited@).len(),
            remaining(reader@, reader.spec_pos()),
            0int,
{
    let byte = match reader.read_u8() {
        Some(b) => b,
        None => {
            return Err(
                DnsError::DecodeError(
                    String::from_str(
                        "Failed decoding compressed DNS name: while reading pointer byte",
                    ),
                ),
            );
        },
    };
    let pointer: u16 = (length - 192) as u16 + byte as u16;
    if visited_contains(visited, pointer) {
        return Err(
            DnsError::DecodeError(String::from_str("Malformed DNS record: pointer loop detected")),
        );
    }
    visited.push(pointer);
    proof {
        lemma_visited_set_push(old(visited)@, pointer);
        lemma_visited_list_ok(visited@);
        lemma_visited_len_bound(visited_set(visited@));
    }
    let prev_position = reader.position();
    reader.set_position(pointer as usize);
    let res = inner_decode_dns_name(reader, visited);
    reader.set_position(prev_position);
    res
}

/// Decode a name from the cursor: labels until a 0 byte, or a compression
/// pointer that continues the name elsewhere in the message.
#[verifier::loop_isolation(false)]
fn inner_decode_dns_name(reader: &mut Cursor, visited: &mut Vec<u16>) -> (r: Result<
    String,
    DnsError,
>)
    requires
        forall|i: int| 0 <= i < old(visited)@.len() ==> old(visited)@[i] < 320,
    ensures
        final(reader)@ == old(reader)@,
        forall|i: int| 0 <= i < final(visited)@.len() ==> final(visited)@[i] < 320,
        ({
            let d = spec_decode_name(
                old(reader)@,
                old(reader).spec_pos(),
                visited_set(old(visited)@),
            );
            match r {
                Ok(s) => d matches Some(p) && s@ == p.0 && final(reader).spec_pos() == p.1,
                Err(e) => d is None && e is DecodeError,
            }
        }),
    decreases
            visited_bound() - visited_set(visited@).len(),
            remaining(reader@, reader.spec_pos()),
            1int,
{
    let ghost buf = reader@;
    let ghost pos0 = reader.spec_pos();
    let ghost v0 = visited@;
    proof {
        lemma_visited_list_ok(v0);
    }
    let mut parts: Vec<String> = Vec::new();
    loop
        invariant
            reader@ == buf,
            visited@ == v0,
            forall|i: int| 0 <= i < v0.len() ==> v0[i] < 320,
            visited_ok(visited_set(v0)),
            0 <= pos0 <= reader.spec_pos(),
            spec_decode_parts(buf, pos0, visited_set(v0)) == (match spec_decode_parts(
                buf,
                reader.spec_pos(),
                visited_set(v0),
            ) {
                Some(p) => Some::<(Seq<Seq<char>>, int)>(
                    (parts.deep_view() + p.0, p.1),
                ),
                None => None::<(Seq<Seq<char>>, int)>,
            }),
        decreases remaining(buf, reader.spec_pos()),
    {
        let ghost pos_cur = reader.spec_pos();
        let length = match reader.read_u8() {
            Some(b) => b,
            None => {
                return Err(
                    DnsError::DecodeError(
                        String::from_str("Failed decoding DNS name: while reading length"),
                    ),
                );
            },
        };
        if length == 0 {
            let joined = join_with_dots(&parts);
            proof {
                assert(parts.deep_view() + Seq::<Seq<char>>::empty() =~= parts.deep_view());
            }
            return Ok(joined);
        } else if length >= 192 {
            let sub = match decode_compressed_name(length, reader, visited) {
                Ok(s) => s,
                Err(e) => {
                    return Err(e);
                },
            };
            let ghost sub_view = sub@;
            let ghost parts_before = parts.deep_view();
            parts.push(sub);
            proof {
                assert(parts.deep_view() =~= parts_before + seq![sub_view]);
            }
            let joined = join_with_dots(&parts);
            proof {
                let t = ptr_target(length, buf[pos_cur + 1]);
                assert(spec_decode_parts(buf, pos_cur, visited_set(v0)) == Some::<(
                    Seq<Seq<char>>,
                    int,
                )>((seq![sub_view], pos_cur + 2)));
            }
            return Ok(joined);
        } else if length > 63 {
            return Err(
                DnsError::DecodeError(
                    String::from_str("Malformed DNS record: reserved bits in label length"),
                ),
            );
        } else {
            let data = match reader.read_bytes(length as usize) {
                Some(v) => v,
                None => {
                    return Err(
                        DnsError::DecodeError(
                            String::from_str(
                                "Failed decoding DNS name: while reading name segment",
                            ),
                        ),
                    );
                },
            };
            if !check_all_ascii(&data) {
                return Err(
                    DnsError::DecodeError(
                        String::from_str("Failed decoding DNS name: while decoding name segment"),
                    ),
                );
            }
            let part = ascii_bytes_to_string(data);
            let ghost part_view = part@;
            parts.push(part);
            proof {
                assert(parts.deep_view() =~= parts.deep_view().take(parts.deep_view().len() - 1)
                    + seq![part_view]);
                assert forall|rest: Seq<Seq<char>>|
                    true implies (parts.deep_view().take(parts.deep_view().len() - 1) + (
                seq![part_view] + rest)) =~= (parts.deep_view() + rest) by {}
            }
        }
    }
}

/// A well-formed domain name in presentation form: every `'.'`-separated
/// label has one to 63 characters.
pub open spec fn valid_dns_name(s: Seq<char>) -> bool
    decreases s.len(),
{
    let i = first_dot(s);
    if 0 <= i < s.len() {
        1 <= i <= 63 && valid_dns_name(s.skip(i + 1))
    } else {
        1 <= s.len() <= 63
    }
}

/// A well-formed name is one the encoder accepts.
pub proof fn lemma_valid_name_encode_ok(s: Seq<char>)
    requires
        valid_dns_name(s),
    ensures
        encode_ok(s),
    decreases s.len(),
{
    let i = first_dot(s);
    if 0 <= i < s.len() {
        lemma_valid_name_encode_ok(s.skip(i + 1));
    }
}

/// A byte of an embedded block, read through the surrounding buffer.
pub proof fn lemma_embedded_byte(buf: Seq<u8>, pos: int, eb: Seq<u8>, k: int)
    requires
        0 <= pos,
        pos + eb.len() <= buf.len(),
        buf.subrange(pos, pos + eb.len()) == eb,
        0 <= k < eb.len(),
    ensures
        buf[pos + k] == eb[k],
{
    assert(buf.subrange(pos, pos + eb.len())[k] == buf[pos + k]);
}

/// A slice of an embedded block, read through the surrounding buffer.
pub proof fn lemma_embedded_subrange(buf: Seq<u8>, pos: int, eb: Seq<u8>, lo: int, hi: int)
    requires
        0 <= pos,
        pos + eb.len() <= buf.len(),
        buf.subrange(pos, pos + eb.len()) == eb,
        0 <= lo <= hi <= eb.len(),
    ensures
        buf.subrange(pos + lo, pos + hi) == eb.subrange(lo, hi),
{
    assert(buf.subrange(pos + lo, pos + hi) =~= eb.subrange(lo, hi)) by {
        assert forall|m: int| 0 <= m < hi - lo implies buf.subrange(pos + lo, pos + hi)[m]
            == eb.subrange(lo, hi)[m] by {
            assert(buf.subrange(pos + lo, pos + hi)[m] == buf[pos + lo + m]);
            assert(buf.subrange(pos, pos + eb.len())[lo + m] == buf[pos + lo + m]);
            assert(eb.subrange(lo, hi)[m] == eb[lo + m]);
        }
    }
}

/// A well-formed name encodes to two bytes more than its characters: one
/// length byte per label and the terminator.
pub proof fn lemma_encoded_name_len(s: Seq<char>)
    requires
        valid_dns_name(s),
    ensures
        encoded_name(s).len() == s.len() + 2,
    decreases s.len(),
{
    let i = first_dot(s);
    lemma_first_dot_props(s);
    if 0 <= i < s.len() {
        lemma_encoded_name_len(s.skip(i + 1));
        assert(encoded_name(s) =~= seq![i as u8] + chars_to_bytes(s.take(i)) + encoded_name(
            s.skip(i + 1),
        ));
    } else {
        assert(encoded_name(s) =~= seq![s.len() as u8] + chars_to_bytes(s) + seq![0u8]);
    }
}

/// Decoding an encoded well-formed name laid down at `pos` in a larger
/// buffer yields the name's labels and ends just past its bytes; the
/// buffer's other contents and the visited set play no part.
pub proof fn lemma_decode_encoded_at(buf: Seq<u8>, pos: int, s: Seq<char>, visited: Set<int>)
    requires
        visited_ok(visited),
        vstd::utf8::is_ascii_chars(s),
        valid_dns_name(s),
        0 <= pos,
        pos + encoded_name(s).len() <= buf.len(),
        buf.subrange(pos, pos + encoded_name(s).len()) == encoded_name(s),
    ensures
        spec_decode_name(buf, pos, visited) matches Some(p) && p.0 == s && p.1 == pos
            + encoded_name(s).len(),
    decreases s.len(),
{
    broadcast use vstd::utf8::is_ascii_chars_nat_bound;

    let eb = encoded_name(s);
    let i = first_dot(s);
    lemma_first_dot_props(s);
    if i < s.len() {
        // a dotted name: one label, then the rest of the name
        let label = s.take(i);
        let tail = s.skip(i + 1);
        let et = encoded_name(tail);
        assert(eb =~= seq![i as u8] + chars_to_bytes(label) + et);
        assert(eb[0] == i as u8);
        lemma_embedded_byte(buf, pos, eb, 0);
        assert(buf[pos] == i as u8);
        assert(1 <= i <= 63);
        assert(pos + 1 + i <= buf.len());
        assert(buf.subrange(pos + 1, pos + 1 + i) =~= chars_to_bytes(label)) by {
            assert forall|m: int| 0 <= m < i implies buf.subrange(pos + 1, pos + 1 + i)[m]
                == chars_to_bytes(label)[m] by {
                lemma_embedded_byte(buf, pos, eb, 1 + m);
                assert(buf.subrange(pos + 1, pos + 1 + i)[m] == buf[pos + 1 + m]);
                assert(eb[1 + m] == chars_to_bytes(label)[m]);
            }
        }
        assert(all_ascii(buf.subrange(pos + 1, pos + 1 + i))) by {
            assert forall|m: int| 0 <= m < i implies (#[trigger] buf.subrange(
                pos + 1,
                pos + 1 + i,
            )[m] < 128) by {
                assert(chars_to_bytes(label)[m] == label[m] as u8);
                assert((s[m] as nat) < 128);
            }
        }
        assert(ascii_to_chars(buf.subrange(pos + 1, pos + 1 + i)) =~= label) by {
            assert forall|m: int| 0 <= m < i implies ascii_to_chars(
                buf.subrange(pos + 1, pos + 1 + i),
            )[m] == label[m] by {
                assert((s[m] as nat) < 128);
                assert(chars_to_bytes(label)[m] == label[m] as u8);
            }
        }
        assert(buf.subrange(pos + 1 + i, pos + 1 + i + et.len()) =~= et) by {
            assert forall|m: int| 0 <= m < et.len() implies buf.subrange(
                pos + 1 + i,
                pos + 1 + i + et.len(),
            )[m] == et[m] by {
                lemma_embedded_byte(buf, pos, eb, 1 + i + m);
                assert(buf.subrange(pos + 1 + i, pos + 1 + i + et.len())[m] == buf[pos + 1 + i
                    + m]);
                assert(eb[1 + i + m] == et[m]);
            }
        }
        lemma_decode_encoded_at(buf, pos + 1 + i, tail, visited);
        let rest = spec_decode_parts(buf, pos + 1 + i, visited);
        let rp = rest.unwrap();
        assert(join_parts(rp.0) == tail && rp.1 == pos + 1 + i + et.len());
        assert(spec_decode_parts(buf, pos, visited) == Some::<(Seq<Seq<char>>, int)>(
            (seq![label] + rp.0, rp.1),
        ));
        // joining the first label back on restores the dotted name
        assert((seq![label] + rp.0).drop_first() =~= rp.0);
        assert((seq![label] + rp.0)[0] == label);
        if rp.0.len() == 0 {
            // impossible: the tail is a nonempty name, so it has a label
            assert(tail.len() >= 1) by {
                lemma_first_dot_props(tail);
            }
            assert(join_parts(rp.0) == Seq::<char>::empty());
            assert(false);
        }
        assert(join_parts(seq![label] + rp.0) == label + seq!['.'] + tail);
        assert(s =~= label + seq!['.'] + tail) by {
            assert(s[i] == '.');
        }
        assert(eb.len() == 1 + i + et.len());
    } else {
        // a single label, then the terminating 0 byte
        assert(eb =~= seq![s.len() as u8] + chars_to_bytes(s) + seq![0u8]);
        assert(eb[0] == s.len() as u8);
        lemma_embedded_byte(buf, pos, eb, 0);
        assert(buf[pos] == s.len() as u8);
        assert(1 <= s.len() <= 63);
        assert(buf.subrange(pos + 1, pos + 1 + s.len()) =~= chars_to_bytes(s)) by {
            assert forall|m: int| 0 <= m < s.len() implies buf.subrange(
                pos + 1,
                pos + 1 + s.len(),
            )[m] == chars_to_bytes(s)[m] by {
                lemma_embedded_byte(buf, pos, eb, 1 + m);
                assert(buf.subrange(pos + 1, pos + 1 + s.len())[m] == buf[pos + 1 + m]);
                assert(eb[1 + m] == chars_to_bytes(s)[m]);
            }
        }
        assert(all_ascii(buf.subrange(pos + 1, pos + 1 + s.len()))) by {
            assert forall|m: int| 0 <= m < s.len() implies (#[trigger] buf.subrange(
                pos + 1,
                pos + 1 + s.len(),
            )[m] < 128) by {
                assert(chars_to_bytes(s)[m] == s[m] as u8);
                assert((s[m] as nat) < 128);
            }
        }
        assert(ascii_to_chars(buf.subrange(pos + 1, pos + 1 + s.len())) =~= s) by {
            assert forall|m: int| 0 <= m < s.len() implies ascii_to_chars(
                buf.subrange(pos + 1, pos + 1 + s.len()),
            )[m] == s[m] by {
                assert((s[m] as nat) < 128);
                assert(chars_to_bytes(s)[m] == s[m] as u8);
            }
        }
        assert(eb[1 + s.len() as int] == 0);
        lemma_embedded_byte(buf, pos, eb, 1 + s.len() as int);
        assert(buf[pos + 1 + s.len()] == 0);
        assert(spec_decode_parts(buf, pos + 1 + s.len(), visited) == Some::<(Seq<Seq<char>>, int)>(
            (Seq::empty(), pos + s.len() + 2),
        ));
        assert(spec_decode_parts(buf, pos, visited) == Some::<(Seq<Seq<char>>, int)>(
            (seq![s] + Seq::<Seq<char>>::empty(), pos + s.len() + 2),
        ));
        assert(seq![s] + Seq::<Seq<char>>::empty() =~= seq![s]);
        assert(join_parts(seq![s]) == s);
        assert(eb.len() == s.len() + 2);
    }
}

/// The name codec round-trips: decoding the encoding of any well-formed
/// domain name yields that name again, consuming exactly its bytes.
pub proof fn lemma_name_codec_round_trip(s: Seq<char>)
    requires
        vstd::utf8::is_ascii_chars(s),
        valid_dns_name(s),
    ensures
        spec_decode_name(encoded_name(s), 0, Set::empty()) == Some(
            (s, encoded_name(s).len() as int),
        ),
{
    assert(visited_ok(Set::empty())) by {
        assert(Set::<int>::empty().subset_of(set_int_range(0, visited_bound())));
    }
    assert(encoded_name(s).subrange(0, encoded_name(s).len() as int) =~= encoded_name(s));
    lemma_decode_encoded_at(encoded_name(s), 0, s, Set::empty());
}

/// A length byte over 63 that lacks the pointer mark (its top two bits are
/// `01` or `10`, reserved values) never decodes.
pub proof fn lemma_reserved_length_rejected(buf: Seq<u8>, pos: int, visited: Set<int>)
    requires
        visited_ok(visited),
        0 <= pos < buf.len(),
        63 < buf[pos] < 192,
    ensures
        spec_decode_name(buf, pos, visited) is None,
{
}

/// A compression pointer whose target was already followed during this
/// decode never decodes: a pointer cycle is rejected rather than followed.
pub proof fn lemma_pointer_loop_rejected(buf: Seq<u8>, pos: int, visited: Set<int>)
    requires
        visited_ok(visited),
        0 <= pos,
        pos + 2 <= buf.len(),
        buf[pos] >= 192,
        visited.contains(ptr_target(buf[pos], buf[pos + 1])),
    ensures
        spec_decode_name(buf, pos, visited) is None,
{
}

/// Decode a domain name from the cursor, rejecting malformed input: a
/// truncated message, a reserved length byte, a non-ASCII label, or a
/// compression-pointer loop. The decoder is total: it terminates on every
/// input and never panics.
pub fn decode_dns_name(reader: &mut Cursor) -> (r: Result<String, DnsError>)
    ensures
        final(reader)@ == old(reader)@,
        ({
            let d = spec_decode_name(old(reader)@, old(reader).spec_pos(), Set::empty());
            match r {
                Ok(s) => d matches Some(p) && s@ == p.0 && final(reader).spec_pos() == p.1,
                Err(e) => d is None && e is DecodeError,
            }
        }),
{
    let mut visited: Vec<u16> = Vec::new();
    proof {
        assert(visited_set(visited@) =~= Set::<int>::empty());
    }
    inner_decode_dns_name(reader, &mut visited)
}

} // verus!
