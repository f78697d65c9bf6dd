//! The fixed 12-byte DNS message header: six big-endian 16-bit fields.

use vstd::prelude::*;

use crate::cursor::{be16, u16_be_bytes, Cursor};
use crate::error::DnsError;

verus! {

/// A DNS message header: transaction id, flags word, and the four section
/// counters.
#[derive(Debug, PartialEq, Eq, Structural, Clone, Copy)]
pub struct DnsHeader {
    pub id: u16,
    pub flags: u16,
    pub num_questions: u16,
    pub num_answers: u16,
    pub num_authorities: u16,
    pub num_additionals: u16,
}

/// The 12-byte wire encoding of a header.
pub open spec fn header_bytes(h: DnsHeader) -> Seq<u8> {
    u16_be_bytes(h.id) + u16_be_bytes(h.flags) + u16_be_bytes(h.num_questions) + u16_be_bytes(
        h.num_answers,
    ) + u16_be_bytes(h.num_authorities) + u16_be_bytes(h.num_additionals)
}

/// The header read from 12 bytes of `buf` starting at `pos`.
pub open spec fn parse_header(buf: Seq<u8>, pos: int) -> DnsHeader {
    DnsHeader {
        id: be16(buf[pos], buf[pos + 1]),
        flags: be16(buf[pos + 2], buf[pos + 3]),
        num_questions: be16(buf[pos + 4], buf[pos + 5]),
        num_answers: be16(buf[pos + 6], buf[pos + 7]),
        num_authorities: be16(buf[pos + 8], buf[pos + 9]),
        num_additionals: be16(buf[pos + 10], buf[pos + 11]),
    }
}

/// Relies on `rand::random`: a sampled `u16`. Nothing is promised of the
/// value; a transaction id may be anything.
#[verifier::external_body]
fn random_u16() -> u16 {
    rand::random()
}

impl DnsHeader {
    /// Encode the header as its 12 wire bytes. Encoding a header never fails.
    pub fn to_bytes(&self) -> (r: Result<Vec<u8>, DnsError>)
        ensures
            r matches Ok(v) && v@ == header_bytes(*self),
    {
        let mut bytes: Vec<u8> = Vec::new();
        bytes.push((self.id / 256) as u8);
        bytes.push((self.id % 256) as u8);
        bytes.push((self.flags / 256) as u8);
        bytes.push((self.flags % 256) as u8);
        bytes.push((self.num_questions / 256) as u8);
        bytes.push((self.num_questions % 256) as u8);
        bytes.push((self.num_answers / 256) as u8);
        bytes.push((self.num_answers % 256) as u8);
        bytes.push((self.num_authorities / 256) as u8);
        bytes.push((self.num_authorities % 256) as u8);
        bytes.push((self.num_additionals / 256) as u8);
        bytes.push((self.num_additionals % 256) as u8);
        proof {
            assert(bytes@ =~= header_bytes(*self));
        }
        Ok(bytes)
    }

    /// Decode a header from the next 12 bytes under the cursor. Fails exactly
    /// when fewer than 12 bytes remain.
    pub fn from_bytes(reader: &mut Cursor) -> (r: Result<DnsHeader, DnsError>)
        ensures
            final(reader)@ == old(reader)@,
            match r {
                Ok(h) => old(reader).spec_pos() + 12 <= old(reader)@.len() && h == parse_header(
                    old(reader)@,
                    old(reader).spec_pos(),
                ) && final(reader).spec_pos() == old(reader).spec_pos() + 12,
                Err(e) => old(reader).spec_pos() + 12 > old(reader)@.len() && e is DecodeError,
            },
    {
        let id = match reader.read_u16_be() {
            Some(x) => x,
            None => {
                return Err(
                    DnsError::DecodeError(String::from_str("Failed to read exact bytes from cursor")),
                );
            },
        };
        let flags = match reader.read_u16_be() {
            Some(x) => x,
            None => {
                return Err(
                    DnsError::DecodeError(String::from_str("Failed to read exact bytes from cursor")),
                );
            },
        };
        let num_questions = match reader.read_u16_be() {
            Some(x) => x,
            None => {
                return Err(
                    DnsError::DecodeError(String::from_str("Failed to read exact bytes from cursor")),
                );
            },
        };
        let num_answers = match reader.read_u16_be() {
            Some(x) => x,
            None => {
                return Err(
                    DnsError::DecodeError(String::from_str("Failed to read exact bytes from cursor")),
                );
            },
        };
        let num_authorities = match reader.read_u16_be() {
            Some(x) => x,
            None => {
                return Err(
                    DnsError::DecodeError(String::from_str("Failed to read exact bytes from cursor")),
                );
            },
        };
        let num_additionals = match reader.read_u16_be() {
            Some(x) => x,
            None => {
                return Err(
                    DnsError::DecodeError(String::from_str("Failed to read exact bytes from cursor")),
                );
            },
        };
        Ok(DnsHeader { id, flags, num_questions, num_answers, num_authorities, num_additionals })
    }

    /// A header for a fresh single-question query: a random transaction id, a
    /// zero flags word (in particular recursion-desired is clear: this
    /// resolver walks the delegation tree itself), and one question.
    pub fn simple_query_header() -> (h: DnsHeader)
        ensures
            h.flags == 0,
            h.num_questions == 1,
            h.num_answers == 0,
            h.num_authorities == 0,
            h.num_additionals == 0,
    {
        let id: u16 = random_u16();
        let no_recursion: u16 = 0;
        DnsHeader {
            id,
            flags: no_recursion,
            num_questions: 1,
            num_answers: 0,
            num_authorities: 0,
            num_additionals: 0,
        }
    }
}

/// Encoding a header and reading it back yields the same header.
pub proof fn lemma_header_round_trip(h: DnsHeader)
    ensures
        parse_header(header_bytes(h), 0) == h,
{
    assert(parse_header(header_bytes(h), 0) == h);
}

/// A header's twelve bytes laid down at `pos` in a larger buffer parse back
/// to the header.
pub proof fn lemma_parse_header_at(buf: Seq<u8>, pos: int, h: DnsHeader)
    requires
        0 <= pos,
        pos + 12 <= buf.len(),
        buf.subrange(pos, pos + 12) == header_bytes(h),
    ensures
        parse_header(buf, pos) == h,
{
    let hb = header_bytes(h);
    assert forall|k: int| 0 <= k < 12 implies buf[pos + k] == hb[k] by {
        assert(buf.subrange(pos, pos + 12)[k] == buf[pos + k]);
    }
    assert(hb =~= seq![
        (h.id / 256) as u8,
        (h.id % 256) as u8,
        (h.flags / 256) as u8,
        (h.flags % 256) as u8,
        (h.num_questions / 256) as u8,
        (h.num_questions % 256) as u8,
        (h.num_answers / 256) as u8,
        (h.num_answers % 256) as u8,
        (h.num_authorities / 256) as u8,
        (h.num_authorities % 256) as u8,
        (h.num_additionals / 256) as u8,
        (h.num_additionals % 256) as u8,
    ]);
}

} // verus!
