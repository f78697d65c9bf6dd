//! A cursor over a message buffer. DNS name decompression follows pointers to
//! absolute offsets, so every codec reads through a cursor over the whole
//! message rather than over a single field's bytes.

use vstd::prelude::*;

verus! {

/// The value of two big-endian bytes.
pub open spec fn be16(b0: u8, b1: u8) -> u16 {
    (b0 * 256 + b1) as u16
}

/// The value of four big-endian bytes.
pub open spec fn be32(b0: u8, b1: u8, b2: u8, b3: u8) -> u32 {
    (b0 * 0x1000000 + b1 * 0x10000 + b2 * 0x100 + b3) as u32
}

/// The two big-endian bytes of a 16-bit value.
pub open spec fn u16_be_bytes(x: u16) -> Seq<u8> {
    seq![(x / 256) as u8, (x % 256) as u8]
}

/// The four big-endian bytes of a 32-bit value.
pub open spec fn u32_be_bytes(x: u32) -> Seq<u8> {
    seq![
        (x / 0x1000000) as u8,
        ((x / 0x10000) % 256) as u8,
        ((x / 0x100) % 256) as u8,
        (x % 256) as u8,
    ]
}

/// Splitting a 16-bit value into its big-endian bytes and reading them
/// back yields the value.
pub proof fn lemma_be16_round_trip(x: u16)
    ensures
        be16((x / 256) as u8, (x % 256) as u8) == x,
{
}

/// Splitting a 32-bit value into its big-endian bytes and reading them
/// back yields the value.
pub proof fn lemma_be32_round_trip(x: u32)
    ensures
        be32(
            (x / 0x1000000) as u8,
            ((x / 0x10000) % 256) as u8,
            ((x / 0x100) % 256) as u8,
            (x % 256) as u8,
        ) == x,
{
    assert(x == 0x100 * (x / 0x100) + x % 0x100);
    assert(x / 0x100 == 0x100 * (x / 0x10000) + (x / 0x100) % 0x100) by {
        assert(x / 0x100 / 0x100 == x / 0x10000);
    }
    assert(x / 0x10000 == 0x100 * (x / 0x1000000) + (x / 0x10000) % 0x100) by {
        assert(x / 0x10000 / 0x100 == x / 0x1000000);
    }
}

/// A read cursor over an immutable byte buffer. Reads past the end fail and
/// leave the position unchanged; the position may be moved freely, as the
/// name decoder seeks to compression-pointer targets.
pub struct Cursor {
    data: Vec<u8>,
    pos: usize,
}

impl View for Cursor {
    type V = Seq<u8>;

    closed spec fn view(&self) -> Seq<u8> {
        self.data@
    }
}

/// A cursor's position is never negative.
pub broadcast proof fn lemma_cursor_pos_nonneg(c: Cursor)
    ensures
        0 <= #[trigger] c.spec_pos(),
{
}

impl Cursor {
    /// The current read position.
    pub closed spec fn spec_pos(&self) -> int {
        self.pos as int
    }

    /// A cursor over a copy of the given bytes, positioned at the start.
    pub fn new(data: &[u8]) -> (c: Cursor)
        ensures
            c@ == data@,
            c.spec_pos() == 0,
    {
        Cursor { data: vstd::slice::slice_to_vec(data), pos: 0 }
    }

    /// The current read position.
    pub fn position(&self) -> (p: usize)
        ensures
            p == self.spec_pos(),
    {
        self.pos
    }

    /// Move the read position to an arbitrary offset (it may lie past the
    /// end, in which case every later read fails).
    pub fn set_position(&mut self, pos: usize)
        ensures
            final(self)@ == old(self)@,
            final(self).spec_pos() == pos,
    {
        self.pos = pos;
    }

    /// The length of the underlying buffer.
    pub fn len(&self) -> (n: usize)
        ensures
            n == self@.len(),
    {
        self.data.len()
    }

    /// Read one byte and advance, or fail without moving.
    pub fn read_u8(&mut self) -> (r: Option<u8>)
        ensures
            final(self)@ == old(self)@,
            match r {
                Some(b) => old(self).spec_pos() + 1 <= final(self)@.len() && b == final(self)@[old(
                    self,
                ).spec_pos()] && final(self).spec_pos() == old(self).spec_pos() + 1,
                None => old(self).spec_pos() + 1 > final(self)@.len() && final(self).spec_pos() == old(
                    self,
                ).spec_pos(),
            },
    {
        if self.pos < self.data.len() {
            let b = self.data[self.pos];
            self.pos = self.pos + 1;
            Some(b)
        } else {
            None
        }
    }

    /// Read two bytes as a big-endian 16-bit value and advance, or fail
    /// without moving.
    pub fn read_u16_be(&mut self) -> (r: Option<u16>)
        ensures
            final(self)@ == old(self)@,
            match r {
                Some(x) => old(self).spec_pos() + 2 <= final(self)@.len() && x == be16(
                    final(self)@[old(self).spec_pos()],
                    final(self)@[old(self).spec_pos() + 1],
                ) && final(self).spec_pos() == old(self).spec_pos() + 2,
                None => old(self).spec_pos() + 2 > final(self)@.len() && final(self).spec_pos() == old(
                    self,
                ).spec_pos(),
            },
    {
        if self.pos < self.data.len() && self.data.len() - self.pos >= 2 {
            let b0 = self.data[self.pos];
            let b1 = self.data[self.pos + 1];
            self.pos = self.pos + 2;
            Some((b0 as u16) * 256 + (b1 as u16))
        } else {
            None
        }
    }

    /// Read four bytes as a big-endian 32-bit value and advance, or fail
    /// without moving.
    pub fn read_u32_be(&mut self) -> (r: Option<u32>)
        ensures
            final(self)@ == old(self)@,
            match r {
                Some(x) => old(self).spec_pos() + 4 <= final(self)@.len() && x == be32(
                    final(self)@[old(self).spec_pos()],
                    final(self)@[old(self).spec_pos() + 1],
                    final(self)@[old(self).spec_pos() + 2],
                    final(self)@[old(self).spec_pos() + 3],
                ) && final(self).spec_pos() == old(self).spec_pos() + 4,
                None => old(self).spec_pos() + 4 > final(self)@.len() && final(self).spec_pos() == old(
                    self,
                ).spec_pos(),
            },
    {
        if self.pos < self.data.len() && self.data.len() - self.pos >= 4 {
            let b0 = self.data[self.pos];
            let b1 = self.data[self.pos + 1];
            let b2 = self.data[self.pos + 2];
            let b3 = self.data[self.pos + 3];
            self.pos = self.pos + 4;
            Some(
                (b0 as u32) * 0x1000000 + (b1 as u32) * 0x10000 + (b2 as u32) * 0x100 + (b3 as u32),
            )
        } else {
            None
        }
    }

    /// Read exactly `n` bytes and advance, or fail without moving.
    pub fn read_bytes(&mut self, n: usize) -> (r: Option<Vec<u8>>)
        ensures
            final(self)@ == old(self)@,
            match r {
                Some(v) => old(self).spec_pos() + n <= final(self)@.len() && v@ == final(self)@.subrange(
                    old(self).spec_pos(),
                    old(self).spec_pos() + n,
                ) && final(self).spec_pos() == old(self).spec_pos() + n,
                None => old(self).spec_pos() + n > final(self)@.len() && final(self).spec_pos() == old(
                    self,
                ).spec_pos(),
            },
    {
        if self.pos <= self.data.len() && self.data.len() - self.pos >= n {
            let mut v: Vec<u8> = Vec::new();
            let mut i: usize = 0;
            while i < n
                invariant
                    i <= n,
                    self.pos + n <= self.data.len(),
                    v@ == self.data@.subrange(self.pos as int, self.pos + i),
                decreases n - i,
            {
                v.push(self.data[self.pos + i]);
                assert(v@ =~= self.data@.subrange(self.pos as int, self.pos + i + 1));
                i = i + 1;
            }
            self.pos = self.pos + n;
            Some(v)
        } else {
            None
        }
    }
}

} // verus!
