//! Big-endian byte codec for the wire format.
//!
//! Every multi-byte integer on the wire is big-endian. Writing appends to a
//! byte vector; reading consumes from a `PacketReader` that carries a cursor
//! over an owned buffer and refuses to read past its end.

use vstd::prelude::*;

verus! {

/// The two big-endian bytes of a 16-bit value, most significant first.
pub open spec fn u16_be_bytes(v: u16) -> Seq<u8> {
    seq![(v / 256) as u8, (v % 256) as u8]
}

/// The 16-bit value held by two big-endian bytes.
pub open spec fn u16_from_be(hi: u8, lo: u8) -> u16 {
    (hi * 256 + lo) as u16
}

/// The four big-endian bytes of a 32-bit value.
pub open spec fn u32_be_bytes(v: u32) -> Seq<u8> {
    seq![
        (v / 0x1000000) as u8,
        ((v / 0x10000) % 256) as u8,
        ((v / 256) % 256) as u8,
        (v % 256) as u8,
    ]
}

/// The 32-bit value held by four big-endian bytes.
pub open spec fn u32_from_be(b0: u8, b1: u8, b2: u8, b3: u8) -> u32 {
    (b0 * 0x1000000 + b1 * 0x10000 + b2 * 256 + b3) as u32
}

/// Reading back the written bytes of a 16-bit value gives the value.
pub proof fn lemma_u16_be_round_trip(v: u16)
    ensures
        u16_from_be(u16_be_bytes(v)[0], u16_be_bytes(v)[1]) == v,
{
}

/// Reading back the written bytes of a 32-bit value gives the value.
pub proof fn lemma_u32_be_round_trip(v: u32)
    ensures
        u32_from_be(u32_be_bytes(v)[0], u32_be_bytes(v)[1], u32_be_bytes(v)[2], u32_be_bytes(v)[3])
            == v,
{
}

/// Append one byte.
pub fn write_u8(out: &mut Vec<u8>, v: u8)
    ensures
        final(out)@ == old(out)@.push(v),
{
    out.push(v);
}

/// Append the two big-endian bytes of `v`.
pub fn write_u16_be(out: &mut Vec<u8>, v: u16)
    ensures
        final(out)@ == old(out)@ + u16_be_bytes(v),
{
    out.push((v / 256) as u8);
    out.push((v % 256) as u8);
    assert(out@ =~= old(out)@ + u16_be_bytes(v));
}

/// Append the four big-endian bytes of `v`.
pub fn write_u32_be(out: &mut Vec<u8>, v: u32)
    ensures
        final(out)@ == old(out)@ + u32_be_bytes(v),
{
    out.push((v / 0x1000000) as u8);
    out.push(((v / 0x10000) % 256) as u8);
    out.push(((v / 256) % 256) as u8);
    out.push((v % 256) as u8);
    assert(out@ =~= old(out)@ + u32_be_bytes(v));
}

/// A cursor over an owned packet payload. Reads never pass the end: each
/// one answers `None` on a truncated buffer and leaves the cursor in place.
pub struct PacketReader {
    pub buf: Vec<u8>,
    pub pos: usize,
}

impl PacketReader {
    /// The bytes not yet consumed.
    pub open spec fn remaining(self) -> Seq<u8> {
        self.buf@.skip(self.pos as int)
    }

    pub open spec fn wf(self) -> bool {
        self.pos <= self.buf@.len()
    }

    pub fn new(buf: Vec<u8>) -> (r: PacketReader)
        ensures
            r.wf(),
            r.buf@ == buf@,
            r.pos == 0,
            r.remaining() == buf@,
    {
        let r = PacketReader { buf, pos: 0 };
        assert(r.remaining() =~= r.buf@);
        r
    }

    /// Read one byte, advancing the cursor.
    pub fn read_u8(&mut self) -> (r: Option<u8>)
        requires
            old(self).wf(),
        ensures
            final(self).wf(),
            final(self).buf@ == old(self).buf@,
            old(self).remaining().len() >= 1 ==> r == Some(old(self).remaining()[0])
                && final(self).remaining() == old(self).remaining().skip(1),
            old(self).remaining().len() == 0 ==> r.is_none() && *final(self) == *old(self),
    {
        if self.pos < self.buf.len() {
            let b = self.buf[self.pos];
            self.pos = self.pos + 1;
            assert(self.remaining() =~= old(self).remaining().skip(1));
            Some(b)
        } else {
            None
        }
    }

    /// Read a big-endian 16-bit value, advancing the cursor by two.
    pub fn read_u16_be(&mut self) -> (r: Option<u16>)
        requires
            old(self).wf(),
        ensures
            final(self).wf(),
            final(self).buf@ == old(self).buf@,
            old(self).remaining().len() >= 2 ==> r == Some(
                u16_from_be(old(self).remaining()[0], old(self).remaining()[1]),
            ) && final(self).remaining() == old(self).remaining().skip(2),
            old(self).remaining().len() < 2 ==> r.is_none() && *final(self) == *old(self),
    {
        if self.buf.len() - self.pos >= 2 {
            let hi = self.buf[self.pos];
            let lo = self.buf[self.pos + 1];
            self.pos = self.pos + 2;
            assert(self.remaining() =~= old(self).remaining().skip(2));
            Some(hi as u16 * 256 + lo as u16)
        } else {
            None
        }
    }

    /// Read a big-endian 32-bit value, advancing the cursor by four.
    pub fn read_u32_be(&mut self) -> (r: Option<u32>)
        requires
            old(self).wf(),
        ensures
            final(self).wf(),
            final(self).buf@ == old(self).buf@,
            old(self).remaining().len() >= 4 ==> r == Some(
                u32_from_be(
                    old(self).remaining()[0],
                    old(self).remaining()[1],
                    old(self).remaining()[2],
                    old(self).remaining()[3],
                ),
            ) && final(self).remaining() == old(self).remaining().skip(4),
            old(self).remaining().len() < 4 ==> r.is_none() && *final(self) == *old(self),
    {
        if self.buf.len() - self.pos >= 4 {
            let b0 = self.buf[self.pos];
            let b1 = self.buf[self.pos + 1];
            let b2 = self.buf[self.pos + 2];
            let b3 = self.buf[self.pos + 3];
            self.pos = self.pos + 4;
            assert(self.remaining() =~= old(self).remaining().skip(4));
            Some(b0 as u32 * 0x1000000 + b1 as u32 * 0x10000 + b2 as u32 * 256 + b3 as u32)
        } else {
            None
        }
    }

    /// Read `n` raw bytes, advancing the cursor by `n`.
    pub fn read_bytes(&mut self, n: usize) -> (r: Option<Vec<u8>>)
        requires
            old(self).wf(),
        ensures
            final(self).wf(),
            final(self).buf@ == old(self).buf@,
            old(self).remaining().len() >= n ==> r.is_some()
                && r.unwrap()@ == old(self).remaining().take(n as int)
                && final(self).remaining() == old(self).remaining().skip(n as int),
            old(self).remaining().len() < n ==> r.is_none() && *final(self) == *old(self),
    {
        if n <= self.buf.len() - self.pos {
            let end: usize = self.pos + n;
            let mut out: Vec<u8> = Vec::new();
            let mut i: usize = 0;
            while i < n
                invariant
                    i <= n,
                    end == self.pos + n,
                    end <= self.buf@.len(),
                    out@ == self.buf@.subrange(self.pos as int, self.pos + i),
                decreases n - i,
            {
                out.push(self.buf[self.pos + i]);
                i = i + 1;
                assert(out@ =~= self.buf@.subrange(self.pos as int, self.pos + i));
            }
            let ghost oldrem = old(self).remaining();
            self.pos = self.pos + n;
            assert(out@ =~= oldrem.take(n as int));
            assert(self.remaining() =~= oldrem.skip(n as int));
            Some(out)
        } else {
            None
        }
    }
}

} // verus!
