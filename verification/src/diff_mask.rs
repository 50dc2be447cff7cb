//! Per-component dirty-bit masks.
//!
//! A `DiffMask` is a fixed-width bit array with one bit per declared
//! property of a component. Property mutators set bits; the entity manager
//! drains them into update actions. The width is fixed when the component
//! is registered and never changes afterwards.

use vstd::prelude::*;

use crate::bytes::{write_u8, PacketReader};

verus! {

/// Whether bit `k` of byte `b` is set.
pub open spec fn byte_bit(b: u8, k: u8) -> bool
    recommends
        k < 8,
{
    (b >> k) & 1 == 1
}

/// Whether bit `i` of the mask bytes `s` is set.
pub open spec fn mask_bit(s: Seq<u8>, i: int) -> bool {
    &&& 0 <= i < s.len() * 8
    &&& byte_bit(s[i / 8], (i % 8) as u8)
}

/// Bit `k` of `b | c` is the disjunction of the operands' bits.
pub proof fn lemma_or_bit(b: u8, c: u8, k: u8)
    requires
        k < 8,
    ensures
        byte_bit(b | c, k) == (byte_bit(b, k) || byte_bit(c, k)),
{
    assert(((b | c) >> k) & 1 == if ((b >> k) & 1 == 1) || ((c >> k) & 1 == 1) {
        1u8
    } else {
        0u8
    }) by (bit_vector)
        requires
            k < 8,
    ;
}

/// Bit `k` of `b & !c` is set exactly when set in `b` and clear in `c`.
pub proof fn lemma_nand_bit(b: u8, c: u8, k: u8)
    requires
        k < 8,
    ensures
        byte_bit(b & !c, k) == (byte_bit(b, k) && !byte_bit(c, k)),
{
    assert(((b & !c) >> k) & 1 == if ((b >> k) & 1 == 1) && !((c >> k) & 1 == 1) {
        1u8
    } else {
        0u8
    }) by (bit_vector)
        requires
            k < 8,
    ;
}

/// Setting bit `k` leaves every other bit of the byte in place.
pub proof fn lemma_set_bit(b: u8, k: u8, j: u8)
    requires
        k < 8,
        j < 8,
    ensures
        byte_bit(b | (1u8 << k), j) == (j == k || byte_bit(b, j)),
{
    assert(((b | (1u8 << k)) >> j) & 1 == if j == k || ((b >> j) & 1 == 1) {
        1u8
    } else {
        0u8
    }) by (bit_vector)
        requires
            k < 8,
            j < 8,
    ;
}

/// The zero byte has no bit set, and a byte with no bit set is zero.
pub proof fn lemma_zero_byte(b: u8)
    ensures
        b == 0 <==> forall|k: u8| k < 8 ==> !byte_bit(b, k),
{
    assert(b == 0 <==> ((b >> 0) & 1 != 1 && (b >> 1) & 1 != 1 && (b >> 2) & 1 != 1 && (b >> 3) & 1
        != 1 && (b >> 4) & 1 != 1 && (b >> 5) & 1 != 1 && (b >> 6) & 1 != 1 && (b >> 7) & 1 != 1))
        by (bit_vector);
    if (forall|k: u8| k < 8 ==> !byte_bit(b, k)) {
        assert(!byte_bit(b, 0) && !byte_bit(b, 1) && !byte_bit(b, 2) && !byte_bit(b, 3) && !byte_bit(
            b,
            4,
        ) && !byte_bit(b, 5) && !byte_bit(b, 6) && !byte_bit(b, 7));
    }
}

/// A bit index within a mask of `len` bytes lands on a byte of the mask.
pub proof fn lemma_bit_index_bounds(i: int, len: int)
    requires
        0 <= i < len * 8,
    ensures
        0 <= i / 8 < len,
        0 <= i % 8 < 8,
{
    assert(8 * (i / 8) + i % 8 == i);
    assert(i / 8 < len) by (nonlinear_arith)
        requires
            0 <= i < len * 8,
            8 * (i / 8) + i % 8 == i,
            0 <= i % 8 < 8,
    ;
}

/// Pointwise `a | b` over mask bytes of equal width.
pub open spec fn bytes_or(a: Seq<u8>, b: Seq<u8>) -> Seq<u8> {
    Seq::new(a.len(), |i: int| a[i] | b[i])
}

/// Pointwise `a & !b` over mask bytes of equal width.
pub open spec fn bytes_nand(a: Seq<u8>, b: Seq<u8>) -> Seq<u8> {
    Seq::new(a.len(), |i: int| a[i] & !b[i])
}

/// Bit semantics of `bytes_or`.
pub proof fn lemma_bytes_or_bits(a: Seq<u8>, b: Seq<u8>)
    requires
        a.len() == b.len(),
    ensures
        forall|i: int| mask_bit(bytes_or(a, b), i) == (mask_bit(a, i) || mask_bit(b, i)),
{
    lemma_mask_or_bits(a, b, bytes_or(a, b));
}

/// Bit semantics of `bytes_nand`.
pub proof fn lemma_bytes_nand_bits(a: Seq<u8>, b: Seq<u8>)
    requires
        a.len() == b.len(),
    ensures
        forall|i: int| mask_bit(bytes_nand(a, b), i) == (mask_bit(a, i) && !mask_bit(b, i)),
{
    lemma_mask_nand_bits(a, b, bytes_nand(a, b));
}

/// Bit semantics of a pointwise OR of mask bytes.
pub proof fn lemma_mask_or_bits(a: Seq<u8>, b: Seq<u8>, c: Seq<u8>)
    requires
        a.len() == b.len(),
        c.len() == a.len(),
        forall|j: int| 0 <= j < c.len() ==> c[j] == (a[j] | b[j]),
    ensures
        forall|i: int| mask_bit(c, i) == (mask_bit(a, i) || mask_bit(b, i)),
{
    assert forall|i: int| mask_bit(c, i) == (mask_bit(a, i) || mask_bit(b, i)) by {
        if 0 <= i < c.len() * 8 {
            lemma_bit_index_bounds(i, c.len() as int);
            assert(c[i / 8] == (a[i / 8] | b[i / 8]));
            lemma_or_bit(a[i / 8], b[i / 8], (i % 8) as u8);
        }
    }
}

/// Bit semantics of a pointwise AND-NOT of mask bytes.
pub proof fn lemma_mask_nand_bits(a: Seq<u8>, b: Seq<u8>, c: Seq<u8>)
    requires
        a.len() == b.len(),
        c.len() == a.len(),
        forall|j: int| 0 <= j < c.len() ==> c[j] == (a[j] & !b[j]),
    ensures
        forall|i: int| mask_bit(c, i) == (mask_bit(a, i) && !mask_bit(b, i)),
{
    assert forall|i: int| mask_bit(c, i) == (mask_bit(a, i) && !mask_bit(b, i)) by {
        if 0 <= i < c.len() * 8 {
            lemma_bit_index_bounds(i, c.len() as int);
            assert(c[i / 8] == (a[i / 8] & !b[i / 8]));
            lemma_nand_bit(a[i / 8], b[i / 8], (i % 8) as u8);
        }
    }
}

/// A dirty-bit mask over a component's properties, eight bits to the byte.
pub struct DiffMask {
    pub bytes: Vec<u8>,
}

impl DeepView for DiffMask {
    type V = Seq<u8>;

    open spec fn deep_view(&self) -> Seq<u8> {
        self.bytes@
    }
}

impl DiffMask {
    /// The mask bytes; bit `i` of the mask is bit `i % 8` of byte `i / 8`.
    pub open spec fn view(self) -> Seq<u8> {
        self.bytes@
    }

    /// Wire form: one length byte, so a mask is at most 255 bytes wide.
    pub open spec fn wf(self) -> bool {
        self.bytes@.len() <= 255
    }

    /// A cleared mask of `byte_count` bytes.
    pub fn new(byte_count: u8) -> (r: DiffMask)
        ensures
            r.wf(),
            r@.len() == byte_count,
            forall|i: int| 0 <= i < byte_count ==> r@[i] == 0u8,
            forall|i: int| !mask_bit(r@, i),
    {
        let mut bytes: Vec<u8> = Vec::new();
        let mut i: usize = 0;
        while i < byte_count as usize
            invariant
                i <= byte_count,
                bytes@.len() == i,
                forall|j: int| 0 <= j < i ==> bytes@[j] == 0u8,
            decreases byte_count - i,
        {
            bytes.push(0u8);
            i = i + 1;
        }
        let r = DiffMask { bytes };
        proof {
            assert forall|i: int| !mask_bit(r@, i) by {
                if 0 <= i < r@.len() * 8 {
                    lemma_zero_byte(r@[i / 8]);
                }
            }
        }
        r
    }

    /// An identical copy.
    pub fn clone_mask(&self) -> (r: DiffMask)
        ensures
            r@ == self@,
    {
        let mut bytes: Vec<u8> = Vec::new();
        let mut i: usize = 0;
        while i < self.bytes.len()
            invariant
                i <= self.bytes@.len(),
                bytes@ == self.bytes@.take(i as int),
            decreases self.bytes@.len() - i,
        {
            bytes.push(self.bytes[i]);
            i = i + 1;
            assert(bytes@ =~= self.bytes@.take(i as int));
        }
        assert(bytes@ =~= self.bytes@);
        DiffMask { bytes }
    }

    /// Whether no bit is set.
    pub fn is_clear(&self) -> (r: bool)
        ensures
            r == forall|i: int| !mask_bit(self@, i),
    {
        let mut i: usize = 0;
        let mut clear = true;
        while i < self.bytes.len()
            invariant
                i <= self.bytes@.len(),
                clear == forall|j: int| 0 <= j < i ==> self.bytes@[j] == 0u8,
            decreases self.bytes@.len() - i,
        {
            if self.bytes[i] != 0 {
                clear = false;
            }
            i = i + 1;
        }
        proof {
            if clear {
                assert forall|j: int| !mask_bit(self@, j) by {
                    if 0 <= j < self@.len() * 8 {
                        lemma_zero_byte(self@[j / 8]);
                    }
                }
            } else {
                let j = choose|j: int| 0 <= j < self@.len() && self@[j] != 0u8;
                lemma_zero_byte(self@[j]);
                let k = choose|k: u8| k < 8 && byte_bit(self@[j], k);
                assert(mask_bit(self@, j * 8 + k)) by {
                    assert((j * 8 + k) / 8 == j && (j * 8 + k) % 8 == k) by (nonlinear_arith)
                        requires
                            0 <= j && k < 8,
                    ;
                    assert(j * 8 + k < self@.len() * 8) by (nonlinear_arith)
                        requires
                            j < self@.len() && k < 8,
                    ;
                }
            }
        }
        clear
    }

    /// Clear every bit.
    pub fn clear(&mut self)
        ensures
            final(self)@.len() == old(self)@.len(),
            forall|i: int| 0 <= i < final(self)@.len() ==> final(self)@[i] == 0u8,
            forall|i: int| !mask_bit(final(self)@, i),
    {
        let n = self.bytes.len();
        let mut i: usize = 0;
        while i < n
            invariant
                i <= n,
                self.bytes@.len() == n,
                forall|j: int| 0 <= j < i ==> self.bytes@[j] == 0u8,
            decreases n - i,
        {
            self.bytes[i] = 0u8;
            i = i + 1;
        }
        proof {
            assert forall|i: int| !mask_bit(self@, i) by {
                if 0 <= i < self@.len() * 8 {
                    lemma_zero_byte(self@[i / 8]);
                }
            }
        }
    }

    /// Whether bit `i` is set.
    pub fn get_bit(&self, i: usize) -> (r: bool)
        requires
            i < self@.len() * 8,
        ensures
            r == mask_bit(self@, i as int),
    {
        let byte = self.bytes[i / 8];
        let k: u8 = (i % 8) as u8;
        (byte >> k) & 1 == 1
    }

    /// Set bit `i`; every other bit keeps its value.
    pub fn set_bit(&mut self, i: usize)
        requires
            i < old(self)@.len() * 8,
        ensures
            final(self)@.len() == old(self)@.len(),
            mask_bit(final(self)@, i as int),
            forall|j: int| j != i ==> mask_bit(final(self)@, j) == mask_bit(old(self)@, j),
    {
        let idx = i / 8;
        let k: u8 = (i % 8) as u8;
        let b = self.bytes[idx];
        self.bytes[idx] = b | (1u8 << k);
        proof {
            lemma_set_bit(b, k, (i % 8) as u8);
            assert(mask_bit(self@, i as int));
            assert forall|j: int| j != i implies mask_bit(self@, j) == mask_bit(old(self)@, j) by {
                if 0 <= j < self@.len() * 8 {
                    if j / 8 == idx {
                        lemma_set_bit(b, k, (j % 8) as u8);
                        assert(j / 8 == i / 8 && j % 8 != i % 8);
                    }
                }
            }
        }
    }

    /// Set in `self` every bit set in `other`.
    pub fn or(&mut self, other: &DiffMask)
        requires
            old(self)@.len() == other@.len(),
        ensures
            final(self)@.len() == old(self)@.len(),
            forall|j: int| 0 <= j < final(self)@.len() ==> final(self)@[j] == (old(self)@[j]
                | other@[j]),
            forall|i: int|
                mask_bit(final(self)@, i) == (mask_bit(old(self)@, i) || mask_bit(other@, i)),
    {
        let n = self.bytes.len();
        let mut i: usize = 0;
        while i < n
            invariant
                i <= n,
                self.bytes@.len() == n,
                old(self)@.len() == n,
                other@.len() == n,
                forall|j: int| i <= j < n ==> self.bytes@[j] == old(self)@[j],
                forall|j: int| 0 <= j < i ==> self.bytes@[j] == (old(self)@[j] | other@[j]),
            decreases n - i,
        {
            self.bytes[i] = self.bytes[i] | other.bytes[i];
            i = i + 1;
        }
        proof {
            lemma_mask_or_bits(old(self)@, other@, self@);
        }
    }

    /// Clear in `self` every bit set in `other`.
    pub fn nand(&mut self, other: &DiffMask)
        requires
            old(self)@.len() == other@.len(),
        ensures
            final(self)@.len() == old(self)@.len(),
            forall|j: int| 0 <= j < final(self)@.len() ==> final(self)@[j] == (old(self)@[j]
                & !other@[j]),
            forall|i: int|
                mask_bit(final(self)@, i) == (mask_bit(old(self)@, i) && !mask_bit(other@, i)),
    {
        let n = self.bytes.len();
        let mut i: usize = 0;
        while i < n
            invariant
                i <= n,
                self.bytes@.len() == n,
                old(self)@.len() == n,
                other@.len() == n,
                forall|j: int| i <= j < n ==> self.bytes@[j] == old(self)@[j],
                forall|j: int| 0 <= j < i ==> self.bytes@[j] == (old(self)@[j] & !other@[j]),
            decreases n - i,
        {
            self.bytes[i] = self.bytes[i] & !other.bytes[i];
            i = i + 1;
        }
        proof {
            lemma_mask_nand_bits(old(self)@, other@, self@);
        }
    }

    /// Serialize: one length byte, then the mask bytes in declared order.
    pub fn write(&self, out: &mut Vec<u8>)
        requires
            self.wf(),
        ensures
            final(out)@ == old(out)@ + seq![self@.len() as u8] + self@,
    {
        write_u8(out, self.bytes.len() as u8);
        let mut i: usize = 0;
        while i < self.bytes.len()
            invariant
                i <= self.bytes@.len(),
                out@ == old(out)@ + seq![self.bytes@.len() as u8] + self.bytes@.take(i as int),
            decreases self.bytes@.len() - i,
        {
            out.push(self.bytes[i]);
            i = i + 1;
            assert(out@ =~= old(out)@ + seq![self.bytes@.len() as u8] + self.bytes@.take(i as int));
        }
        assert(out@ =~= old(out)@ + seq![self@.len() as u8] + self@);
    }

    /// Deserialize a length-prefixed mask; `None` on a truncated buffer.
    pub fn read(reader: &mut PacketReader) -> (r: Option<DiffMask>)
        requires
            old(reader).wf(),
        ensures
            final(reader).wf(),
            final(reader).buf@ == old(reader).buf@,
            r.is_some() ==> r.unwrap().wf() && old(reader).remaining().len() >= 1 && ({
                let n = old(reader).remaining()[0] as int;
                &&& old(reader).remaining().len() >= 1 + n
                &&& r.unwrap()@ == old(reader).remaining().subrange(1, 1 + n)
                &&& final(reader).remaining() == old(reader).remaining().skip(1 + n)
            }),
            r.is_none() ==> (old(reader).remaining().len() == 0 || old(reader).remaining().len() < 1
                + old(reader).remaining()[0] as int),
    {
        let ghost rem0 = old(reader).remaining();
        match reader.read_u8() {
            Some(n) => {
                match reader.read_bytes(n as usize) {
                    Some(bytes) => {
                        let r = DiffMask { bytes };
                        assert(r@ =~= rem0.subrange(1, 1 + n as int));
                        assert(reader.remaining() =~= rem0.skip(1 + n as int));
                        Some(r)
                    },
                    None => None,
                }
            },
            None => None,
        }
    }

    /// The mask width in bytes.
    pub fn byte_len(&self) -> (r: usize)
        ensures
            r == self@.len(),
    {
        self.bytes.len()
    }
}

} // verus!
