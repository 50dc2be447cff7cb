//! Replicated component and message values, and the manifest.
//!
//! The application schema is a closed set of kinds, each a 16-bit id with
//! a declared property count. A replica instance carries its kind and one
//! byte per property; the manifest maps kind to property count and builds
//! an instance from its wire payload. Partial reads and writes visit the
//! properties named by a diff mask, in declared order.

use vstd::prelude::*;

use crate::bytes::PacketReader;
use crate::diff_mask::{mask_bit, DiffMask};
use crate::keyed_vec::KeyedVec;

verus! {

/// Mathematical value of a replica: its kind and property bytes.
pub struct ReplicaView {
    pub kind: u16,
    pub properties: Seq<u8>,
}

/// A replica instance: a component or message of some kind.
pub struct Replica {
    pub kind: u16,
    pub properties: Vec<u8>,
}

impl View for Replica {
    type V = ReplicaView;

    open spec fn view(&self) -> ReplicaView {
        ReplicaView { kind: self.kind, properties: self.properties@ }
    }
}

impl DeepView for Replica {
    type V = ReplicaView;

    open spec fn deep_view(&self) -> ReplicaView {
        self.view()
    }
}

/// The property bytes of `props` named by the set bits of `mask`, from
/// bit `i` up, in declared order.
pub open spec fn masked_bytes(props: Seq<u8>, mask: Seq<u8>, i: int) -> Seq<u8>
    decreases props.len() - i,
{
    if i < 0 || i >= props.len() {
        seq![]
    } else if mask_bit(mask, i) {
        seq![props[i]] + masked_bytes(props, mask, i + 1)
    } else {
        masked_bytes(props, mask, i + 1)
    }
}

/// `props` after overwriting each property named by `mask` (from bit `i`
/// up) with the next byte of `data`.
pub open spec fn apply_masked(props: Seq<u8>, mask: Seq<u8>, data: Seq<u8>, i: int) -> Seq<u8>
    decreases props.len() - i,
{
    if i < 0 || i >= props.len() {
        props
    } else if mask_bit(mask, i) {
        if data.len() == 0 {
            props
        } else {
            apply_masked(props.update(i, data[0]), mask, data.skip(1), i + 1)
        }
    } else {
        apply_masked(props, mask, data, i + 1)
    }
}

impl Replica {
    /// A payload is at most 255 bytes: its length rides in one byte.
    pub open spec fn wf(self) -> bool {
        self.properties@.len() <= 255
    }

    pub fn new(kind: u16, properties: Vec<u8>) -> (r: Replica)
        ensures
            r@.kind == kind,
            r@.properties == properties@,
    {
        Replica { kind, properties }
    }

    pub fn kind(&self) -> (r: u16)
        ensures
            r == self@.kind,
    {
        self.kind
    }

    pub fn property_count(&self) -> (r: usize)
        ensures
            r == self@.properties.len(),
    {
        self.properties.len()
    }

    /// An identical copy.
    pub fn clone_replica(&self) -> (r: Replica)
        ensures
            r@ == self@,
    {
        let mut properties: Vec<u8> = Vec::new();
        let mut i: usize = 0;
        while i < self.properties.len()
            invariant
                i <= self.properties@.len(),
                properties@ == self.properties@.take(i as int),
            decreases self.properties@.len() - i,
        {
            properties.push(self.properties[i]);
            i = i + 1;
            assert(properties@ =~= self.properties@.take(i as int));
        }
        assert(properties@ =~= self.properties@);
        Replica { kind: self.kind, properties }
    }

    /// Whether two replicas agree on kind and on every property.
    pub fn equals(&self, other: &Replica) -> (r: bool)
        ensures
            r == (self@ == other@),
    {
        if self.kind != other.kind {
            proof {
                assert(self@.kind != other@.kind);
            }
            return false;
        }
        if self.properties.len() != other.properties.len() {
            return false;
        }
        let mut i: usize = 0;
        while i < self.properties.len()
            invariant
                i <= self.properties@.len(),
                self.properties@.len() == other.properties@.len(),
                forall|j: int| 0 <= j < i ==> self.properties@[j] == other.properties@[j],
            decreases self.properties@.len() - i,
        {
            if self.properties[i] != other.properties[i] {
                return false;
            }
            i = i + 1;
        }
        proof {
            assert(self@.properties =~= other@.properties);
        }
        true
    }

    /// Serialize every property byte in declared order.
    pub fn write(&self, out: &mut Vec<u8>)
        ensures
            final(out)@ == old(out)@ + self@.properties,
    {
        let mut i: usize = 0;
        while i < self.properties.len()
            invariant
                i <= self.properties@.len(),
                out@ == old(out)@ + self.properties@.take(i as int),
            decreases self.properties@.len() - i,
        {
            out.push(self.properties[i]);
            i = i + 1;
            assert(out@ =~= old(out)@ + self.properties@.take(i as int));
        }
        assert(out@ =~= old(out)@ + self@.properties);
    }

    /// Serialize the properties named by the mask, in declared order.
    pub fn write_partial(&self, mask: &DiffMask, out: &mut Vec<u8>)
        requires
            mask.wf(),
        ensures
            final(out)@ == old(out)@ + masked_bytes(self@.properties, mask@, 0),
    {
        let mut i: usize = 0;
        let n = self.properties.len();
        while i < n
            invariant
                i <= n,
                n == self.properties@.len(),
                mask.wf(),
                out@ + masked_bytes(self@.properties, mask@, i as int) == old(out)@ + masked_bytes(
                    self@.properties,
                    mask@,
                    0,
                ),
            decreases n - i,
        {
            let in_mask = if i < 2040 && i / 8 < mask.byte_len() {
                proof {
                    lemma_bit_in_byte_range(i as int, mask@.len() as int);
                }
                mask.get_bit(i)
            } else {
                proof {
                    if i as int >= mask@.len() * 8 {
                        assert(!mask_bit(mask@, i as int));
                    } else {
                        crate::diff_mask::lemma_bit_index_bounds(i as int, mask@.len() as int);
                        assert(false);
                    }
                }
                false
            };
            if in_mask {
                out.push(self.properties[i]);
                assert(masked_bytes(self@.properties, mask@, i as int) == seq![
                    self.properties@[i as int],
                ] + masked_bytes(self@.properties, mask@, i + 1));
                assert(out@ + masked_bytes(self@.properties, mask@, i + 1) =~= old(out)@
                    + masked_bytes(self@.properties, mask@, 0));
            }
            i = i + 1;
        }
        assert(masked_bytes(self@.properties, mask@, n as int) =~= Seq::<u8>::empty());
        assert(out@ =~= old(out)@ + masked_bytes(self@.properties, mask@, 0));
    }

    /// Overwrite the properties named by the mask with consecutive bytes
    /// from the reader. On a truncated buffer the read reports `false`,
    /// the caller discards the packet, and nothing more is promised of the
    /// partly read replica.
    pub fn read_partial(&mut self, mask: &DiffMask, reader: &mut PacketReader) -> (r: bool)
        requires
            old(reader).wf(),
            mask.wf(),
        ensures
            final(reader).wf(),
            final(reader).buf@ == old(reader).buf@,
            final(self)@.kind == old(self)@.kind,
            final(self)@.properties.len() == old(self)@.properties.len(),
            r ==> final(self)@.properties == apply_masked(
                old(self)@.properties,
                mask@,
                old(reader).remaining(),
                0,
            ),
            r ==> final(reader).remaining() == old(reader).remaining().skip(
                masked_bytes(old(self)@.properties, mask@, 0).len() as int,
            ),
            r ==> masked_bytes(old(self)@.properties, mask@, 0).len() <= old(reader).remaining().len(),
            masked_bytes(old(self)@.properties, mask@, 0).len() <= old(reader).remaining().len()
                ==> r,
    {
        let n = self.properties.len();
        let mut i: usize = 0;
        let ghost props0 = self.properties@;
        let ghost rem0 = reader.remaining();
        let ghost mut consumed: int = 0;
        while i < n
            invariant
                i <= n,
                n == self.properties@.len(),
                reader.wf(),
                reader.buf@ == old(reader).buf@,
                props0.len() == n,
                props0 == old(self).properties@,
                rem0 == old(reader).remaining(),
                self.kind == old(self).kind,
                mask.wf(),
                apply_masked(self.properties@, mask@, reader.remaining(), i as int) == apply_masked(
                    props0,
                    mask@,
                    rem0,
                    0,
                ),
                consumed + masked_bytes(props0, mask@, i as int).len() == masked_bytes(
                    props0,
                    mask@,
                    0,
                ).len(),
                0 <= consumed <= rem0.len(),
                reader.remaining() == rem0.skip(consumed),
            decreases n - i,
        {
            let in_mask = if i < 2040 && i / 8 < mask.byte_len() {
                proof {
                    lemma_bit_in_byte_range(i as int, mask@.len() as int);
                }
                mask.get_bit(i)
            } else {
                proof {
                    if i as int >= mask@.len() * 8 {
                        assert(!mask_bit(mask@, i as int));
                    } else {
                        crate::diff_mask::lemma_bit_index_bounds(i as int, mask@.len() as int);
                        assert(i / 8 < mask@.len());
                        assert(mask@.len() <= 255);
                        assert(i < 2040);
                        assert(false);
                    }
                }
                false
            };
            if in_mask {
                let ghost rem_before = reader.remaining();
                let ghost props_before = self.properties@;
                match reader.read_u8() {
                    Some(b) => {
                        self.properties[i] = b;
                        proof {
                            assert(rem_before.len() >= 1);
                            assert(self.properties@ == props_before.update(i as int, b));
                            assert(reader.remaining() == rem_before.skip(1));
                            assert(rem_before[0] == b);
                            assert(apply_masked(props_before, mask@, rem_before, i as int)
                                == apply_masked(
                                self.properties@,
                                mask@,
                                reader.remaining(),
                                i + 1,
                            ));
                            assert(masked_bytes(props0, mask@, i as int) == seq![
                                props0[i as int],
                            ] + masked_bytes(props0, mask@, i + 1));
                            assert(rem0.skip(consumed).len() >= 1);
                            assert(reader.remaining() =~= rem0.skip(consumed + 1));
                            consumed = consumed + 1;
                        }
                    },
                    None => {
                        proof {
                            assert(reader.remaining().len() == 0);
                            assert(rem0.skip(consumed).len() == 0);
                            assert(consumed == rem0.len());
                            assert(masked_bytes(props0, mask@, i as int) == seq![
                                props0[i as int],
                            ] + masked_bytes(props0, mask@, i + 1));
                            assert(masked_bytes(props0, mask@, 0).len() > rem0.len());
                        }
                        return false;
                    },
                }
            }
            i = i + 1;
        }
        proof {
            assert(apply_masked(self.properties@, mask@, reader.remaining(), n as int)
                == self.properties@);
            assert(masked_bytes(self.properties@, mask@, n as int).len() == 0);
            assert(masked_bytes(props0, mask@, n as int).len() == 0);
            assert(consumed == masked_bytes(props0, mask@, 0).len());
        }
        true
    }
}

/// A property index below 2040 that lands inside a mask of at most 255
/// bytes is a valid bit index of that mask.
proof fn lemma_bit_in_byte_range(i: int, len: int)
    requires
        0 <= i,
        0 <= len,
        i / 8 < len,
    ensures
        i < len * 8,
{
    assert(8 * (i / 8) + i % 8 == i);
    assert(i < len * 8) by (nonlinear_arith)
        requires
            8 * (i / 8) + i % 8 == i,
            0 <= i % 8 < 8,
            i / 8 < len,
    ;
}

/// A partial payload never exceeds the property count.
pub proof fn lemma_masked_bytes_len(props: Seq<u8>, mask: Seq<u8>, i: int)
    requires
        i >= 0,
    ensures
        masked_bytes(props, mask, i).len() <= props.len() - i || masked_bytes(
            props,
            mask,
            i,
        ).len() == 0,
        masked_bytes(props, mask, i).len() <= props.len(),
    decreases props.len() - i,
{
    if i < props.len() {
        lemma_masked_bytes_len(props, mask, i + 1);
    }
}

/// Updating a property below `i` does not change the masked bytes from `i` up.
proof fn lemma_masked_bytes_update_before(props: Seq<u8>, mask: Seq<u8>, i: int, j: int, b: u8)
    requires
        0 <= j < i,
        j < props.len(),
    ensures
        masked_bytes(props.update(j, b), mask, i) == masked_bytes(props, mask, i),
    decreases props.len() - i,
{
    if i < 0 || i >= props.len() {
    } else {
        lemma_masked_bytes_update_before(props, mask, i + 1, j, b);
        assert(props.update(j, b)[i] == props[i]);
    }
}

/// The schema authority: property count for each registered kind.
pub struct Manifest {
    pub kinds: KeyedVec<u8>,
}

impl Manifest {
    /// Kind id to property count.
    pub open spec fn view(self) -> Map<u16, u8> {
        self.kinds@
    }

    pub open spec fn wf(self) -> bool {
        self.kinds.wf()
    }

    pub fn new() -> (r: Manifest)
        ensures
            r.wf(),
            r@ == Map::<u16, u8>::empty(),
    {
        Manifest { kinds: KeyedVec::new() }
    }

    /// Declare a kind with its property count.
    pub fn register_kind(&mut self, kind: u16, property_count: u8)
        requires
            old(self).wf(),
        ensures
            final(self).wf(),
            final(self)@ == old(self)@.insert(kind, property_count),
    {
        self.kinds.insert(kind, property_count);
    }

    /// How many bytes a replica of this kind occupies on the wire.
    pub fn size_on_wire(&self, kind: u16) -> (r: Option<u8>)
        requires
            self.wf(),
        ensures
            match r {
                Some(n) => self@.dom().contains(kind) && self@[kind] == n,
                None => !self@.dom().contains(kind),
            },
    {
        match self.kinds.get(kind) {
            Some(n) => Some(*n),
            None => None,
        }
    }

    /// Build a replica of `kind` from its wire payload: one byte per
    /// declared property. `None` on an unknown kind or truncated buffer.
    pub fn create_replica(&self, kind: u16, reader: &mut PacketReader) -> (r: Option<Replica>)
        requires
            self.wf(),
            old(reader).wf(),
        ensures
            final(reader).wf(),
            final(reader).buf@ == old(reader).buf@,
            !self@.dom().contains(kind) ==> r.is_none() && *final(reader) == *old(reader),
            self@.dom().contains(kind) && old(reader).remaining().len() >= self@[kind] ==> ({
                &&& r.is_some()
                &&& r.unwrap()@.kind == kind
                &&& r.unwrap()@.properties == old(reader).remaining().take(self@[kind] as int)
                &&& final(reader).remaining() == old(reader).remaining().skip(self@[kind] as int)
            }),
            self@.dom().contains(kind) && old(reader).remaining().len() < self@[kind] ==> r.is_none()
                && *final(reader) == *old(reader),
    {
        match self.kinds.get(kind) {
            Some(n) => {
                let count = *n;
                match reader.read_bytes(count as usize) {
                    Some(properties) => Some(Replica { kind, properties }),
                    None => None,
                }
            },
            None => None,
        }
    }
}

} // verus!
