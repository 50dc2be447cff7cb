//! The per-connection window onto component dirty bits.
//!
//! One mask lives here for every component in this connection's scope.
//! Property mutators set bits; the entity manager snapshots and clears
//! them when it writes an update, and ORs bits back when a packet drops.

use vstd::prelude::*;

use crate::diff_mask::{mask_bit, DiffMask};
use crate::keyed_vec::KeyedVec;

verus! {

pub struct UserDiffHandler {
    pub masks: KeyedVec<DiffMask>,
}

impl UserDiffHandler {
    /// Component key to its current mask bytes.
    pub open spec fn view(self) -> Map<u16, Seq<u8>> {
        self.masks@.map_values(|m: DiffMask| m@)
    }

    pub open spec fn wf(self) -> bool {
        &&& self.masks.wf()
        &&& forall|ck: u16| #[trigger]
            self.masks@.dom().contains(ck) ==> self.masks@[ck].wf()
    }

    pub fn new() -> (r: UserDiffHandler)
        ensures
            r.wf(),
            r@ == Map::<u16, Seq<u8>>::empty(),
    {
        let r = UserDiffHandler { masks: KeyedVec::new() };
        proof {
            assert(r@ =~= Map::<u16, Seq<u8>>::empty());
        }
        r
    }

    pub fn has_component(&self, component: u16) -> (r: bool)
        requires
            self.wf(),
        ensures
            r == self@.dom().contains(component),
    {
        let r = self.masks.contains_key(component);
        proof {
            assert(self@.dom() =~= self.masks@.dom());
        }
        r
    }

    /// Allocate a cleared mask of `byte_count` bytes for a fresh component.
    pub fn register_component(&mut self, component: u16, byte_count: u8)
        requires
            old(self).wf(),
            !old(self)@.dom().contains(component),
        ensures
            final(self).wf(),
            final(self)@ == old(self)@.insert(component, final(self)@[component]),
            final(self)@[component].len() == byte_count,
            forall|i: int| !mask_bit(final(self)@[component], i),
    {
        let mask = DiffMask::new(byte_count);
        self.masks.insert(component, mask);
        proof {
            assert(self@ =~= old(self)@.insert(component, self@[component]));
        }
    }

    /// Free a component's mask.
    pub fn deregister_component(&mut self, component: u16)
        requires
            old(self).wf(),
        ensures
            final(self).wf(),
            final(self)@ == old(self)@.remove(component),
    {
        let _ = self.masks.remove(component);
        proof {
            assert(self@ =~= old(self)@.remove(component));
        }
    }

    /// A copy of a component's current mask.
    pub fn get_diff_mask(&self, component: u16) -> (r: Option<DiffMask>)
        requires
            self.wf(),
        ensures
            match r {
                Some(m) => self@.dom().contains(component) && m@ == self@[component] && m.wf(),
                None => !self@.dom().contains(component),
            },
    {
        proof {
            assert(self@.dom() =~= self.masks@.dom());
        }
        match self.masks.get(component) {
            Some(m) => Some(m.clone_mask()),
            None => None,
        }
    }

    /// Whether a component's mask has any bit set.
    pub fn has_dirty_bits(&self, component: u16) -> (r: bool)
        requires
            self.wf(),
        ensures
            r == (self@.dom().contains(component) && exists|i: int| mask_bit(self@[component], i)),
    {
        proof {
            assert(self@.dom() =~= self.masks@.dom());
        }
        match self.masks.get(component) {
            Some(m) => {
                proof {
                    assert(m@ == self@[component]);
                }
                let clear = m.is_clear();
                proof {
                    if !clear {
                        assert(!(forall|i: int| !mask_bit(m@, i)));
                        let i = choose|i: int| mask_bit(m@, i);
                        assert(mask_bit(self@[component], i));
                    }
                }
                !clear
            },
            None => false,
        }
    }

    /// Clear every bit of a component's mask.
    pub fn clear_diff_mask(&mut self, component: u16)
        requires
            old(self).wf(),
            old(self)@.dom().contains(component),
        ensures
            final(self).wf(),
            final(self)@.dom() == old(self)@.dom(),
            final(self)@[component].len() == old(self)@[component].len(),
            forall|i: int| !mask_bit(final(self)@[component], i),
            forall|ck: u16|
                final(self)@.dom().contains(ck) && ck != component ==> final(self)@[ck] == old(
                    self,
                )@[ck],
    {
        proof {
            assert(self@.dom() =~= self.masks@.dom());
        }
        let mut mask = match self.masks.remove(component) {
            Some(m) => m,
            None => vstd::pervasive::unreached(),
        };
        mask.clear();
        self.masks.insert(component, mask);
        proof {
            assert(self@.dom() =~= old(self)@.dom());
        }
    }

    /// Overwrite a component's mask with the given one.
    pub fn set_diff_mask(&mut self, component: u16, mask: &DiffMask)
        requires
            old(self).wf(),
            old(self)@.dom().contains(component),
            mask.wf(),
        ensures
            final(self).wf(),
            final(self)@ == old(self)@.insert(component, mask@),
    {
        proof {
            assert(self@.dom() =~= self.masks@.dom());
        }
        self.masks.insert(component, mask.clone_mask());
        proof {
            assert(self@ =~= old(self)@.insert(component, mask@));
        }
    }

    /// OR the given bits into a component's mask.
    pub fn or_diff_mask(&mut self, component: u16, other: &DiffMask)
        requires
            old(self).wf(),
            old(self)@.dom().contains(component),
            old(self)@[component].len() == other@.len(),
        ensures
            final(self).wf(),
            final(self)@ == old(self)@.insert(
                component,
                crate::diff_mask::bytes_or(old(self)@[component], other@),
            ),
            final(self)@.dom() == old(self)@.dom(),
            final(self)@[component].len() == old(self)@[component].len(),
            forall|i: int|
                mask_bit(final(self)@[component], i) == (mask_bit(old(self)@[component], i)
                    || mask_bit(other@, i)),
            forall|ck: u16|
                final(self)@.dom().contains(ck) && ck != component ==> final(self)@[ck] == old(
                    self,
                )@[ck],
    {
        proof {
            assert(self@.dom() =~= self.masks@.dom());
        }
        let mut mask = match self.masks.remove(component) {
            Some(m) => m,
            None => vstd::pervasive::unreached(),
        };
        let ghost mask_before = mask@;
        mask.or(other);
        let ghost mask_after = mask@;
        proof {
            crate::diff_mask::lemma_mask_or_bits(mask_before, other@, mask_after);
        }
        self.masks.insert(component, mask);
        proof {
            assert(self@.dom() =~= old(self)@.dom());
            assert(mask_before == old(self)@[component]);
            assert(self@[component] == self.masks@[component]@);
            assert(self@[component] == mask_after);
            assert(mask_after =~= crate::diff_mask::bytes_or(mask_before, other@));
            assert(self@ =~~= old(self)@.insert(
                component,
                crate::diff_mask::bytes_or(old(self)@[component], other@),
            ));
            assert forall|i: int|
                mask_bit(self@[component], i) == (mask_bit(old(self)@[component], i) || mask_bit(
                    other@,
                    i,
                )) by {
                assert(mask_bit(mask_after, i) == (mask_bit(mask_before, i) || mask_bit(other@, i)));
            }
        }
    }

    /// A property mutator reports bit `bit` of a component dirty.
    pub fn notify_mutation(&mut self, component: u16, bit: usize)
        requires
            old(self).wf(),
            old(self)@.dom().contains(component),
            bit < old(self)@[component].len() * 8,
        ensures
            final(self).wf(),
            final(self)@.dom() == old(self)@.dom(),
            final(self)@[component].len() == old(self)@[component].len(),
            mask_bit(final(self)@[component], bit as int),
            forall|i: int|
                i != bit ==> mask_bit(final(self)@[component], i) == mask_bit(
                    old(self)@[component],
                    i,
                ),
            forall|ck: u16|
                final(self)@.dom().contains(ck) && ck != component ==> final(self)@[ck] == old(
                    self,
                )@[ck],
    {
        proof {
            assert(self@.dom() =~= self.masks@.dom());
        }
        let mut mask = match self.masks.remove(component) {
            Some(m) => m,
            None => vstd::pervasive::unreached(),
        };
        mask.set_bit(bit);
        self.masks.insert(component, mask);
        proof {
            assert(self@.dom() =~= old(self)@.dom());
        }
    }
}

} // verus!
