//! Ring buffer keyed by wrapping 16-bit sequence numbers.
//!
//! A buffer of capacity `C` stores at most one value per residue class
//! modulo `C`. Inserting under sequence number `s` lands in slot `s % C`
//! and evicts whatever that slot held; lookup by exact sequence number
//! answers `None` when the slot was overwritten by another number.

use vstd::prelude::*;

use crate::seq::{seq_gt_spec, sequence_greater_than};

verus! {

/// Ring of capacity `slots.len()`; `newest` is the most recent sequence
/// number ever inserted.
pub struct SequenceBuffer<T> {
    pub slots: Vec<Option<(u16, T)>>,
    pub newest: u16,
}

impl<T> SequenceBuffer<T> {
    pub open spec fn capacity(self) -> int {
        self.slots@.len() as int
    }

    pub open spec fn wf(self) -> bool {
        self.capacity() > 0
    }

    /// The slot a sequence number lands in.
    pub open spec fn slot_of(self, s: u16) -> int {
        s as int % self.capacity()
    }

    /// The value stored under exactly `s`, if any.
    pub open spec fn spec_get(self, s: u16) -> Option<T> {
        if self.capacity() > 0 {
            match self.slots@[self.slot_of(s)] {
                Some((s2, v)) => if s2 == s {
                    Some(v)
                } else {
                    None
                },
                None => None,
            }
        } else {
            None
        }
    }

    /// An empty buffer of the given capacity.
    pub fn with_capacity(capacity: u16) -> (r: SequenceBuffer<T>)
        requires
            capacity >= 1,
        ensures
            r.wf(),
            r.capacity() == capacity,
            r.newest == 0,
            forall|s: u16| r.spec_get(s).is_none(),
    {
        let mut slots: Vec<Option<(u16, T)>> = Vec::new();
        let mut i: usize = 0;
        while i < capacity as usize
            invariant
                i <= capacity,
                slots@.len() == i,
                forall|j: int| 0 <= j < i ==> slots@[j].is_none(),
            decreases capacity - i,
        {
            slots.push(None);
            i = i + 1;
        }
        SequenceBuffer { slots, newest: 0 }
    }

    /// Store `value` under `s`, evicting whatever shared its slot. The
    /// slot decides alone: an entry older than the one it displaces is
    /// stored all the same, so callers feed the ring non-decreasing
    /// sequence numbers.
    pub fn insert(&mut self, s: u16, value: T)
        requires
            old(self).wf(),
        ensures
            final(self).wf(),
            final(self).capacity() == old(self).capacity(),
            final(self).spec_get(s) == Some(value),
            forall|s2: u16|
                s2 != s ==> final(self).spec_get(s2) == (if old(self).slot_of(s2) == old(self).slot_of(s) {
                    Option::<T>::None
                } else {
                    old(self).spec_get(s2)
                }),
            final(self).newest == (if seq_gt_spec(s, old(self).newest) {
                s
            } else {
                old(self).newest
            }),
    {
        let idx = (s as usize) % self.slots.len();
        self.slots[idx] = Some((s, value));
        if sequence_greater_than(s, self.newest) {
            self.newest = s;
        }
    }

    /// The value stored under exactly `s`.
    pub fn get(&self, s: u16) -> (r: Option<&T>)
        requires
            self.wf(),
        ensures
            match r {
                Some(v) => self.spec_get(s) == Some(*v),
                None => self.spec_get(s).is_none(),
            },
    {
        let idx = (s as usize) % self.slots.len();
        match &self.slots[idx] {
            Some(pair) => {
                if pair.0 == s {
                    Some(&pair.1)
                } else {
                    None
                }
            },
            None => None,
        }
    }

    /// Drop every stored value whose sequence number is at or before `t`
    /// in wrapping order.
    pub fn remove_until(&mut self, t: u16)
        requires
            old(self).wf(),
        ensures
            final(self).wf(),
            final(self).capacity() == old(self).capacity(),
            final(self).newest == old(self).newest,
            forall|s: u16|
                final(self).spec_get(s) == (if !seq_gt_spec(s, t) {
                    Option::<T>::None
                } else {
                    old(self).spec_get(s)
                }),
    {
        let n = self.slots.len();
        let mut i: usize = 0;
        while i < n
            invariant
                i <= n,
                self.slots@.len() == n,
                self.newest == old(self).newest,
                forall|j: int| i <= j < n ==> self.slots@[j] == old(self).slots@[j],
                forall|j: int|
                    0 <= j < i ==> self.slots@[j] == (match old(self).slots@[j] {
                        Some((s2, v)) => if !seq_gt_spec(s2, t) {
                            Option::<(u16, T)>::None
                        } else {
                            old(self).slots@[j]
                        },
                        None => Option::<(u16, T)>::None,
                    }),
            decreases n - i,
        {
            let clear_it = match &self.slots[i] {
                Some(pair) => !sequence_greater_than(pair.0, t),
                None => false,
            };
            if clear_it {
                self.slots[i] = None;
            }
            i = i + 1;
        }
    }

    /// Drop everything.
    pub fn clear(&mut self)
        requires
            old(self).wf(),
        ensures
            final(self).wf(),
            final(self).capacity() == old(self).capacity(),
            final(self).newest == old(self).newest,
            forall|s: u16| final(self).spec_get(s).is_none(),
    {
        let n = self.slots.len();
        let mut i: usize = 0;
        while i < n
            invariant
                i <= n,
                self.slots@.len() == n,
                self.newest == old(self).newest,
                forall|j: int| 0 <= j < i ==> self.slots@[j].is_none(),
            decreases n - i,
        {
            self.slots[i] = None;
            i = i + 1;
        }
    }

    /// The most recent sequence number ever inserted.
    pub fn sequence_num(&self) -> (r: u16)
        ensures
            r == self.newest,
    {
        self.newest
    }
}

} // verus!
