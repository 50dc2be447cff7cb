//! Allocation of small integer keys with free-list recycling.
//!
//! Keys come from a monotonic counter; recycled keys are handed out again
//! first, most recently recycled first. A key is free when it is on the
//! free list or the counter has not reached it yet, so a generated key is
//! never one that some record still owns.

use vstd::prelude::*;

verus! {

pub struct KeyGenerator {
    pub next: u16,
    pub recycled: Vec<u16>,
}

impl KeyGenerator {
    /// A key the generator has never issued or has taken back.
    pub open spec fn is_free(self, k: u16) -> bool {
        self.recycled@.contains(k) || k >= self.next
    }

    /// The free list holds only issued keys, each once.
    pub open spec fn wf(self) -> bool {
        &&& forall|i: int, j: int|
            0 <= i < j < self.recycled@.len() ==> self.recycled@[i] != self.recycled@[j]
        &&& forall|i: int| 0 <= i < self.recycled@.len() ==> self.recycled@[i] < self.next
    }

    /// Whether another key can be issued.
    pub open spec fn can_generate(self) -> bool {
        self.recycled@.len() > 0 || self.next < u16::MAX
    }

    /// Whether `n` more keys can be issued.
    pub open spec fn can_generate_n(self, n: int) -> bool {
        self.recycled@.len() + (u16::MAX - self.next) >= n
    }

    /// The key the next call to `generate` hands out.
    pub open spec fn peek(self) -> u16 {
        if self.recycled@.len() > 0 {
            self.recycled@.last()
        } else {
            self.next
        }
    }

    pub fn new() -> (r: KeyGenerator)
        ensures
            r.wf(),
            r.next == 0,
            r.recycled@.len() == 0,
            forall|k: u16| r.is_free(k),
    {
        KeyGenerator { next: 0, recycled: Vec::new() }
    }

    /// Issue a key: the most recently recycled one if any, else the
    /// counter. The key was free before and is owned afterwards; no other
    /// key changes state.
    pub fn generate(&mut self) -> (k: u16)
        requires
            old(self).can_generate(),
            old(self).wf(),
        ensures
            final(self).wf(),
            old(self).is_free(k),
            !final(self).is_free(k),
            forall|k2: u16| k2 != k ==> final(self).is_free(k2) == old(self).is_free(k2),
            final(self).next >= old(self).next,
            forall|n: int|
                old(self).can_generate_n(n) ==> final(self).can_generate_n(n - 1),
            old(self).recycled@.len() > 0 ==> k == old(self).recycled@.last()
                && final(self).recycled@ == old(self).recycled@.drop_last()
                && final(self).next == old(self).next,
            old(self).recycled@.len() == 0 ==> k == old(self).next
                && final(self).next == old(self).next + 1
                && final(self).recycled@ == old(self).recycled@,
            k == old(self).peek(),
    {
        match self.recycled.pop() {
            Some(k) => {
                proof {
                    assert(old(self).recycled@.last() == k);
                    assert(old(self).recycled@.contains(k));
                    assert(self.recycled@ == old(self).recycled@.drop_last());
                    assert(!self.recycled@.contains(k)) by {
                        if self.recycled@.contains(k) {
                            let i = choose|i: int|
                                0 <= i < self.recycled@.len() && self.recycled@[i] == k;
                            assert(old(self).recycled@[i] == k);
                        }
                    }
                    assert(k < self.next);
                    assert forall|k2: u16| k2 != k implies self.is_free(k2) == old(self).is_free(
                        k2,
                    ) by {
                        if old(self).recycled@.contains(k2) {
                            let i = choose|i: int|
                                0 <= i < old(self).recycled@.len() && old(self).recycled@[i] == k2;
                            assert(i < old(self).recycled@.len() - 1);
                            assert(self.recycled@[i] == k2);
                        }
                        if self.recycled@.contains(k2) {
                            let i = choose|i: int|
                                0 <= i < self.recycled@.len() && self.recycled@[i] == k2;
                            assert(old(self).recycled@[i] == k2);
                        }
                    }
                }
                k
            },
            None => {
                let k = self.next;
                self.next = self.next + 1;
                k
            },
        }
    }

    /// Take an owned key back; it becomes the next one issued.
    pub fn recycle_key(&mut self, k: u16)
        requires
            old(self).wf(),
            !old(self).is_free(k),
        ensures
            final(self).wf(),
            final(self).next == old(self).next,
            final(self).recycled@ == old(self).recycled@.push(k),
            final(self).is_free(k),
            forall|k2: u16| k2 != k ==> final(self).is_free(k2) == old(self).is_free(k2),
    {
        self.recycled.push(k);
        proof {
            assert(self.recycled@.last() == k);
            assert(self.recycled@.contains(k));
            assert forall|i: int, j: int|
                0 <= i < j < self.recycled@.len() implies self.recycled@[i] != self.recycled@[j] by {
                if j < self.recycled@.len() - 1 {
                    assert(old(self).recycled@[i] != old(self).recycled@[j]);
                } else {
                    assert(self.recycled@[j] == k);
                    assert(self.recycled@[i] == old(self).recycled@[i]);
                    assert(!old(self).recycled@.contains(k));
                    assert(old(self).recycled@[i] != k);
                }
            }
            assert forall|k2: u16| k2 != k implies self.is_free(k2) == old(self).is_free(k2) by {
                if self.recycled@.contains(k2) {
                    let i = choose|i: int| 0 <= i < self.recycled@.len() && self.recycled@[i] == k2;
                    assert(i < self.recycled@.len() - 1);
                    assert(old(self).recycled@[i] == k2);
                }
                if old(self).recycled@.contains(k2) {
                    let i = choose|i: int|
                        0 <= i < old(self).recycled@.len() && old(self).recycled@[i] == k2;
                    assert(self.recycled@[i] == k2);
                }
            }
        }
    }

    /// Whether another key can be issued, decidably.
    pub fn check_can_generate(&self) -> (r: bool)
        ensures
            r == self.can_generate(),
    {
        self.recycled.len() > 0 || self.next < u16::MAX
    }

    /// Whether `n` more keys can be issued, decidably.
    pub fn check_can_generate_n(&self, n: usize) -> (r: bool)
        ensures
            r == self.can_generate_n(n as int),
    {
        if self.recycled.len() >= n {
            true
        } else {
            n - self.recycled.len() <= (u16::MAX - self.next) as usize
        }
    }
}

} // verus!
