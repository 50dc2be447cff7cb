//! Small maps and sets over 16-bit keys.
//!
//! Ledgers here are keyed by packet indices and by entity or component
//! keys: a handful of live entries, inserted and removed in step with the
//! packet stream. A vector of pairs with unique keys carries them, viewed
//! as a `Map` in contracts.

use vstd::prelude::*;

verus! {

/// The map an entry sequence denotes; later entries would win, though
/// well-formed tables never repeat a key.
pub open spec fn entries_map<V>(s: Seq<(u16, V)>) -> Map<u16, V>
    decreases s.len(),
{
    if s.len() == 0 {
        Map::empty()
    } else {
        entries_map(s.drop_last()).insert(s.last().0, s.last().1)
    }
}

/// No key occurs twice.
pub open spec fn keys_unique<V>(s: Seq<(u16, V)>) -> bool {
    forall|i: int, j: int| 0 <= i < j < s.len() ==> s[i].0 != s[j].0
}

/// A key is in the denoted map exactly when some entry holds it.
pub proof fn lemma_entries_map_dom<V>(s: Seq<(u16, V)>, k: u16)
    ensures
        entries_map(s).dom().contains(k) <==> exists|i: int| 0 <= i < s.len() && s[i].0 == k,
    decreases s.len(),
{
    if s.len() > 0 {
        lemma_entries_map_dom(s.drop_last(), k);
        if s.last().0 == k {
            assert(s[s.len() - 1].0 == k);
        } else {
            if exists|i: int| 0 <= i < s.drop_last().len() && s.drop_last()[i].0 == k {
                let i = choose|i: int| 0 <= i < s.drop_last().len() && s.drop_last()[i].0 == k;
                assert(s[i].0 == k);
            }
            if exists|i: int| 0 <= i < s.len() && s[i].0 == k {
                let i = choose|i: int| 0 <= i < s.len() && s[i].0 == k;
                assert(s.drop_last()[i].0 == k);
            }
        }
    }
}

/// With unique keys, the entry holding a key gives its value in the map.
pub proof fn lemma_entries_map_at<V>(s: Seq<(u16, V)>, i: int)
    requires
        keys_unique(s),
        0 <= i < s.len(),
    ensures
        entries_map(s).dom().contains(s[i].0),
        entries_map(s)[s[i].0] == s[i].1,
    decreases s.len(),
{
    if i == s.len() - 1 {
        lemma_entries_map_dom(s, s[i].0);
    } else {
        lemma_entries_map_at(s.drop_last(), i);
        assert(s.drop_last()[i] == s[i]);
        assert(s.last().0 != s[i].0);
    }
}

/// A table of unique 16-bit keys, read in contracts as a `Map`.
pub struct KeyedVec<V> {
    pub entries: Vec<(u16, V)>,
}

impl<V> KeyedVec<V> {
    pub open spec fn view(self) -> Map<u16, V> {
        entries_map(self.entries@)
    }

    pub open spec fn wf(self) -> bool {
        keys_unique(self.entries@)
    }

    pub fn new() -> (r: KeyedVec<V>)
        ensures
            r.wf(),
            r@ == Map::<u16, V>::empty(),
            r.entries@.len() == 0,
    {
        KeyedVec { entries: Vec::new() }
    }

    /// The position of the entry holding `k`, if any.
    fn position(&self, k: u16) -> (r: Option<usize>)
        requires
            self.wf(),
        ensures
            match r {
                Some(i) => i < self.entries@.len() && self.entries@[i as int].0 == k
                    && self@.dom().contains(k) && self@[k] == self.entries@[i as int].1,
                None => !self@.dom().contains(k),
            },
    {
        let mut i: usize = 0;
        while i < self.entries.len()
            invariant
                i <= self.entries@.len(),
                forall|j: int| 0 <= j < i ==> self.entries@[j].0 != k,
                self.wf(),
            decreases self.entries@.len() - i,
        {
            if self.entries[i].0 == k {
                proof {
                    lemma_entries_map_at(self.entries@, i as int);
                }
                return Some(i);
            }
            i = i + 1;
        }
        proof {
            lemma_entries_map_dom(self.entries@, k);
        }
        None
    }

    pub fn contains_key(&self, k: u16) -> (r: bool)
        requires
            self.wf(),
        ensures
            r == self@.dom().contains(k),
    {
        self.position(k).is_some()
    }

    pub fn get(&self, k: u16) -> (r: Option<&V>)
        requires
            self.wf(),
        ensures
            match r {
                Some(v) => self@.dom().contains(k) && self@[k] == *v,
                None => !self@.dom().contains(k),
            },
    {
        match self.position(k) {
            Some(i) => Some(&self.entries[i].1),
            None => None,
        }
    }

    /// Bind `k` to `v`, replacing any earlier binding.
    pub fn insert(&mut self, k: u16, v: V)
        requires
            old(self).wf(),
        ensures
            final(self).wf(),
            final(self)@ == old(self)@.insert(k, v),
            final(self).entries@.len() <= old(self).entries@.len() + 1,
    {
        let ghost s0 = self.entries@;
        match self.position(k) {
            Some(i) => {
                let removed = self.entries.remove(i);
                self.entries.push((k, v));
                proof {
                    let s1 = s0.remove(i as int);
                    assert(keys_unique(s1));
                    assert(self.entries@ == s1.push((k, v)));
                    assert(keys_unique(self.entries@)) by {
                        assert forall|a: int, b: int|
                            0 <= a < b < self.entries@.len() implies self.entries@[a].0
                            != self.entries@[b].0 by {
                            if b == self.entries@.len() - 1 {
                                lemma_remove_key_gone(s0, k, i as int, a);
                            }
                        }
                    }
                    lemma_map_after_remove_insert(s0, i as int, k, v);
                }
            },
            None => {
                self.entries.push((k, v));
                proof {
                    assert(self.entries@.drop_last() =~= s0);
                    lemma_entries_map_dom(s0, k);
                    assert(keys_unique(self.entries@)) by {
                        assert forall|a: int, b: int|
                            0 <= a < b < self.entries@.len() implies self.entries@[a].0
                            != self.entries@[b].0 by {
                            if b == self.entries@.len() - 1 {
                                assert(self.entries@[a] == s0[a]);
                            }
                        }
                    }
                }
            },
        }
    }

    /// Unbind `k`, giving back its value.
    pub fn remove(&mut self, k: u16) -> (r: Option<V>)
        requires
            old(self).wf(),
        ensures
            final(self).wf(),
            final(self)@ == old(self)@.remove(k),
            match r {
                Some(v) => old(self)@.dom().contains(k) && old(self)@[k] == v,
                None => !old(self)@.dom().contains(k),
            },
            final(self).entries@.len() <= old(self).entries@.len(),
    {
        let ghost s0 = self.entries@;
        match self.position(k) {
            Some(i) => {
                let (_, v) = self.entries.remove(i);
                proof {
                    assert(keys_unique(self.entries@));
                    lemma_map_after_remove(s0, i as int);
                }
                Some(v)
            },
            None => {
                proof {
                    assert(self@ =~= self@.remove(k));
                }
                None
            },
        }
    }

    /// Every key, in table order.
    pub fn keys(&self) -> (r: Vec<u16>)
        requires
            self.wf(),
        ensures
            r@.len() == self.entries@.len(),
            forall|i: int| 0 <= i < r@.len() ==> r@[i] == self.entries@[i].0,
            forall|i: int| 0 <= i < r@.len() ==> self@.dom().contains(r@[i]),
            forall|k: u16| self@.dom().contains(k) ==> r@.contains(k),
    {
        let mut r: Vec<u16> = Vec::new();
        let mut i: usize = 0;
        while i < self.entries.len()
            invariant
                i <= self.entries@.len(),
                r@.len() == i,
                forall|j: int| 0 <= j < i ==> r@[j] == self.entries@[j].0,
                self.wf(),
            decreases self.entries@.len() - i,
        {
            r.push(self.entries[i].0);
            i = i + 1;
        }
        proof {
            assert forall|j: int| 0 <= j < r@.len() implies self@.dom().contains(r@[j]) by {
                lemma_entries_map_at(self.entries@, j);
            }
            assert forall|k: u16| self@.dom().contains(k) implies r@.contains(k) by {
                lemma_entries_map_dom(self.entries@, k);
                let j = choose|j: int| 0 <= j < self.entries@.len() && self.entries@[j].0 == k;
                assert(r@[j] == k);
            }
        }
        r
    }

    pub fn len(&self) -> (r: usize)
        ensures
            r == self.entries@.len(),
    {
        self.entries.len()
    }

    pub fn is_empty(&self) -> (r: bool)
        requires
            self.wf(),
        ensures
            r == (self.entries@.len() == 0),
            r == (self@ == Map::<u16, V>::empty()),
    {
        proof {
            if self.entries@.len() == 0 {
                assert(self@ =~= Map::<u16, V>::empty());
            } else {
                lemma_entries_map_at(self.entries@, 0);
                assert(self@.dom().contains(self.entries@[0].0));
            }
        }
        self.entries.len() == 0
    }
}

/// After removing position `i`, no entry holds the removed key (unique keys).
proof fn lemma_remove_key_gone<V>(s: Seq<(u16, V)>, k: u16, i: int, a: int)
    requires
        keys_unique(s),
        0 <= i < s.len(),
        s[i].0 == k,
        0 <= a < s.len() - 1,
    ensures
        s.remove(i)[a].0 != k,
{
    if a < i {
        assert(s.remove(i)[a] == s[a]);
    } else {
        assert(s.remove(i)[a] == s[a + 1]);
    }
}

/// Removing the entry at `i` removes exactly its key from the map.
proof fn lemma_map_after_remove<V>(s: Seq<(u16, V)>, i: int)
    requires
        keys_unique(s),
        0 <= i < s.len(),
    ensures
        entries_map(s.remove(i)) == entries_map(s).remove(s[i].0),
    decreases s.len(),
{
    let k = s[i].0;
    if i == s.len() - 1 {
        assert(s.remove(i) =~= s.drop_last());
        assert(entries_map(s) == entries_map(s.drop_last()).insert(k, s[i].1));
        lemma_entries_map_dom(s.drop_last(), k);
        assert(!entries_map(s.drop_last()).dom().contains(k)) by {
            if exists|j: int| 0 <= j < s.drop_last().len() && s.drop_last()[j].0 == k {
                let j = choose|j: int| 0 <= j < s.drop_last().len() && s.drop_last()[j].0 == k;
                assert(s[j].0 == s[i].0);
            }
        }
        assert(entries_map(s.drop_last()) =~= entries_map(s).remove(k));
    } else {
        assert(keys_unique(s.drop_last()));
        lemma_map_after_remove(s.drop_last(), i);
        assert(s.remove(i).drop_last() =~= s.drop_last().remove(i));
        assert(s.remove(i).last() == s.last());
        assert(entries_map(s.remove(i)) == entries_map(s.drop_last().remove(i)).insert(
            s.last().0,
            s.last().1,
        ));
        assert(entries_map(s).remove(k) =~= entries_map(s.drop_last()).remove(k).insert(
            s.last().0,
            s.last().1,
        )) by {
            assert(s.last().0 != k);
        }
    }
}

/// Replacing the entry holding `k` (remove then append) updates the map at `k`.
proof fn lemma_map_after_remove_insert<V>(s: Seq<(u16, V)>, i: int, k: u16, v: V)
    requires
        keys_unique(s),
        0 <= i < s.len(),
        s[i].0 == k,
    ensures
        entries_map(s.remove(i).push((k, v))) == entries_map(s).insert(k, v),
{
    lemma_map_after_remove(s, i);
    assert(s.remove(i).push((k, v)).drop_last() =~= s.remove(i));
    assert(entries_map(s.remove(i).push((k, v))) == entries_map(s.remove(i)).insert(k, v));
    assert(entries_map(s).remove(k).insert(k, v) =~= entries_map(s).insert(k, v));
}

/// A set of 16-bit keys, read in contracts as a `Set`.
pub struct KeySet {
    pub items: Vec<u16>,
}

impl KeySet {
    pub open spec fn view(self) -> Set<u16> {
        self.items@.to_set()
    }

    pub open spec fn wf(self) -> bool {
        forall|i: int, j: int| 0 <= i < j < self.items@.len() ==> self.items@[i] != self.items@[j]
    }

    pub fn new() -> (r: KeySet)
        ensures
            r.wf(),
            r@ == Set::<u16>::empty(),
    {
        let r = KeySet { items: Vec::new() };
        proof {
            assert(r@ =~= Set::<u16>::empty());
        }
        r
    }

    fn position(&self, k: u16) -> (r: Option<usize>)
        ensures
            match r {
                Some(i) => i < self.items@.len() && self.items@[i as int] == k && self@.contains(k),
                None => !self@.contains(k),
            },
    {
        let mut i: usize = 0;
        while i < self.items.len()
            invariant
                i <= self.items@.len(),
                forall|j: int| 0 <= j < i ==> self.items@[j] != k,
            decreases self.items@.len() - i,
        {
            if self.items[i] == k {
                return Some(i);
            }
            i = i + 1;
        }
        proof {
            if self@.contains(k) {
                let j = choose|j: int| 0 <= j < self.items@.len() && self.items@[j] == k;
            }
        }
        None
    }

    pub fn contains(&self, k: u16) -> (r: bool)
        ensures
            r == self@.contains(k),
    {
        self.position(k).is_some()
    }

    pub fn insert(&mut self, k: u16)
        requires
            old(self).wf(),
        ensures
            final(self).wf(),
            final(self)@ == old(self)@.insert(k),
    {
        let ghost s0 = self.items@;
        match self.position(k) {
            Some(_) => {
                proof {
                    assert(self@ =~= old(self)@.insert(k));
                }
            },
            None => {
                self.items.push(k);
                proof {
                    assert forall|a: int, b: int|
                        0 <= a < b < self.items@.len() implies self.items@[a] != self.items@[b] by {
                        if b == self.items@.len() - 1 {
                            assert(self.items@[a] == s0[a]);
                            assert(s0.contains(s0[a]));
                        }
                    }
                    assert(self@ =~= old(self)@.insert(k)) by {
                        assert forall|x: u16| self@.contains(x) implies old(self)@.insert(
                            k,
                        ).contains(x) by {
                            let j = choose|j: int|
                                0 <= j < self.items@.len() && self.items@[j] == x;
                            if j < s0.len() {
                                assert(s0.contains(x));
                            }
                        }
                        assert forall|x: u16| old(self)@.insert(k).contains(x) implies self@.contains(
                            x,
                        ) by {
                            if x == k {
                                assert(self.items@.last() == k);
                            } else {
                                let j = choose|j: int| 0 <= j < s0.len() && s0[j] == x;
                                assert(self.items@[j] == x);
                            }
                        }
                    }
                }
            },
        }
    }

    /// Take `k` out, reporting whether it was present.
    pub fn take(&mut self, k: u16) -> (r: bool)
        requires
            old(self).wf(),
        ensures
            final(self).wf(),
            final(self)@ == old(self)@.remove(k),
            r == old(self)@.contains(k),
    {
        let ghost s0 = self.items@;
        match self.position(k) {
            Some(i) => {
                self.items.remove(i);
                proof {
                    let s1 = s0.remove(i as int);
                    assert forall|a: int, b: int| 0 <= a < b < s1.len() implies s1[a] != s1[b] by {
                        assert(s1[a] == if a < i {
                            s0[a]
                        } else {
                            s0[a + 1]
                        });
                        assert(s1[b] == if b < i {
                            s0[b]
                        } else {
                            s0[b + 1]
                        });
                    }
                    assert(self@ =~= old(self)@.remove(k)) by {
                        assert forall|x: u16| self@.contains(x) implies old(self)@.remove(
                            k,
                        ).contains(x) by {
                            let j = choose|j: int| 0 <= j < s1.len() && s1[j] == x;
                            assert(s1[j] == if j < i {
                                s0[j]
                            } else {
                                s0[j + 1]
                            });
                            assert(s0.contains(x));
                            assert(x != k) by {
                                if j < i {
                                    assert(s0[j] != s0[i as int]);
                                } else {
                                    assert(s0[j + 1] != s0[i as int]);
                                }
                            }
                        }
                        assert forall|x: u16| old(self)@.remove(k).contains(x) implies self@.contains(
                            x,
                        ) by {
                            let j = choose|j: int| 0 <= j < s0.len() && s0[j] == x;
                            assert(j != i);
                            if j < i {
                                assert(s1[j] == x);
                            } else {
                                assert(s1[j - 1] == x);
                            }
                        }
                    }
                }
                true
            },
            None => {
                proof {
                    assert(self@ =~= old(self)@.remove(k));
                }
                false
            },
        }
    }

    pub fn len(&self) -> (r: usize)
        ensures
            r == self.items@.len(),
    {
        self.items.len()
    }
}

} // verus!
