//! The server-global record of the authoritative world's shape.
//!
//! For each entity, the set of its component keys; for each component
//! key, its owning entity and its kind. The two tables always agree: a
//! component key stands in its entity's set exactly when the component
//! table maps it to that entity.

use vstd::pervasive::unreached;
use vstd::prelude::*;

use crate::keyed_vec::{KeySet, KeyedVec};

verus! {

pub struct WorldRecord {
    pub entities: KeyedVec<KeySet>,
    pub components: KeyedVec<(u16, u16)>,
}

impl WorldRecord {
    /// Entity to its component-key set.
    pub open spec fn entities_view(self) -> Map<u16, Set<u16>> {
        self.entities@.map_values(|s: KeySet| s@)
    }

    /// Component key to its entity and kind.
    pub open spec fn components_view(self) -> Map<u16, (u16, u16)> {
        self.components@
    }

    pub open spec fn wf(self) -> bool {
        &&& self.entities.wf()
        &&& self.components.wf()
        &&& forall|e: u16| #[trigger]
            self.entities@.dom().contains(e) ==> self.entities@[e].wf()
        &&& forall|ck: u16| #[trigger]
            self.components@.dom().contains(ck) ==> self.entities@.dom().contains(
                self.components@[ck].0,
            ) && self.entities@[self.components@[ck].0]@.contains(ck)
        &&& forall|e: u16, ck: u16|
            self.entities@.dom().contains(e) && #[trigger] self.entities@[e]@.contains(ck)
                ==> self.components@.dom().contains(ck) && self.components@[ck].0 == e
    }

    pub fn new() -> (r: WorldRecord)
        ensures
            r.wf(),
            r.entities_view() == Map::<u16, Set<u16>>::empty(),
            r.components_view() == Map::<u16, (u16, u16)>::empty(),
    {
        let r = WorldRecord { entities: KeyedVec::new(), components: KeyedVec::new() };
        proof {
            assert(r.entities_view() =~= Map::<u16, Set<u16>>::empty());
        }
        r
    }

    pub fn has_entity(&self, entity: u16) -> (r: bool)
        requires
            self.wf(),
        ensures
            r == self.entities_view().dom().contains(entity),
    {
        let r = self.entities.contains_key(entity);
        proof {
            assert(self.entities_view().dom() =~= self.entities@.dom());
        }
        r
    }

    /// Record a fresh entity with no components yet.
    pub fn spawn_entity(&mut self, entity: u16)
        requires
            old(self).wf(),
            !old(self).entities_view().dom().contains(entity),
        ensures
            final(self).wf(),
            final(self).entities_view() == old(self).entities_view().insert(
                entity,
                Set::<u16>::empty(),
            ),
            final(self).components_view() == old(self).components_view(),
    {
        proof {
            assert(self.entities_view().dom() =~= self.entities@.dom());
        }
        self.entities.insert(entity, KeySet::new());
        proof {
            assert(self.entities_view() =~= old(self).entities_view().insert(
                entity,
                Set::<u16>::empty(),
            ));
            assert forall|ck: u16| #[trigger]
                self.components@.dom().contains(ck) implies self.entities@.dom().contains(
                self.components@[ck].0,
            ) && self.entities@[self.components@[ck].0]@.contains(ck) by {
                assert(old(self).components@.dom().contains(ck));
                assert(self.components@[ck].0 != entity || !old(self).entities@.dom().contains(
                    entity,
                ));
            }
        }
    }

    /// Remove an entity that has no components left.
    pub fn despawn_entity(&mut self, entity: u16)
        requires
            old(self).wf(),
            old(self).entities_view().dom().contains(entity),
            old(self).entities_view()[entity] == Set::<u16>::empty(),
        ensures
            final(self).wf(),
            final(self).entities_view() == old(self).entities_view().remove(entity),
            final(self).components_view() == old(self).components_view(),
    {
        proof {
            assert(self.entities_view().dom() =~= self.entities@.dom());
        }
        let _ = self.entities.remove(entity);
        proof {
            assert(self.entities_view() =~= old(self).entities_view().remove(entity));
            assert forall|ck: u16| #[trigger]
                self.components@.dom().contains(ck) implies self.entities@.dom().contains(
                self.components@[ck].0,
            ) && self.entities@[self.components@[ck].0]@.contains(ck) by {
                let e = self.components@[ck].0;
                assert(old(self).entities@.dom().contains(e));
                assert(old(self).entities@[e]@.contains(ck));
                if e == entity {
                    assert(old(self).entities_view()[entity].contains(ck));
                }
            }
        }
    }

    /// Record a fresh component of `kind` on an existing entity.
    pub fn add_component(&mut self, entity: u16, component: u16, kind: u16)
        requires
            old(self).wf(),
            old(self).entities_view().dom().contains(entity),
            !old(self).components_view().dom().contains(component),
        ensures
            final(self).wf(),
            final(self).entities_view() == old(self).entities_view().insert(
                entity,
                old(self).entities_view()[entity].insert(component),
            ),
            final(self).components_view() == old(self).components_view().insert(
                component,
                (entity, kind),
            ),
    {
        proof {
            assert(self.entities_view().dom() =~= self.entities@.dom());
        }
        let mut set = match self.entities.remove(entity) {
            Some(s) => s,
            None => KeySet::new(),
        };
        set.insert(component);
        self.entities.insert(entity, set);
        self.components.insert(component, (entity, kind));
        proof {
            assert(self.entities_view() =~= old(self).entities_view().insert(
                entity,
                old(self).entities_view()[entity].insert(component),
            ));
            assert forall|ck: u16| #[trigger]
                self.components@.dom().contains(ck) implies self.entities@.dom().contains(
                self.components@[ck].0,
            ) && self.entities@[self.components@[ck].0]@.contains(ck) by {
                if ck != component {
                    assert(old(self).components@.dom().contains(ck));
                    let e = old(self).components@[ck].0;
                    if e == entity {
                        assert(old(self).entities@[entity]@.contains(ck));
                    }
                }
            }
            assert forall|e: u16, ck: u16|
                self.entities@.dom().contains(e) && #[trigger] self.entities@[e]@.contains(
                    ck,
                ) implies self.components@.dom().contains(ck) && self.components@[ck].0 == e by {
                if e == entity {
                    if ck != component {
                        assert(old(self).entities@[entity]@.contains(ck));
                    }
                } else {
                    assert(old(self).entities@[e]@.contains(ck));
                }
            }
        }
    }

    /// Remove a component from both tables.
    pub fn remove_component(&mut self, component: u16)
        requires
            old(self).wf(),
            old(self).components_view().dom().contains(component),
        ensures
            final(self).wf(),
            final(self).components_view() == old(self).components_view().remove(component),
            final(self).entities_view() == old(self).entities_view().insert(
                old(self).components_view()[component].0,
                old(self).entities_view()[old(self).components_view()[component].0].remove(
                    component,
                ),
            ),
    {
        proof {
            assert(self.entities_view().dom() =~= self.entities@.dom());
        }
        let (entity, _) = match self.components.remove(component) {
            Some(p) => p,
            None => (0, 0),
        };
        let mut set = match self.entities.remove(entity) {
            Some(s) => s,
            None => KeySet::new(),
        };
        let _ = set.take(component);
        self.entities.insert(entity, set);
        proof {
            assert(self.entities_view() =~= old(self).entities_view().insert(
                entity,
                old(self).entities_view()[entity].remove(component),
            ));
            assert forall|ck: u16| #[trigger]
                self.components@.dom().contains(ck) implies self.entities@.dom().contains(
                self.components@[ck].0,
            ) && self.entities@[self.components@[ck].0]@.contains(ck) by {
                assert(old(self).components@.dom().contains(ck));
                assert(ck != component);
                let e = old(self).components@[ck].0;
                assert(old(self).entities@[e]@.contains(ck));
            }
            assert forall|e: u16, ck: u16|
                self.entities@.dom().contains(e) && #[trigger] self.entities@[e]@.contains(
                    ck,
                ) implies self.components@.dom().contains(ck) && self.components@[ck].0 == e by {
                if e == entity {
                    assert(old(self).entities@[entity]@.contains(ck));
                    assert(ck != component);
                } else {
                    assert(old(self).entities@[e]@.contains(ck));
                    assert(ck != component);
                }
            }
        }
    }

    /// The component keys of an entity, in record order.
    pub fn get_component_keys(&self, entity: u16) -> (r: Vec<u16>)
        requires
            self.wf(),
            self.entities_view().dom().contains(entity),
        ensures
            r@ == self.entities@[entity].items@,
            r@.to_set() == self.entities_view()[entity],
            forall|i: int, j: int| 0 <= i < j < r@.len() ==> r@[i] != r@[j],
            forall|i: int| 0 <= i < r@.len() ==> self.components_view().dom().contains(r@[i])
                && self.components_view()[r@[i]].0 == entity,
    {
        proof {
            assert(self.entities_view().dom() =~= self.entities@.dom());
        }
        let set = match self.entities.get(entity) {
            Some(s) => s,
            None => unreached(),
        };
        let mut r: Vec<u16> = Vec::new();
        let mut i: usize = 0;
        while i < set.items.len()
            invariant
                i <= set.items@.len(),
                r@ == set.items@.take(i as int),
            decreases set.items@.len() - i,
        {
            r.push(set.items[i]);
            i = i + 1;
            assert(r@ =~= set.items@.take(i as int));
        }
        proof {
            assert(r@ =~= set.items@);
            assert(r@.to_set() =~= self.entities_view()[entity]);
            assert forall|j: int|
                0 <= j < r@.len() implies self.components_view().dom().contains(r@[j])
                && self.components_view()[r@[j]].0 == entity by {
                assert(set.items@.contains(r@[j]));
                assert(self.entities@[entity]@.contains(r@[j]));
            }
        }
        r
    }

    /// The component keys of an entity, or `None` for an unknown entity.
    pub fn get_component_keys_checked(&self, entity: u16) -> (r: Option<Vec<u16>>)
        requires
            self.wf(),
        ensures
            match r {
                Some(keys) => self.entities_view().dom().contains(entity) && keys@.to_set()
                    == self.entities_view()[entity],
                None => !self.entities_view().dom().contains(entity),
            },
    {
        if self.has_entity(entity) {
            Some(self.get_component_keys(entity))
        } else {
            None
        }
    }

    /// The entity and kind of a component key.
    pub fn get_component_record(&self, component: u16) -> (r: Option<(u16, u16)>)
        requires
            self.wf(),
        ensures
            match r {
                Some(p) => self.components_view().dom().contains(component)
                    && self.components_view()[component] == p,
                None => !self.components_view().dom().contains(component),
            },
    {
        match self.components.get(component) {
            Some(p) => Some(*p),
            None => None,
        }
    }
}

} // verus!
