//! The replica values the serializer reads payloads from.
//!
//! The engine never owns the application's world; it reads component
//! values through a narrow interface when an action's payload is written.
//! `World` is the plain in-memory store the server coordinator keeps in
//! step with the world record.

use vstd::prelude::*;

use crate::diff_mask::DiffMask;
use crate::keyed_vec::KeyedVec;
use crate::replica::{apply_masked, Replica, ReplicaView};

verus! {

/// Read access to component values, keyed by global component key.
pub trait WorldRefType {
    /// Component key to the replica value it currently holds.
    spec fn components(&self) -> Map<u16, ReplicaView>;

    spec fn inv(&self) -> bool;

    /// Whether a component key holds a value.
    fn has_component(&self, component: u16) -> (r: bool)
        requires
            self.inv(),
        ensures
            r == self.components().dom().contains(component),
    ;

    /// The replica value under a component key.
    fn get_component(&self, component: u16) -> (r: Option<&Replica>)
        requires
            self.inv(),
        ensures
            match r {
                Some(rep) => self.components().dom().contains(component) && rep@
                    == self.components()[component],
                None => !self.components().dom().contains(component),
            },
    ;
}

/// The server's own component store.
pub struct World {
    pub store: KeyedVec<Replica>,
}

impl World {
    pub fn new() -> (r: World)
        ensures
            r.inv(),
            r.components() == Map::<u16, ReplicaView>::empty(),
    {
        let r = World { store: KeyedVec::new() };
        proof {
            assert(r.components() =~= Map::<u16, ReplicaView>::empty());
        }
        r
    }

    /// Store a component's value under its key.
    pub fn insert_component(&mut self, component: u16, value: Replica)
        requires
            old(self).inv(),
        ensures
            final(self).inv(),
            final(self).components() == old(self).components().insert(component, value@),
    {
        self.store.insert(component, value);
        proof {
            assert(self.components() =~~= old(self).components().insert(component, value@));
        }
    }

    /// Drop a component's value, giving it back.
    pub fn remove_component(&mut self, component: u16) -> (r: Option<Replica>)
        requires
            old(self).inv(),
        ensures
            final(self).inv(),
            final(self).components() == old(self).components().remove(component),
            match r {
                Some(rep) => old(self).components().dom().contains(component) && rep@ == old(self).components()[component],
                None => !old(self).components().dom().contains(component),
            },
    {
        let r = self.store.remove(component);
        proof {
            assert(self.components() =~~= old(self).components().remove(component));
        }
        r
    }

    /// Apply a masked partial write to a stored component.
    pub fn component_apply_update(&mut self, component: u16, mask: &DiffMask, data: &Vec<u8>)
        requires
            old(self).inv(),
            mask.wf(),
            old(self).components().dom().contains(component),
        ensures
            final(self).inv(),
            final(self).components().dom() == old(self).components().dom(),
            forall|ck: u16|
                final(self).components().dom().contains(ck) && ck != component ==> final(self).components()[ck] == old(self).components()[ck],
            final(self).components()[component].kind == old(self).components()[component].kind,
            masked_len_fits(old(self).components()[component].properties, mask@, data@) ==> final(self).components()[component].properties == apply_masked(
                old(self).components()[component].properties,
                mask@,
                data@,
                0,
            ),
    {
        let mut rep = match self.store.remove(component) {
            Some(r) => r,
            None => vstd::pervasive::unreached(),
        };
        let ghost rep0 = rep@;
        let mut copy: Vec<u8> = Vec::new();
        let mut i: usize = 0;
        while i < data.len()
            invariant
                i <= data@.len(),
                copy@ == data@.take(i as int),
            decreases data@.len() - i,
        {
            copy.push(data[i]);
            i = i + 1;
            assert(copy@ =~= data@.take(i as int));
        }
        assert(copy@ =~= data@);
        let mut reader = crate::bytes::PacketReader::new(copy);
        let ok = rep.read_partial(mask, &mut reader);
        self.store.insert(component, rep);
        proof {
            assert(self.components().dom() =~= old(self).components().dom());
            if masked_len_fits(rep0.properties, mask@, data@) {
                assert(ok);
            }
        }
    }
}

/// Whether a partial payload holds enough bytes for every masked property.
pub open spec fn masked_len_fits(props: Seq<u8>, mask: Seq<u8>, data: Seq<u8>) -> bool {
    crate::replica::masked_bytes(props, mask, 0).len() <= data.len()
}

impl WorldRefType for World {
    open spec fn components(&self) -> Map<u16, ReplicaView> {
        self.store@.map_values(|r: Replica| r@)
    }

    open spec fn inv(&self) -> bool {
        self.store.wf()
    }

    fn has_component(&self, component: u16) -> (r: bool) {
        let r = self.store.contains_key(component);
        proof {
            assert(self.components().dom() =~= self.store@.dom());
        }
        r
    }

    fn get_component(&self, component: u16) -> (r: Option<&Replica>) {
        proof {
            assert(self.components().dom() =~= self.store@.dom());
        }
        self.store.get(component)
    }
}

} // verus!
