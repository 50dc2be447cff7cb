//! The per-connection server entity manager.
//!
//! Turns mutations of the authoritative world into an ordered stream of
//! entity actions and diff-mask updates, tracks what each packet carried,
//! and reconciles drops and deliveries: guaranteed actions re-enqueue
//! verbatim on drop, update masks fold back into the live mask minus the
//! bits later in-flight updates already carry, and local keys recycle only
//! when the delete that frees them is acked.

use vstd::prelude::*;

use crate::diff_handler::UserDiffHandler;
use crate::diff_mask::{mask_bit, DiffMask};
use crate::entity_action::{
    is_guaranteed, ActionView, EntityAction, LocalComponentRecord, LocalEntityRecord,
    LocalityStatus,
};
use crate::key_generator::KeyGenerator;
use crate::keyed_vec::{KeySet, KeyedVec};
use crate::bytes::{u16_be_bytes, write_u16_be, write_u8};
use crate::packet_writer::{PacketWriter, MTU_SIZE};
use crate::replica::{masked_bytes, Manifest, ReplicaView};
use crate::world::WorldRefType;
use crate::world_record::WorldRecord;
use std::collections::VecDeque;

verus! {

pub struct EntityManager {
    pub entity_generator: KeyGenerator,
    pub entity_records: KeyedVec<LocalEntityRecord>,
    pub local_to_global_entity: KeyedVec<u16>,
    pub delayed_entity_deletions: KeySet,
    pub diff_handler: UserDiffHandler,
    pub component_key_generator: KeyGenerator,
    pub local_to_global_component: KeyedVec<u16>,
    pub component_records: KeyedVec<LocalComponentRecord>,
    pub delayed_component_deletions: KeySet,
    pub queued_actions: VecDeque<EntityAction>,
    pub sent_actions: KeyedVec<Vec<EntityAction>>,
    pub sent_updates: KeyedVec<KeyedVec<DiffMask>>,
    pub last_update_packet_index: u16,
    pub last_last_update_packet_index: u16,
    pub last_popped_diff_mask: Option<DiffMask>,
    pub last_popped_diff_mask_list: Option<Vec<(u16, DiffMask)>>,
    pub delivered_packets: VecDeque<u16>,
}

impl EntityManager {
    /// Actions pending first transmission, front first.
    pub open spec fn queued(self) -> Seq<ActionView> {
        self.queued_actions.deep_view()
    }

    /// What each in-flight packet carried.
    pub open spec fn sent(self) -> Map<u16, Seq<ActionView>> {
        self.sent_actions@.map_values(|v: Vec<EntityAction>| v.deep_view())
    }

    /// The exact mask snapshot each in-flight packet wrote per component.
    pub open spec fn updates(self) -> Map<u16, Map<u16, Seq<u8>>> {
        self.sent_updates@.map_values(|kv: KeyedVec<DiffMask>| kv@.map_values(|m: DiffMask| m@))
    }

    /// The live dirty mask of each in-scope component.
    pub open spec fn masks(self) -> Map<u16, Seq<u8>> {
        self.diff_handler@
    }

    /// Local entity keys and records agree and issued keys are owned.
    pub open spec fn entity_keys_wf(self) -> bool {
        &&& forall|e: u16| #[trigger]
            self.entity_records@.dom().contains(e) ==> self.local_to_global_entity@.dom().contains(
                self.entity_records@[e].local_key,
            ) && self.local_to_global_entity@[self.entity_records@[e].local_key] == e
        &&& forall|lk: u16| #[trigger]
            self.local_to_global_entity@.dom().contains(lk) ==> self.entity_records@.dom().contains(
                self.local_to_global_entity@[lk],
            ) && self.entity_records@[self.local_to_global_entity@[lk]].local_key == lk
        &&& forall|lk: u16| #[trigger]
            self.local_to_global_entity@.dom().contains(lk) ==> !self.entity_generator.is_free(lk)
    }

    /// Local component keys and records agree and issued keys are owned.
    pub open spec fn component_keys_wf(self) -> bool {
        &&& forall|ck: u16| #[trigger]
            self.component_records@.dom().contains(ck)
                ==> self.local_to_global_component@.dom().contains(
                self.component_records@[ck].local_key,
            ) && self.local_to_global_component@[self.component_records@[ck].local_key] == ck
        &&& forall|lk: u16| #[trigger]
            self.local_to_global_component@.dom().contains(lk)
                ==> self.component_records@.dom().contains(self.local_to_global_component@[lk])
                && self.component_records@[self.local_to_global_component@[lk]].local_key == lk
        &&& forall|lk: u16| #[trigger]
            self.local_to_global_component@.dom().contains(lk)
                ==> !self.component_key_generator.is_free(lk)
    }

    pub open spec fn wf(self) -> bool {
        &&& self.entity_records.wf()
        &&& self.local_to_global_entity.wf()
        &&& self.delayed_entity_deletions.wf()
        &&& self.diff_handler.wf()
        &&& self.local_to_global_component.wf()
        &&& self.component_records.wf()
        &&& self.delayed_component_deletions.wf()
        &&& self.sent_actions.wf()
        &&& self.sent_updates.wf()
        &&& forall|p: u16| #[trigger]
            self.sent_updates@.dom().contains(p) ==> self.sent_updates@[p].wf()
        &&& self.entity_generator.wf()
        &&& self.component_key_generator.wf()
        &&& self.entity_keys_wf()
        &&& self.component_keys_wf()
        &&& self.component_records@.dom() == self.diff_handler@.dom()
    }

    pub fn new() -> (r: EntityManager)
        ensures
            r.wf(),
            r.queued() == Seq::<ActionView>::empty(),
            r.sent() == Map::<u16, Seq<ActionView>>::empty(),
            r.updates() == Map::<u16, Map<u16, Seq<u8>>>::empty(),
            r.masks() == Map::<u16, Seq<u8>>::empty(),
            r.entity_records@ == Map::<u16, LocalEntityRecord>::empty(),
            r.component_records@ == Map::<u16, LocalComponentRecord>::empty(),
            r.delayed_entity_deletions@ == Set::<u16>::empty(),
            r.delayed_component_deletions@ == Set::<u16>::empty(),
            r.delivered_packets@ == Seq::<u16>::empty(),
    {
        let r = EntityManager {
            entity_generator: KeyGenerator::new(),
            entity_records: KeyedVec::new(),
            local_to_global_entity: KeyedVec::new(),
            delayed_entity_deletions: KeySet::new(),
            diff_handler: UserDiffHandler::new(),
            component_key_generator: KeyGenerator::new(),
            local_to_global_component: KeyedVec::new(),
            component_records: KeyedVec::new(),
            delayed_component_deletions: KeySet::new(),
            queued_actions: VecDeque::new(),
            sent_actions: KeyedVec::new(),
            sent_updates: KeyedVec::new(),
            last_update_packet_index: 0,
            last_last_update_packet_index: 0,
            last_popped_diff_mask: None,
            last_popped_diff_mask_list: None,
            delivered_packets: VecDeque::new(),
        };
        proof {
            assert(r.queued() =~= Seq::<ActionView>::empty());
            assert(r.sent() =~= Map::<u16, Seq<ActionView>>::empty());
            assert(r.updates() =~= Map::<u16, Map<u16, Seq<u8>>>::empty());
            assert(r.component_records@.dom() =~= r.diff_handler@.dom());
        }
        r
    }

    pub fn has_outgoing_actions(&self) -> (r: bool)
        ensures
            r == (self.queued().len() != 0),
    {
        self.queued_actions.len() != 0
    }

    pub fn has_entity(&self, entity: u16) -> (r: bool)
        requires
            self.wf(),
        ensures
            r == self.entity_records@.dom().contains(entity),
    {
        self.entity_records.contains_key(entity)
    }

    pub fn has_entity_prediction(&self, entity: u16) -> (r: bool)
        requires
            self.wf(),
        ensures
            r == (self.entity_records@.dom().contains(entity)
                && self.entity_records@[entity].is_prediction),
    {
        match self.entity_records.get(entity) {
            Some(record) => record.is_prediction,
            None => false,
        }
    }

    /// The global entity a wire-local key names, if the mapping is live.
    pub fn get_global_entity_from_local(&self, local_entity: u16) -> (r: Option<u16>)
        requires
            self.wf(),
        ensures
            match r {
                Some(e) => self.local_to_global_entity@.dom().contains(local_entity)
                    && self.local_to_global_entity@[local_entity] == e,
                None => !self.local_to_global_entity@.dom().contains(local_entity),
            },
    {
        match self.local_to_global_entity.get(local_entity) {
            Some(e) => Some(*e),
            None => None,
        }
    }

    /// Register one component: allocate its mask and local key, record its
    /// status.
    fn component_init(&mut self, component: u16, status: LocalityStatus, mask_bytes: u8) -> (lk:
        u16)
        requires
            old(self).wf(),
            !old(self).component_records@.dom().contains(component),
            old(self).component_key_generator.can_generate(),
        ensures
            final(self).wf(),
            final(self).component_records@ == old(self).component_records@.insert(
                component,
                LocalComponentRecord { local_key: lk, status },
            ),
            final(self).masks().dom() == old(self).masks().dom().insert(component),
            final(self).masks()[component].len() == mask_bytes,
            forall|i: int| !mask_bit(final(self).masks()[component], i),
            forall|ck: u16|
                final(self).masks().dom().contains(ck) && ck != component ==> final(self).masks()[ck]
                    == old(self).masks()[ck],
            final(self).entity_records@ == old(self).entity_records@,
            final(self).local_to_global_entity@ == old(self).local_to_global_entity@,
            final(self).entity_generator == old(self).entity_generator,
            final(self).queued_actions == old(self).queued_actions,
            final(self).sent_actions == old(self).sent_actions,
            final(self).sent_updates == old(self).sent_updates,
            final(self).delayed_entity_deletions == old(self).delayed_entity_deletions,
            final(self).delayed_component_deletions == old(self).delayed_component_deletions,
            final(self).delivered_packets == old(self).delivered_packets,
            final(self).last_popped_diff_mask == old(self).last_popped_diff_mask,
            final(self).last_popped_diff_mask_list == old(self).last_popped_diff_mask_list,
            final(self).last_update_packet_index == old(self).last_update_packet_index,
            final(self).last_last_update_packet_index == old(self).last_last_update_packet_index,
            forall|n: int|
                old(self).component_key_generator.can_generate_n(n) ==> final(self).component_key_generator.can_generate_n(n - 1),
            final(self).entity_records == old(self).entity_records,
    {
        proof {
            assert(self.masks().dom() =~= self.diff_handler.masks@.dom());
        }
        self.diff_handler.register_component(component, mask_bytes);
        let local_key = self.component_key_generator.generate();
        proof {
            if self.local_to_global_component@.dom().contains(local_key) {
                assert(!old(self).component_key_generator.is_free(local_key));
            }
        }
        self.local_to_global_component.insert(local_key, component);
        self.component_records.insert(
            component,
            LocalComponentRecord { local_key, status },
        );
        proof {
            assert(self.component_records@.dom() =~= self.diff_handler@.dom());
            assert forall|ck: u16| #[trigger]
                self.component_records@.dom().contains(
                    ck,
                ) implies self.local_to_global_component@.dom().contains(
                self.component_records@[ck].local_key,
            ) && self.local_to_global_component@[self.component_records@[ck].local_key] == ck by {
                if ck != component {
                    assert(old(self).component_records@.dom().contains(ck));
                    assert(old(self).component_records@[ck].local_key != local_key);
                }
            }
            assert forall|lk2: u16| #[trigger]
                self.local_to_global_component@.dom().contains(
                    lk2,
                ) implies self.component_records@.dom().contains(self.local_to_global_component@[lk2])
                && self.component_records@[self.local_to_global_component@[lk2]].local_key
                == lk2 by {
                if lk2 != local_key {
                    assert(old(self).local_to_global_component@.dom().contains(lk2));
                    assert(old(self).local_to_global_component@[lk2] != component);
                }
            }
            assert(self.masks().dom() =~= old(self).masks().dom().insert(component));
        }
        local_key
    }

    /// Forget one component: drop its mask and record, recycle its local
    /// key. A duplicate cleanup (the record is already gone) changes
    /// nothing.
    fn component_cleanup(&mut self, component: u16)
        requires
            old(self).wf(),
        ensures
            final(self).wf(),
            final(self).component_records@ == old(self).component_records@.remove(component),
            final(self).masks() == old(self).masks().remove(component),
            final(self).entity_records@ == old(self).entity_records@,
            final(self).local_to_global_entity@ == old(self).local_to_global_entity@,
            final(self).entity_generator == old(self).entity_generator,
            final(self).queued_actions == old(self).queued_actions,
            final(self).sent_actions == old(self).sent_actions,
            final(self).sent_updates == old(self).sent_updates,
            final(self).delayed_entity_deletions == old(self).delayed_entity_deletions,
            final(self).delayed_component_deletions == old(self).delayed_component_deletions,
            final(self).delivered_packets == old(self).delivered_packets,
            final(self).last_popped_diff_mask == old(self).last_popped_diff_mask,
            final(self).last_popped_diff_mask_list == old(self).last_popped_diff_mask_list,
            final(self).last_update_packet_index == old(self).last_update_packet_index,
            final(self).last_last_update_packet_index == old(self).last_last_update_packet_index,
            old(self).component_records@.dom().contains(component) ==> final(self).component_key_generator.is_free(
                old(self).component_records@[component].local_key,
            ) && final(self).local_to_global_component@ == old(self).local_to_global_component@.remove(
                old(self).component_records@[component].local_key,
            ),
    {
        match self.component_records.remove(component) {
            Some(record) => {
                self.diff_handler.deregister_component(component);
                let _ = self.local_to_global_component.remove(record.local_key);
                proof {
                    assert(old(self).component_records@.dom().contains(component));
                    assert(old(self).local_to_global_component@.dom().contains(record.local_key));
                    assert(!old(self).component_key_generator.is_free(record.local_key));
                }
                self.component_key_generator.recycle_key(record.local_key);
                proof {
                    assert(self.component_records@.dom() =~= self.diff_handler@.dom());
                    assert forall|ck: u16| #[trigger]
                        self.component_records@.dom().contains(
                            ck,
                        ) implies self.local_to_global_component@.dom().contains(
                        self.component_records@[ck].local_key,
                    ) && self.local_to_global_component@[self.component_records@[ck].local_key]
                        == ck by {
                        assert(old(self).component_records@.dom().contains(ck));
                        assert(ck != component);
                        assert(old(self).component_records@[ck].local_key != record.local_key);
                    }
                    assert forall|lk2: u16| #[trigger]
                        self.local_to_global_component@.dom().contains(
                            lk2,
                        ) implies self.component_records@.dom().contains(
                        self.local_to_global_component@[lk2],
                    ) && self.component_records@[self.local_to_global_component@[lk2]].local_key
                        == lk2 by {
                        assert(old(self).local_to_global_component@.dom().contains(lk2));
                        assert(lk2 != record.local_key);
                        assert(old(self).local_to_global_component@[lk2] != component);
                    }
                    assert forall|lk2: u16| #[trigger]
                        self.local_to_global_component@.dom().contains(
                            lk2,
                        ) implies !self.component_key_generator.is_free(lk2) by {
                        assert(lk2 != record.local_key);
                        assert(!old(self).component_key_generator.is_free(lk2));
                    }
                    assert(self.masks() =~= old(self).masks().remove(component));
                }
            },
            None => {
                proof {
                    assert(self.component_records@ =~= old(self).component_records@.remove(
                        component,
                    ));
                    assert(self.masks().dom() =~= self.diff_handler.masks@.dom());
                    assert(!self.masks().dom().contains(component));
                    assert(self.masks() =~= old(self).masks().remove(component));
                }
            },
        }
    }

    /// Overwrite an entity's record, keeping its local key.
    fn update_entity_record(&mut self, entity: u16, record: LocalEntityRecord)
        requires
            old(self).wf(),
            old(self).entity_records@.dom().contains(entity),
            record.local_key == old(self).entity_records@[entity].local_key,
        ensures
            final(self).wf(),
            final(self).entity_records@ == old(self).entity_records@.insert(entity, record),
            final(self).local_to_global_entity@ == old(self).local_to_global_entity@,
            final(self).entity_generator == old(self).entity_generator,
            final(self).component_key_generator == old(self).component_key_generator,
            final(self).component_records@ == old(self).component_records@,
            final(self).local_to_global_component@ == old(self).local_to_global_component@,
            final(self).diff_handler == old(self).diff_handler,
            final(self).queued_actions == old(self).queued_actions,
            final(self).sent_actions == old(self).sent_actions,
            final(self).sent_updates == old(self).sent_updates,
            final(self).delayed_entity_deletions == old(self).delayed_entity_deletions,
            final(self).delayed_component_deletions == old(self).delayed_component_deletions,
            final(self).delivered_packets == old(self).delivered_packets,
            final(self).last_popped_diff_mask == old(self).last_popped_diff_mask,
            final(self).last_popped_diff_mask_list == old(self).last_popped_diff_mask_list,
            final(self).last_update_packet_index == old(self).last_update_packet_index,
            final(self).last_last_update_packet_index == old(self).last_last_update_packet_index,
    {
        self.entity_records.insert(entity, record);
        proof {
            assert forall|e: u16| #[trigger]
                self.entity_records@.dom().contains(
                    e,
                ) implies self.local_to_global_entity@.dom().contains(
                self.entity_records@[e].local_key,
            ) && self.local_to_global_entity@[self.entity_records@[e].local_key] == e by {
                if e != entity {
                    assert(old(self).entity_records@.dom().contains(e));
                } else {
                    assert(old(self).entity_records@[entity].local_key == record.local_key);
                }
            }
            assert forall|lk: u16| #[trigger]
                self.local_to_global_entity@.dom().contains(
                    lk,
                ) implies self.entity_records@.dom().contains(self.local_to_global_entity@[lk])
                && self.entity_records@[self.local_to_global_entity@[lk]].local_key == lk by {
                assert(old(self).entity_records@.dom().contains(old(self).local_to_global_entity@[lk]));
            }
        }
    }

    /// Overwrite a component's record, keeping its local key.
    fn update_component_record(&mut self, component: u16, record: LocalComponentRecord)
        requires
            old(self).wf(),
            old(self).component_records@.dom().contains(component),
            record.local_key == old(self).component_records@[component].local_key,
        ensures
            final(self).wf(),
            final(self).component_records@ == old(self).component_records@.insert(
                component,
                record,
            ),
            final(self).local_to_global_component@ == old(self).local_to_global_component@,
            final(self).entity_generator == old(self).entity_generator,
            final(self).component_key_generator == old(self).component_key_generator,
            final(self).entity_records@ == old(self).entity_records@,
            final(self).local_to_global_entity@ == old(self).local_to_global_entity@,
            final(self).diff_handler == old(self).diff_handler,
            final(self).queued_actions == old(self).queued_actions,
            final(self).sent_actions == old(self).sent_actions,
            final(self).sent_updates == old(self).sent_updates,
            final(self).delayed_entity_deletions == old(self).delayed_entity_deletions,
            final(self).delayed_component_deletions == old(self).delayed_component_deletions,
            final(self).delivered_packets == old(self).delivered_packets,
            final(self).last_popped_diff_mask == old(self).last_popped_diff_mask,
            final(self).last_popped_diff_mask_list == old(self).last_popped_diff_mask_list,
            final(self).last_update_packet_index == old(self).last_update_packet_index,
            final(self).last_last_update_packet_index == old(self).last_last_update_packet_index,
    {
        self.component_records.insert(component, record);
        proof {
            assert(self.component_records@.dom() =~= self.diff_handler@.dom());
            assert forall|ck: u16| #[trigger]
                self.component_records@.dom().contains(
                    ck,
                ) implies self.local_to_global_component@.dom().contains(
                self.component_records@[ck].local_key,
            ) && self.local_to_global_component@[self.component_records@[ck].local_key] == ck by {
                if ck != component {
                    assert(old(self).component_records@.dom().contains(ck));
                } else {
                    assert(old(self).component_records@[component].local_key == record.local_key);
                }
            }
            assert forall|lk: u16| #[trigger]
                self.local_to_global_component@.dom().contains(
                    lk,
                ) implies self.component_records@.dom().contains(self.local_to_global_component@[lk])
                && self.component_records@[self.local_to_global_component@[lk]].local_key
                == lk by {
                assert(old(self).component_records@.dom().contains(old(self).local_to_global_component@[lk]));
            }
        }
    }

    /// Begin replicating an entity: register each of its current
    /// components, allocate a local key, and queue the spawn action. The
    /// component list rides along at pop time, resolved from the live
    /// world record.
    #[verifier::rlimit(60)]
    pub fn spawn_entity(&mut self, world_record: &WorldRecord, manifest: &Manifest, entity: u16)
        requires
            old(self).wf(),
            world_record.wf(),
            manifest.wf(),
            !old(self).entity_records@.dom().contains(entity),
            world_record.entities_view().dom().contains(entity),
            old(self).entity_generator.can_generate(),
            old(self).component_key_generator.can_generate_n(
                world_record.entities_view()[entity].len() as int,
            ),
            forall|ck: u16| #[trigger]
                world_record.entities_view()[entity].contains(ck) ==> !old(self).component_records@.dom().contains(ck),
            forall|ck: u16| #[trigger]
                world_record.entities_view()[entity].contains(ck) ==> manifest@.dom().contains(
                    world_record.components_view()[ck].1,
                ),
        ensures
            final(self).wf(),
            final(self).queued() == old(self).queued().push(
                ActionView::SpawnEntity { entity, components: Seq::<(u16, u16)>::empty() },
            ),
            final(self).entity_records@.dom() == old(self).entity_records@.dom().insert(entity),
            final(self).entity_records@[entity].status == LocalityStatus::Creating,
            final(self).entity_records@[entity].is_prediction == false,
            forall|e: u16|
                e != entity && old(self).entity_records@.dom().contains(e) ==> final(self).entity_records@[e] == old(self).entity_records@[e],
            final(self).component_records@.dom() == old(self).component_records@.dom().union(
                world_record.entities_view()[entity],
            ),
            forall|ck: u16| #[trigger]
                world_record.entities_view()[entity].contains(ck) ==> final(self).component_records@[ck].status == LocalityStatus::Creating,
            forall|ck: u16| #[trigger]
                old(self).component_records@.dom().contains(ck) ==> final(self).component_records@[ck] == old(self).component_records@[ck],
            forall|ck: u16, i: int|
                world_record.entities_view()[entity].contains(ck) ==> !(#[trigger] mask_bit(
                    final(self).masks()[ck],
                    i,
                )),
            forall|ck: u16| #[trigger]
                old(self).masks().dom().contains(ck) ==> final(self).masks()[ck] == old(self).masks()[ck],
            final(self).sent_actions == old(self).sent_actions,
            final(self).sent_updates == old(self).sent_updates,
            final(self).delayed_entity_deletions == old(self).delayed_entity_deletions,
            final(self).delayed_component_deletions == old(self).delayed_component_deletions,
            final(self).delivered_packets == old(self).delivered_packets,
    {
        let component_keys = world_record.get_component_keys(entity);
        let ghost keys = component_keys@;
        let ghost world_set = world_record.entities_view()[entity];
        let n = component_keys.len();
        proof {
            assert(keys.no_duplicates());
            keys.unique_seq_to_set();
            assert(keys.to_set().len() == world_set.len());
            assert(keys.take(0).to_set() =~= Set::<u16>::empty());
        }
        let mut i: usize = 0;
        while i < n
            invariant
                i <= n,
                n == keys.len(),
                component_keys@ == keys,
                keys.to_set() == world_set,
                world_set == world_record.entities_view()[entity],
                world_record.wf(),
                manifest.wf(),
                forall|a: int, b: int| 0 <= a < b < keys.len() ==> keys[a] != keys[b],
                forall|a: int|
                    0 <= a < keys.len() ==> world_record.components_view().dom().contains(keys[a])
                        && world_record.components_view()[keys[a]].0 == entity,
                forall|ck: u16| #[trigger]
                    world_set.contains(ck) ==> !old(self).component_records@.dom().contains(ck),
                forall|ck: u16| #[trigger]
                    world_set.contains(ck) ==> manifest@.dom().contains(
                        world_record.components_view()[ck].1,
                    ),
                self.wf(),
                self.component_key_generator.can_generate_n(n - i),
                self.component_records@.dom() == old(self).component_records@.dom().union(
                    keys.take(i as int).to_set(),
                ),
                forall|a: int|
                    0 <= a < i ==> self.component_records@.dom().contains(keys[a])
                        && self.component_records@[keys[a]].status == LocalityStatus::Creating,
                forall|ck: u16| #[trigger]
                    old(self).component_records@.dom().contains(ck) ==> self.component_records@[ck]
                        == old(self).component_records@[ck],
                forall|a: int, bit: int|
                    0 <= a < i ==> !(#[trigger] mask_bit(self.masks()[keys[a]], bit)),
                forall|ck: u16| #[trigger]
                    old(self).masks().dom().contains(ck) ==> self.masks()[ck] == old(self).masks()[ck],
                self.entity_records@ == old(self).entity_records@,
                self.local_to_global_entity@ == old(self).local_to_global_entity@,
                self.entity_generator == old(self).entity_generator,
                self.queued_actions == old(self).queued_actions,
                self.sent_actions == old(self).sent_actions,
                self.sent_updates == old(self).sent_updates,
                self.delayed_entity_deletions == old(self).delayed_entity_deletions,
                self.delayed_component_deletions == old(self).delayed_component_deletions,
                self.delivered_packets == old(self).delivered_packets,
                !old(self).entity_records@.dom().contains(entity),
                old(self).entity_generator.can_generate(),
                old(self).wf(),
            decreases n - i,
        {
            let ck = component_keys[i];
            proof {
                assert(keys.to_set().contains(ck));
                assert(world_set.contains(ck));
                assert(!old(self).component_records@.dom().contains(ck));
                assert(!keys.take(i as int).to_set().contains(ck)) by {
                    if keys.take(i as int).to_set().contains(ck) {
                        let a = choose|a: int| 0 <= a < i && #[trigger] keys.take(i as int)[a] == ck;
                        assert(keys[a] == keys[i as int]);
                    }
                }
                assert(!self.component_records@.dom().contains(ck));
            }
            let (_, kind) = match world_record.get_component_record(ck) {
                Some(p) => p,
                None => vstd::pervasive::unreached(),
            };
            let count = match manifest.size_on_wire(kind) {
                Some(c) => c,
                None => vstd::pervasive::unreached(),
            };
            let mask_bytes: u8 = ((count as u16 + 7) / 8) as u8;
            let ghost pre = *self;
            let _ = self.component_init(ck, LocalityStatus::Creating, mask_bytes);
            i = i + 1;
            proof {
                assert forall|ck2: u16| #[trigger]
                    old(self).masks().dom().contains(ck2) implies self.masks()[ck2] == old(self).masks()[ck2] by {
                    assert(old(self).component_records@.dom().contains(ck2));
                    assert(pre.component_records@.dom().contains(ck2));
                    assert(pre.masks().dom().contains(ck2));
                    assert(ck2 != ck);
                    assert(self.masks().dom().contains(ck2));
                    assert(self.masks()[ck2] == pre.masks()[ck2]);
                }
                assert(keys.take(i as int) =~= keys.take(i - 1).push(ck));
                assert forall|x: u16|
                    keys.take(i as int).to_set().contains(x) <==> keys.take(
                        i - 1,
                    ).to_set().insert(ck).contains(x) by {
                    if keys.take(i as int).contains(x) {
                        let a = choose|a: int| 0 <= a < i && #[trigger] keys.take(i as int)[a] == x;
                        if a < i - 1 {
                            assert(keys.take(i - 1)[a] == x);
                        } else {
                            assert(x == ck);
                        }
                    }
                    if keys.take(i - 1).contains(x) {
                        let a = choose|a: int| 0 <= a < i - 1 && #[trigger] keys.take(i - 1)[a] == x;
                        assert(keys.take(i as int)[a] == x);
                    }
                    if x == ck {
                        assert(keys.take(i as int)[i - 1] == x);
                    }
                }
                assert(keys.take(i as int).to_set() =~= keys.take(i - 1).to_set().insert(ck));
                assert(self.component_records@.dom() =~= old(self).component_records@.dom().union(keys.take(i as int).to_set()));
            }
        }
        proof {
            assert(keys.take(n as int) =~= keys);
        }
        let ghost self_after_loop = *self;
        let local_entity = self.entity_generator.generate();
        proof {
            if self.local_to_global_entity@.dom().contains(local_entity) {
                assert(!old(self).entity_generator.is_free(local_entity));
            }
        }
        self.local_to_global_entity.insert(local_entity, entity);
        self.entity_records.insert(entity, LocalEntityRecord::new(local_entity));
        let ghost q0 = self.queued_actions.deep_view();
        self.queued_actions.push_back(
            EntityAction::SpawnEntity { entity, components: Vec::new() },
        );
        proof {
            assert forall|e: u16| #[trigger]
                self.entity_records@.dom().contains(
                    e,
                ) implies self.local_to_global_entity@.dom().contains(
                self.entity_records@[e].local_key,
            ) && self.local_to_global_entity@[self.entity_records@[e].local_key] == e by {
                if e != entity {
                    assert(old(self).entity_records@.dom().contains(e));
                    assert(old(self).entity_records@[e].local_key != local_entity);
                }
            }
            assert forall|lk: u16| #[trigger]
                self.local_to_global_entity@.dom().contains(
                    lk,
                ) implies self.entity_records@.dom().contains(self.local_to_global_entity@[lk])
                && self.entity_records@[self.local_to_global_entity@[lk]].local_key == lk by {
                if lk != local_entity {
                    assert(old(self).local_to_global_entity@.dom().contains(lk));
                    assert(old(self).local_to_global_entity@[lk] != entity);
                }
            }
            assert(self.queued() =~= old(self).queued().push(
                ActionView::SpawnEntity { entity, components: Seq::<(u16, u16)>::empty() },
            ));
            assert(self.entity_records@.dom() =~= old(self).entity_records@.dom().insert(
                entity,
            ));
            assert forall|ck: u16, bit: int|
                world_set.contains(ck) implies !(#[trigger] mask_bit(
                self.masks()[ck],
                bit,
            )) by {
                assert(keys.to_set().contains(ck));
                assert(keys.contains(ck));
                let a = choose|a: int| 0 <= a < keys.len() && keys[a] == ck;
                assert(!mask_bit(self_after_loop.masks()[keys[a]], bit));
                assert(self.diff_handler == self_after_loop.diff_handler);
            }
        }
    }

    /// Mark an entity for prediction on the client and queue the
    /// ownership action.
    pub fn add_prediction_entity(&mut self, entity: u16)
        requires
            old(self).wf(),
            old(self).entity_records@.dom().contains(entity),
            !old(self).entity_records@[entity].is_prediction,
        ensures
            final(self).wf(),
            final(self).entity_records@ == old(self).entity_records@.insert(
                entity,
                LocalEntityRecord {
                    local_key: old(self).entity_records@[entity].local_key,
                    status: old(self).entity_records@[entity].status,
                    is_prediction: true,
                },
            ),
            final(self).queued() == old(self).queued().push(ActionView::OwnEntity { entity }),
            final(self).component_records@ == old(self).component_records@,
            final(self).masks() == old(self).masks(),
            final(self).sent_actions == old(self).sent_actions,
            final(self).sent_updates == old(self).sent_updates,
            final(self).delayed_entity_deletions == old(self).delayed_entity_deletions,
            final(self).delayed_component_deletions == old(self).delayed_component_deletions,
            final(self).delivered_packets == old(self).delivered_packets,
    {
        let record = match self.entity_records.get(entity) {
            Some(r) => *r,
            None => vstd::pervasive::unreached(),
        };
        self.update_entity_record(
            entity,
            LocalEntityRecord {
                local_key: record.local_key,
                status: record.status,
                is_prediction: true,
            },
        );
        self.queued_actions.push_back(EntityAction::OwnEntity { entity });
        proof {
            assert(self.queued() =~= old(self).queued().push(ActionView::OwnEntity { entity }));
        }
    }

    /// Drop an entity's prediction mark and queue the disown action.
    pub fn remove_prediction_entity(&mut self, entity: u16)
        requires
            old(self).wf(),
            old(self).entity_records@.dom().contains(entity),
            old(self).entity_records@[entity].is_prediction,
        ensures
            final(self).wf(),
            final(self).entity_records@ == old(self).entity_records@.insert(
                entity,
                LocalEntityRecord {
                    local_key: old(self).entity_records@[entity].local_key,
                    status: old(self).entity_records@[entity].status,
                    is_prediction: false,
                },
            ),
            final(self).queued() == old(self).queued().push(ActionView::DisownEntity { entity }),
            final(self).component_records@ == old(self).component_records@,
            final(self).masks() == old(self).masks(),
            final(self).sent_actions == old(self).sent_actions,
            final(self).sent_updates == old(self).sent_updates,
            final(self).delayed_entity_deletions == old(self).delayed_entity_deletions,
            final(self).delayed_component_deletions == old(self).delayed_component_deletions,
            final(self).delivered_packets == old(self).delivered_packets,
    {
        let record = match self.entity_records.get(entity) {
            Some(r) => *r,
            None => vstd::pervasive::unreached(),
        };
        self.update_entity_record(
            entity,
            LocalEntityRecord {
                local_key: record.local_key,
                status: record.status,
                is_prediction: false,
            },
        );
        self.queued_actions.push_back(EntityAction::DisownEntity { entity });
        proof {
            assert(self.queued() =~= old(self).queued().push(ActionView::DisownEntity { entity }));
        }
    }

    /// Stop replicating an entity. Before its spawn is acked the delete
    /// waits in `delayed_entity_deletions`; once `Created`, the despawn
    /// action is queued and the entity's components turn `Deleting`. A
    /// despawn already under way, or an unknown entity, changes nothing.
    #[verifier::rlimit(60)]
    pub fn despawn_entity(&mut self, world_record: &WorldRecord, entity: u16)
        requires
            old(self).wf(),
            world_record.wf(),
            world_record.entities_view().dom().contains(entity),
        ensures
            final(self).wf(),
            final(self).masks() == old(self).masks(),
            final(self).sent_actions == old(self).sent_actions,
            final(self).sent_updates == old(self).sent_updates,
            final(self).delivered_packets == old(self).delivered_packets,
            final(self).component_records@.dom() == old(self).component_records@.dom(),
            !old(self).entity_records@.dom().contains(entity) ==> final(self).entity_records@
                == old(self).entity_records@ && final(self).queued() == old(self).queued()
                && final(self).delayed_entity_deletions@ == old(self).delayed_entity_deletions@
                && final(self).component_records@ == old(self).component_records@,
            old(self).entity_records@.dom().contains(entity) ==> ({
                let pre = old(self).entity_records@[entity];
                let undone = LocalEntityRecord {
                    local_key: pre.local_key,
                    status: pre.status,
                    is_prediction: false,
                };
                let base_queued = if pre.is_prediction {
                    old(self).queued().push(ActionView::DisownEntity { entity })
                } else {
                    old(self).queued()
                };
                match pre.status {
                    LocalityStatus::Creating => final(self).entity_records@ == old(self).entity_records@.insert(entity, undone) && final(self).queued() == base_queued
                        && final(self).delayed_entity_deletions@ == old(self).delayed_entity_deletions@.insert(entity) && final(self).component_records@
                        == old(self).component_records@,
                    LocalityStatus::Created => final(self).entity_records@ == old(self).entity_records@.insert(
                        entity,
                        LocalEntityRecord {
                            local_key: pre.local_key,
                            status: LocalityStatus::Deleting,
                            is_prediction: false,
                        },
                    ) && final(self).queued() == base_queued.push(
                        ActionView::DespawnEntity { entity },
                    ) && final(self).delayed_entity_deletions@ == old(self).delayed_entity_deletions@ && (forall|ck: u16| #[trigger]
                        final(self).component_records@.dom().contains(ck) ==> final(self).component_records@[ck] == (
                        if world_record.entities_view()[entity].contains(ck) {
                            LocalComponentRecord {
                                local_key: old(self).component_records@[ck].local_key,
                                status: LocalityStatus::Deleting,
                            }
                        } else {
                            old(self).component_records@[ck]
                        })),
                    LocalityStatus::Deleting => final(self).entity_records@ == old(self).entity_records@.insert(entity, undone) && final(self).queued() == base_queued
                        && final(self).delayed_entity_deletions@ == old(self).delayed_entity_deletions@ && final(self).component_records@ == old(self).component_records@,
                }
            }),
    {
        if self.has_entity_prediction(entity) {
            self.remove_prediction_entity(entity);
        }
        let ghost mid = *self;
        let record = match self.entity_records.get(entity) {
            Some(r) => *r,
            None => {
                return ;
            },
        };
        match record.status {
            LocalityStatus::Creating => {
                self.delayed_entity_deletions.insert(entity);
                proof {
                    if old(self).entity_records@[entity].is_prediction {
                        assert(self.entity_records@ =~= old(self).entity_records@.insert(
                            entity,
                            LocalEntityRecord {
                                local_key: old(self).entity_records@[entity].local_key,
                                status: old(self).entity_records@[entity].status,
                                is_prediction: false,
                            },
                        ));
                    } else {
                        assert(self.entity_records@ =~= old(self).entity_records@.insert(
                            entity,
                            old(self).entity_records@[entity],
                        ));
                    }
                }
            },
            LocalityStatus::Created => {
                self.update_entity_record(
                    entity,
                    LocalEntityRecord {
                        local_key: record.local_key,
                        status: LocalityStatus::Deleting,
                        is_prediction: false,
                    },
                );
                self.queued_actions.push_back(EntityAction::DespawnEntity { entity });
                let ghost mid2 = *self;
                proof {
                    assert(mid2.queued() =~= mid.queued().push(
                        ActionView::DespawnEntity { entity },
                    ));
                }
                let component_keys = world_record.get_component_keys(entity);
                let ghost keys = component_keys@;
                let ghost world_set = world_record.entities_view()[entity];
                let n = component_keys.len();
                let mut i: usize = 0;
                while i < n
                    invariant
                        i <= n,
                        n == keys.len(),
                        component_keys@ == keys,
                        keys.to_set() == world_set,
                        forall|a: int, b: int| 0 <= a < b < keys.len() ==> keys[a] != keys[b],
                        self.wf(),
                        mid2.wf(),
                        self.component_records@.dom() == mid2.component_records@.dom(),
                        forall|ck: u16| #[trigger]
                            self.component_records@.dom().contains(ck)
                                ==> self.component_records@[ck] == (
                            if keys.take(i as int).contains(ck) {
                                LocalComponentRecord {
                                    local_key: mid2.component_records@[ck].local_key,
                                    status: LocalityStatus::Deleting,
                                }
                            } else {
                                mid2.component_records@[ck]
                            }),
                        self.entity_records@ == mid2.entity_records@,
                        self.local_to_global_entity@ == mid2.local_to_global_entity@,
                        self.local_to_global_component@ == mid2.local_to_global_component@,
                        self.entity_generator == mid2.entity_generator,
                        self.component_key_generator == mid2.component_key_generator,
                        self.diff_handler == mid2.diff_handler,
                        self.queued_actions == mid2.queued_actions,
                        self.sent_actions == mid2.sent_actions,
                        self.sent_updates == mid2.sent_updates,
                        self.delayed_entity_deletions == mid2.delayed_entity_deletions,
                        self.delayed_component_deletions == mid2.delayed_component_deletions,
                        self.delivered_packets == mid2.delivered_packets,
                        self.last_popped_diff_mask == mid2.last_popped_diff_mask,
                        self.last_popped_diff_mask_list == mid2.last_popped_diff_mask_list,
                        self.last_update_packet_index == mid2.last_update_packet_index,
                        self.last_last_update_packet_index == mid2.last_last_update_packet_index,
                    decreases n - i,
                {
                    let ck = component_keys[i];
                    let found = match self.component_records.get(ck) {
                        Some(r) => Some(*r),
                        None => None,
                    };
                    match found {
                        Some(r) => {
                            self.update_component_record(
                                ck,
                                LocalComponentRecord {
                                    local_key: r.local_key,
                                    status: LocalityStatus::Deleting,
                                },
                            );
                        },
                        None => {},
                    }
                    i = i + 1;
                    proof {
                        assert(keys.take(i as int) =~= keys.take(i - 1).push(ck));
                        assert forall|ck2: u16| #[trigger]
                            self.component_records@.dom().contains(
                                ck2,
                            ) implies self.component_records@[ck2] == (
                        if keys.take(i as int).contains(ck2) {
                            LocalComponentRecord {
                                local_key: mid2.component_records@[ck2].local_key,
                                status: LocalityStatus::Deleting,
                            }
                        } else {
                            mid2.component_records@[ck2]
                        }) by {
                            if keys.take(i as int).contains(ck2) {
                                let a = choose|a: int|
                                    0 <= a < i && #[trigger] keys.take(i as int)[a] == ck2;
                                if a < i - 1 {
                                    assert(keys.take(i - 1)[a] == ck2);
                                    assert(keys.take(i - 1).contains(ck2));
                                } else {
                                    assert(ck2 == ck);
                                }
                            } else {
                                assert(!keys.take(i - 1).contains(ck2)) by {
                                    if keys.take(i - 1).contains(ck2) {
                                        let a = choose|a: int|
                                            0 <= a < i - 1 && #[trigger] keys.take(i - 1)[a] == ck2;
                                        assert(keys.take(i as int)[a] == ck2);
                                    }
                                }
                                assert(ck2 != ck) by {
                                    if ck2 == ck {
                                        assert(keys.take(i as int)[i - 1] == ck2);
                                    }
                                }
                            }
                        }
                    }
                }
                proof {
                    assert(keys.take(n as int) =~= keys);
                    assert forall|ck: u16| #[trigger]
                        self.component_records@.dom().contains(
                            ck,
                        ) implies self.component_records@[ck] == (
                    if world_record.entities_view()[entity].contains(ck) {
                        LocalComponentRecord {
                            local_key: old(self).component_records@[ck].local_key,
                            status: LocalityStatus::Deleting,
                        }
                    } else {
                        old(self).component_records@[ck]
                    }) by {
                        assert(keys.take(n as int).contains(ck) == keys.to_set().contains(ck));
                    }
                }
            },
            LocalityStatus::Deleting => {
                proof {
                    if old(self).entity_records@[entity].is_prediction {
                        assert(self.entity_records@ =~= old(self).entity_records@.insert(
                            entity,
                            LocalEntityRecord {
                                local_key: old(self).entity_records@[entity].local_key,
                                status: old(self).entity_records@[entity].status,
                                is_prediction: false,
                            },
                        ));
                    } else {
                        assert(self.entity_records@ =~= old(self).entity_records@.insert(
                            entity,
                            old(self).entity_records@[entity],
                        ));
                    }
                }
            },
        }
    }

    /// Begin replicating one component. If its entity is still `Creating`
    /// the component rides with the spawn payload; if `Created`, an insert
    /// action is queued; if `Deleting`, nothing more is sent.
    pub fn insert_component(&mut self, world_record: &WorldRecord, manifest: &Manifest, component: u16)
        requires
            old(self).wf(),
            world_record.wf(),
            manifest.wf(),
            world_record.components_view().dom().contains(component),
            old(self).entity_records@.dom().contains(
                world_record.components_view()[component].0,
            ),
            !old(self).component_records@.dom().contains(component),
            old(self).component_key_generator.can_generate(),
            manifest@.dom().contains(world_record.components_view()[component].1),
        ensures
            final(self).wf(),
            final(self).component_records@.dom() == old(self).component_records@.dom().insert(
                component,
            ),
            final(self).component_records@[component].status == LocalityStatus::Creating,
            forall|ck: u16| #[trigger]
                old(self).component_records@.dom().contains(ck) ==> final(self).component_records@[ck] == old(self).component_records@[ck],
            final(self).entity_records@ == old(self).entity_records@,
            forall|i: int|
                !(#[trigger] mask_bit(final(self).masks()[component], i)),
            forall|ck: u16| #[trigger]
                old(self).masks().dom().contains(ck) ==> final(self).masks()[ck] == old(self).masks()[ck],
            final(self).queued() == (
            if old(self).entity_records@[world_record.components_view()[component].0].status
                == LocalityStatus::Created {
                old(self).queued().push(
                    ActionView::InsertComponent {
                        entity: world_record.components_view()[component].0,
                        component,
                        kind: world_record.components_view()[component].1,
                    },
                )
            } else {
                old(self).queued()
            }),
            final(self).sent_actions == old(self).sent_actions,
            final(self).sent_updates == old(self).sent_updates,
            final(self).delayed_entity_deletions == old(self).delayed_entity_deletions,
            final(self).delayed_component_deletions == old(self).delayed_component_deletions,
            final(self).delivered_packets == old(self).delivered_packets,
    {
        let (entity, kind) = match world_record.get_component_record(component) {
            Some(p) => p,
            None => vstd::pervasive::unreached(),
        };
        let count = match manifest.size_on_wire(kind) {
            Some(c) => c,
            None => vstd::pervasive::unreached(),
        };
        let mask_bytes: u8 = ((count as u16 + 7) / 8) as u8;
        let _ = self.component_init(component, LocalityStatus::Creating, mask_bytes);
        let status = match self.entity_records.get(entity) {
            Some(r) => r.status,
            None => vstd::pervasive::unreached(),
        };
        match status {
            LocalityStatus::Created => {
                self.queued_actions.push_back(
                    EntityAction::InsertComponent { entity, component, kind },
                );
                proof {
                    assert(self.queued() =~= old(self).queued().push(
                        ActionView::InsertComponent { entity, component, kind },
                    ));
                }
            },
            _ => {},
        }
        proof {
            assert(self.component_records@.dom() =~= old(self).component_records@.dom().insert(component));
        }
    }

    /// Stop replicating one component; like entity despawn, the delete
    /// waits until the insert is acked.
    pub fn remove_component(&mut self, component: u16)
        requires
            old(self).wf(),
            old(self).component_records@.dom().contains(component),
        ensures
            final(self).wf(),
            final(self).entity_records@ == old(self).entity_records@,
            final(self).masks() == old(self).masks(),
            final(self).sent_actions == old(self).sent_actions,
            final(self).sent_updates == old(self).sent_updates,
            final(self).delivered_packets == old(self).delivered_packets,
            final(self).delayed_entity_deletions == old(self).delayed_entity_deletions,
            ({
                let pre = old(self).component_records@[component];
                match pre.status {
                    LocalityStatus::Creating => final(self).component_records@ == old(self).component_records@ && final(self).queued() == old(self).queued() && final(self).delayed_component_deletions@ == old(self).delayed_component_deletions@.insert(component),
                    LocalityStatus::Created => final(self).component_records@ == old(self).component_records@.insert(
                        component,
                        LocalComponentRecord {
                            local_key: pre.local_key,
                            status: LocalityStatus::Deleting,
                        },
                    ) && final(self).queued() == old(self).queued().push(
                        ActionView::RemoveComponent { component },
                    ) && final(self).delayed_component_deletions@ == old(self).delayed_component_deletions@,
                    LocalityStatus::Deleting => final(self).component_records@ == old(self).component_records@ && final(self).queued() == old(self).queued() && final(self).delayed_component_deletions@ == old(self).delayed_component_deletions@,
                }
            }),
    {
        let record = match self.component_records.get(component) {
            Some(r) => *r,
            None => vstd::pervasive::unreached(),
        };
        match record.status {
            LocalityStatus::Creating => {
                self.delayed_component_deletions.insert(component);
            },
            LocalityStatus::Created => {
                self.update_component_record(
                    component,
                    LocalComponentRecord {
                        local_key: record.local_key,
                        status: LocalityStatus::Deleting,
                    },
                );
                self.queued_actions.push_back(EntityAction::RemoveComponent { component });
                proof {
                    assert(self.queued() =~= old(self).queued().push(
                        ActionView::RemoveComponent { component },
                    ));
                }
            },
            LocalityStatus::Deleting => {},
        }
    }

    /// One update action per `Created` component whose live mask has a
    /// dirty bit, in record order, each carrying a snapshot of that mask.
    pub open spec fn collect_updates_rec(
        entries: Seq<(u16, LocalComponentRecord)>,
        masks: Map<u16, Seq<u8>>,
        comps: Map<u16, (u16, u16)>,
    ) -> Seq<ActionView>
        decreases entries.len(),
    {
        if entries.len() == 0 {
            seq![]
        } else {
            let (ck, rec) = entries.last();
            Self::collect_updates_rec(entries.drop_last(), masks, comps) + (
            if rec.status == LocalityStatus::Created && masks.dom().contains(ck) && (exists|i: int|
                mask_bit(masks[ck], i)) {
                seq![
                    ActionView::UpdateComponent {
                        entity: comps[ck].0,
                        component: ck,
                        mask: masks[ck],
                        kind: comps[ck].1,
                    },
                ]
            } else {
                seq![]
            })
        }
    }

    /// Once per tick, before draining the queue: queue an update for every
    /// `Created` component whose diff mask reports dirty bits. The live
    /// masks are not cleared here; that happens when an update is popped
    /// into a packet.
    #[verifier::rlimit(60)]
    pub fn collect_component_updates(&mut self, world_record: &WorldRecord)
        requires
            old(self).wf(),
            world_record.wf(),
            forall|ck: u16| #[trigger]
                old(self).component_records@.dom().contains(ck)
                    ==> world_record.components_view().dom().contains(ck),
        ensures
            final(self).wf(),
            final(self).queued() == old(self).queued() + Self::collect_updates_rec(
                old(self).component_records.entries@,
                old(self).masks(),
                world_record.components_view(),
            ),
            final(self).masks() == old(self).masks(),
            final(self).entity_records@ == old(self).entity_records@,
            final(self).component_records@ == old(self).component_records@,
            final(self).sent_actions == old(self).sent_actions,
            final(self).sent_updates == old(self).sent_updates,
            final(self).delayed_entity_deletions == old(self).delayed_entity_deletions,
            final(self).delayed_component_deletions == old(self).delayed_component_deletions,
            final(self).delivered_packets == old(self).delivered_packets,
    {
        let ghost entries = self.component_records.entries@;
        let n = self.component_records.len();
        let mut i: usize = 0;
        while i < n
            invariant
                i <= n,
                n == entries.len(),
                self.component_records.entries@ == entries,
                self.wf(),
                old(self).wf(),
                world_record.wf(),
                self.component_records == old(self).component_records,
                self.diff_handler == old(self).diff_handler,
                self.entity_records == old(self).entity_records,
                self.local_to_global_entity == old(self).local_to_global_entity,
                self.local_to_global_component == old(self).local_to_global_component,
                self.entity_generator == old(self).entity_generator,
                self.component_key_generator == old(self).component_key_generator,
                self.sent_actions == old(self).sent_actions,
                self.sent_updates == old(self).sent_updates,
                self.delayed_entity_deletions == old(self).delayed_entity_deletions,
                self.delayed_component_deletions == old(self).delayed_component_deletions,
                self.delivered_packets == old(self).delivered_packets,
                self.last_popped_diff_mask == old(self).last_popped_diff_mask,
                self.last_popped_diff_mask_list == old(self).last_popped_diff_mask_list,
                self.last_update_packet_index == old(self).last_update_packet_index,
                self.last_last_update_packet_index == old(self).last_last_update_packet_index,
                forall|ck: u16| #[trigger]
                    old(self).component_records@.dom().contains(ck)
                        ==> world_record.components_view().dom().contains(ck),
                self.queued() == old(self).queued() + Self::collect_updates_rec(
                    entries.take(i as int),
                    old(self).masks(),
                    world_record.components_view(),
                ),
            decreases n - i,
        {
            let entry = self.component_records.entries[i];
            let ck = entry.0;
            let record = entry.1;
            proof {
                crate::keyed_vec::lemma_entries_map_at(entries, i as int);
                assert(self.component_records@.dom().contains(ck));
                assert(self.component_records@[ck] == record);
            }
            let is_created = match record.status {
                LocalityStatus::Created => true,
                _ => false,
            };
            let ghost q_before = self.queued_actions.deep_view();
            let ghost included = record.status == LocalityStatus::Created && old(self).masks().dom().contains(ck) && (exists|b: int| mask_bit(old(self).masks()[ck], b));
            if is_created && self.diff_handler.has_dirty_bits(ck) {
                let (entity, kind) = match world_record.get_component_record(ck) {
                    Some(p) => p,
                    None => vstd::pervasive::unreached(),
                };
                let mask = match self.diff_handler.get_diff_mask(ck) {
                    Some(m) => m,
                    None => vstd::pervasive::unreached(),
                };
                self.queued_actions.push_back(
                    EntityAction::UpdateComponent { entity, component: ck, mask, kind },
                );
                proof {
                    assert(included);
                    assert(self.queued_actions.deep_view() =~= q_before.push(
                        ActionView::UpdateComponent {
                            entity: world_record.components_view()[ck].0,
                            component: ck,
                            mask: old(self).masks()[ck],
                            kind: world_record.components_view()[ck].1,
                        },
                    ));
                }
            } else {
                proof {
                    assert(!included);
                }
            }
            i = i + 1;
            proof {
                assert(entries.take(i as int).drop_last() =~= entries.take(i - 1));
                assert(entries.take(i as int).last() == entries[i - 1]);
                let grown = Self::collect_updates_rec(
                    entries.take(i as int),
                    old(self).masks(),
                    world_record.components_view(),
                );
                let prev = Self::collect_updates_rec(
                    entries.take(i - 1),
                    old(self).masks(),
                    world_record.components_view(),
                );
                if included {
                    assert(grown =~= prev.push(
                        ActionView::UpdateComponent {
                            entity: world_record.components_view()[ck].0,
                            component: ck,
                            mask: old(self).masks()[ck],
                            kind: world_record.components_view()[ck].1,
                        },
                    ));
                } else {
                    assert(grown =~= prev);
                }
                assert(self.queued() =~= old(self).queued() + grown);
            }
        }
        proof {
            assert(entries.take(n as int) =~= entries);
        }
    }

    /// The component list a spawn action resolves to at pop time: each of
    /// the entity's current component keys with its kind, in record order.
    pub open spec fn spawn_components(world: WorldRecord, entity: u16) -> Seq<(u16, u16)> {
        world.entities@[entity].items@.map_values(|ck: u16| (ck, world.components@[ck].1))
    }

    /// The mask snapshots a popped spawn keeps for a possible unpop.
    pub open spec fn spawn_mask_snapshot(
        world: WorldRecord,
        entity: u16,
        masks: Map<u16, Seq<u8>>,
    ) -> Seq<(u16, Seq<u8>)> {
        world.entities@[entity].items@.map_values(|ck: u16| (ck, masks[ck]))
    }

    /// Lock an update's mask into the transmission record for this packet
    /// and clear the component's live mask.
    fn record_update_mask(&mut self, packet_index: u16, component: u16, mask: &DiffMask)
        requires
            old(self).wf(),
            old(self).masks().dom().contains(component),
            mask.wf(),
        ensures
            final(self).wf(),
            final(self).updates() == old(self).updates().insert(
                packet_index,
                (if old(self).updates().dom().contains(packet_index) {
                    old(self).updates()[packet_index]
                } else {
                    Map::<u16, Seq<u8>>::empty()
                }).insert(component, mask@),
            ),
            final(self).masks().dom() == old(self).masks().dom(),
            forall|i: int| !(#[trigger] mask_bit(final(self).masks()[component], i)),
            final(self).masks()[component].len() == old(self).masks()[component].len(),
            forall|ck: u16|
                final(self).masks().dom().contains(ck) && ck != component ==> final(self).masks()[ck]
                    == old(self).masks()[ck],
            final(self).last_popped_diff_mask matches Some(m) && m@ == mask@,
            old(self).updates().dom().contains(packet_index) ==> final(self).last_update_packet_index == old(self).last_update_packet_index && final(self).last_last_update_packet_index == old(self).last_last_update_packet_index,
            !old(self).updates().dom().contains(packet_index) ==> final(self).last_update_packet_index == packet_index && final(self).last_last_update_packet_index == old(self).last_update_packet_index,
            final(self).queued_actions == old(self).queued_actions,
            final(self).sent_actions == old(self).sent_actions,
            final(self).entity_records@ == old(self).entity_records@,
            final(self).component_records@ == old(self).component_records@,
            final(self).delayed_entity_deletions == old(self).delayed_entity_deletions,
            final(self).delayed_component_deletions == old(self).delayed_component_deletions,
            final(self).delivered_packets == old(self).delivered_packets,
            final(self).last_popped_diff_mask_list == old(self).last_popped_diff_mask_list,
    {
        proof {
            assert(self.updates().dom() =~= self.sent_updates@.dom());
        }
        let (mut inner, had) = match self.sent_updates.remove(packet_index) {
            Some(kv) => (kv, true),
            None => (KeyedVec::new(), false),
        };
        if !had {
            self.last_last_update_packet_index = self.last_update_packet_index;
            self.last_update_packet_index = packet_index;
        }
        let ghost inner0 = inner@.map_values(|m: DiffMask| m@);
        inner.insert(component, mask.clone_mask());
        proof {
            assert(inner@.map_values(|m: DiffMask| m@) =~~= inner0.insert(component, mask@));
        }
        self.sent_updates.insert(packet_index, inner);
        self.last_popped_diff_mask = Some(mask.clone_mask());
        self.diff_handler.clear_diff_mask(component);
        proof {
            assert(self.updates() =~~= old(self).updates().insert(
                packet_index,
                (if old(self).updates().dom().contains(packet_index) {
                    old(self).updates()[packet_index]
                } else {
                    Map::<u16, Seq<u8>>::empty()
                }).insert(component, mask@),
            ));
        }
    }

    /// Take the next queued action for the packet being written. A spawn
    /// resolves its component list from the live world record and consumes
    /// those components' masks; an update locks its mask snapshot into
    /// `sent_updates`. Every popped action lands in `sent_actions`.
    #[verifier::rlimit(60)]
    pub fn pop_outgoing_action(&mut self, world_record: &WorldRecord, packet_index: u16) -> (r:
        Option<EntityAction>)
        requires
            old(self).wf(),
            world_record.wf(),
            old(self).queued().len() > 0 ==> match old(self).queued()[0] {
                ActionView::SpawnEntity { entity, .. } => world_record.entities_view().dom().contains(
                    entity,
                ) && forall|ck: u16| #[trigger]
                    world_record.entities_view()[entity].contains(ck) ==> old(self).masks().dom().contains(ck),
                ActionView::InsertComponent { component, .. } => old(self).masks().dom().contains(
                    component,
                ),
                ActionView::UpdateComponent { component, mask, .. } => old(self).masks().dom().contains(component) && mask.len() <= 255,
                _ => true,
            },
        ensures
            final(self).wf(),
            old(self).queued().len() == 0 ==> r.is_none() && final(self).queued() == old(self).queued() && final(self).sent() == old(self).sent() && final(self).updates() == old(self).updates() && final(self).masks() == old(self).masks(),
            old(self).queued().len() > 0 ==> ({
                let head = old(self).queued()[0];
                let sent0 = if old(self).sent().dom().contains(packet_index) {
                    old(self).sent()[packet_index]
                } else {
                    Seq::<ActionView>::empty()
                };
                &&& final(self).queued() == old(self).queued().drop_first()
                &&& r.is_some()
                &&& final(self).entity_records@ == old(self).entity_records@
                &&& final(self).component_records@ == old(self).component_records@
                &&& match head {
                    ActionView::SpawnEntity { entity, .. } => {
                        let resolved = ActionView::SpawnEntity {
                            entity,
                            components: Self::spawn_components(*world_record, entity),
                        };
                        &&& r.unwrap()@ == resolved
                        &&& final(self).sent() == old(self).sent().insert(
                            packet_index,
                            sent0.push(resolved),
                        )
                        &&& final(self).updates() == old(self).updates()
                        &&& final(self).masks().dom() == old(self).masks().dom()
                        &&& forall|ck: u16, i: int|
                            world_record.entities_view()[entity].contains(ck) ==> !(
                            #[trigger] mask_bit(final(self).masks()[ck], i))
                        &&& forall|ck: u16|
                            final(self).masks().dom().contains(ck)
                                && !world_record.entities_view()[entity].contains(ck) ==> final(self).masks()[ck] == old(self).masks()[ck]
                        &&& final(self).last_popped_diff_mask_list matches Some(l) && l.deep_view()
                            == Self::spawn_mask_snapshot(*world_record, entity, old(self).masks())
                    },
                    ActionView::InsertComponent { component, .. } => {
                        &&& r.unwrap()@ == head
                        &&& final(self).sent() == old(self).sent().insert(
                            packet_index,
                            sent0.push(head),
                        )
                        &&& final(self).updates() == old(self).updates()
                        &&& final(self).masks().dom() == old(self).masks().dom()
                        &&& forall|i: int|
                            !(#[trigger] mask_bit(final(self).masks()[component], i))
                        &&& forall|ck: u16|
                            final(self).masks().dom().contains(ck) && ck != component ==> final(self).masks()[ck] == old(self).masks()[ck]
                        &&& final(self).last_popped_diff_mask matches Some(m) && m@ == old(self).masks()[component]
                    },
                    ActionView::UpdateComponent { entity, component, mask, kind } => {
                        &&& r.unwrap()@ == head
                        &&& final(self).sent() == old(self).sent().insert(
                            packet_index,
                            sent0.push(head),
                        )
                        &&& final(self).updates() == old(self).updates().insert(
                            packet_index,
                            (if old(self).updates().dom().contains(packet_index) {
                                old(self).updates()[packet_index]
                            } else {
                                Map::<u16, Seq<u8>>::empty()
                            }).insert(component, mask),
                        )
                        &&& final(self).masks().dom() == old(self).masks().dom()
                        &&& forall|i: int|
                            !(#[trigger] mask_bit(final(self).masks()[component], i))
                        &&& forall|ck: u16|
                            final(self).masks().dom().contains(ck) && ck != component ==> final(self).masks()[ck] == old(self).masks()[ck]
                        &&& final(self).last_popped_diff_mask matches Some(m) && m@ == mask
                        &&& (old(self).updates().dom().contains(packet_index) ==> final(self).last_update_packet_index
                            == old(self).last_update_packet_index && final(self).last_last_update_packet_index
                            == old(self).last_last_update_packet_index)
                        &&& (!old(self).updates().dom().contains(packet_index) ==> final(self).last_update_packet_index
                            == packet_index && final(self).last_last_update_packet_index
                            == old(self).last_update_packet_index)
                    },
                    _ => {
                        &&& r.unwrap()@ == head
                        &&& final(self).sent() == old(self).sent().insert(
                            packet_index,
                            sent0.push(head),
                        )
                        &&& final(self).updates() == old(self).updates()
                        &&& final(self).masks() == old(self).masks()
                        &&& final(self).last_update_packet_index == old(self).last_update_packet_index
                        &&& final(self).last_last_update_packet_index == old(self).last_last_update_packet_index
                    },
                }
            }),
    {
        let popped = match self.queued_actions.pop_front() {
            Some(a) => a,
            None => {
                return None;
            },
        };
        proof {
            assert(popped@ == old(self).queued()[0]);
            assert(self.queued() =~= old(self).queued().drop_first());
        }
        let action = match popped {
            EntityAction::SpawnEntity { entity, components: _ } => {
                let component_keys = world_record.get_component_keys(entity);
                let ghost keys = component_keys@;
                let mut component_list: Vec<(u16, u16)> = Vec::new();
                let mut diff_mask_list: Vec<(u16, DiffMask)> = Vec::new();
                let n = component_keys.len();
                let mut i: usize = 0;
                let ghost start = *self;
                while i < n
                    invariant
                        i <= n,
                        n == keys.len(),
                        component_keys@ == keys,
                        world_record.wf(),
                        keys == world_record.entities@[entity].items@,
                        keys.to_set() == world_record.entities_view()[entity],
                        forall|a: int, b: int| 0 <= a < b < keys.len() ==> keys[a] != keys[b],
                        forall|a: int|
                            0 <= a < keys.len() ==> world_record.components_view().dom().contains(
                                keys[a],
                            ) && world_record.components_view()[keys[a]].0 == entity,
                        forall|ck: u16| #[trigger]
                            world_record.entities_view()[entity].contains(ck)
                                ==> start.masks().dom().contains(ck),
                        self.wf(),
                        start.wf(),
                        self.masks().dom() == start.masks().dom(),
                        component_list@ == keys.take(i as int).map_values(
                            |ck: u16| (ck, world_record.components@[ck].1),
                        ),
                        diff_mask_list@.len() == i,
                        forall|a: int|
                            0 <= a < i ==> (#[trigger] diff_mask_list@[a]).0 == keys[a],
                        forall|a: int|
                            0 <= a < i ==> (#[trigger] diff_mask_list@[a]).1@ == start.masks()[keys[a]],
                        forall|a: int, bit: int|
                            0 <= a < i ==> !(#[trigger] mask_bit(self.masks()[keys[a]], bit)),
                        forall|ck: u16|
                            self.masks().dom().contains(ck) && !keys.take(i as int).contains(ck)
                                ==> self.masks()[ck] == start.masks()[ck],
                        self.queued_actions == start.queued_actions,
                        self.sent_actions == start.sent_actions,
                        self.sent_updates == start.sent_updates,
                        self.entity_records == start.entity_records,
                        self.component_records == start.component_records,
                        self.local_to_global_entity == start.local_to_global_entity,
                        self.local_to_global_component == start.local_to_global_component,
                        self.entity_generator == start.entity_generator,
                        self.component_key_generator == start.component_key_generator,
                        self.delayed_entity_deletions == start.delayed_entity_deletions,
                        self.delayed_component_deletions == start.delayed_component_deletions,
                        self.delivered_packets == start.delivered_packets,
                        self.last_popped_diff_mask == start.last_popped_diff_mask,
                        self.last_popped_diff_mask_list == start.last_popped_diff_mask_list,
                        self.last_update_packet_index == start.last_update_packet_index,
                        self.last_last_update_packet_index == start.last_last_update_packet_index,
                    decreases n - i,
                {
                    let ck = component_keys[i];
                    proof {
                        assert(keys.to_set().contains(ck));
                        assert(world_record.entities_view()[entity].contains(ck));
                        assert(self.masks().dom().contains(ck));
                    }
                    let (_, kind) = match world_record.get_component_record(ck) {
                        Some(p) => p,
                        None => vstd::pervasive::unreached(),
                    };
                    component_list.push((ck, kind));
                    let mask = match self.diff_handler.get_diff_mask(ck) {
                        Some(m) => m,
                        None => vstd::pervasive::unreached(),
                    };
                    proof {
                        assert(!keys.take(i as int).contains(ck)) by {
                            if keys.take(i as int).contains(ck) {
                                let a = choose|a: int|
                                    0 <= a < i && #[trigger] keys.take(i as int)[a] == ck;
                                assert(keys[a] == keys[i as int]);
                            }
                        }
                        assert(mask@ == start.masks()[ck]);
                    }
                    let ghost dml0 = diff_mask_list@;
                    let ghost mask_v = mask@;
                    diff_mask_list.push((ck, mask));
                    let ghost pre = *self;
                    self.diff_handler.clear_diff_mask(ck);
                    i = i + 1;
                    proof {
                        assert(diff_mask_list@ == dml0.push((diff_mask_list@[i - 1])));
                        assert(diff_mask_list@[i - 1].0 == ck);
                        assert(diff_mask_list@[i - 1].1@ == mask_v);
                        assert forall|a: int|
                            0 <= a < i implies (#[trigger] diff_mask_list@[a]).0 == keys[a]
                            && (diff_mask_list@[a]).1@ == start.masks()[keys[a]] by {
                            if a < i - 1 {
                                assert(dml0[a].0 == keys[a]);
                                assert(dml0[a].1@ == start.masks()[keys[a]]);
                                assert(diff_mask_list@[a] == dml0[a]);
                            } else {
                                assert(diff_mask_list@[a] == diff_mask_list@[i - 1]);
                            }
                        }
                        assert(component_list@ =~= keys.take(i as int).map_values(
                            |ck2: u16| (ck2, world_record.components@[ck2].1),
                        ));
                        assert forall|a: int, bit: int|
                            0 <= a < i implies !(#[trigger] mask_bit(
                            self.masks()[keys[a]],
                            bit,
                        )) by {
                            if a < i - 1 {
                                assert(keys[a] != ck);
                                assert(self.masks()[keys[a]] == pre.masks()[keys[a]]);
                                assert(!mask_bit(pre.masks()[keys[a]], bit));
                            }
                        }
                        assert forall|ck2: u16|
                            self.masks().dom().contains(ck2) && !keys.take(i as int).contains(
                                ck2,
                            ) implies self.masks()[ck2] == start.masks()[ck2] by {
                            assert(ck2 != ck) by {
                                if ck2 == ck {
                                    assert(keys.take(i as int)[i - 1] == ck);
                                }
                            }
                            assert(!keys.take(i - 1).contains(ck2)) by {
                                if keys.take(i - 1).contains(ck2) {
                                    let a = choose|a: int|
                                        0 <= a < i - 1 && #[trigger] keys.take(i - 1)[a] == ck2;
                                    assert(keys.take(i as int)[a] == ck2);
                                }
                            }
                        }
                    }
                }
                proof {
                    assert(keys.take(n as int) =~= keys);
                    assert(component_list@ =~= Self::spawn_components(*world_record, entity));
                    assert(diff_mask_list.deep_view() =~= Self::spawn_mask_snapshot(
                        *world_record,
                        entity,
                        start.masks(),
                    ));
                }
                self.last_popped_diff_mask_list = Some(diff_mask_list);
                EntityAction::SpawnEntity { entity, components: component_list }
            },
            EntityAction::InsertComponent { entity, component, kind } => {
                let mask = match self.diff_handler.get_diff_mask(component) {
                    Some(m) => m,
                    None => vstd::pervasive::unreached(),
                };
                self.last_popped_diff_mask = Some(mask);
                self.diff_handler.clear_diff_mask(component);
                EntityAction::InsertComponent { entity, component, kind }
            },
            other => other,
        };
        let ghost mid = *self;
        let mut list = match self.sent_actions.remove(packet_index) {
            Some(l) => l,
            None => Vec::new(),
        };
        let ghost sent0 = list.deep_view();
        proof {
            if !mid.sent().dom().contains(packet_index) {
                assert(sent0 =~= Seq::<ActionView>::empty());
            }
        }
        list.push(action.clone_action());
        proof {
            assert(list.deep_view() =~= sent0.push(action@));
        }
        self.sent_actions.insert(packet_index, list);
        proof {
            assert(self.sent() =~~= mid.sent().insert(packet_index, sent0.push(action@)));
            assert(mid.sent() =~~= old(self).sent());
            assert(self.sent() =~~= old(self).sent().insert(packet_index, sent0.push(action@)));
        }
        let result = match action {
            EntityAction::UpdateComponent { entity, component, mask, kind } => {
                self.record_update_mask(packet_index, component, &mask);
                EntityAction::UpdateComponent { entity, component, mask, kind }
            },
            other2 => other2,
        };
        proof {
            assert(self.queued() =~= old(self).queued().drop_first());
        }
        Some(result)
    }

    /// Reverse the most recent pop for this packet exactly: erase the
    /// transmission record, restore the masks the pop consumed, and put
    /// the action back at the front of the queue. At most one un-acked pop
    /// may be pending per packet.
    #[verifier::rlimit(60)]
    pub fn unpop_outgoing_action(&mut self, packet_index: u16, action: EntityAction)
        requires
            old(self).wf(),
            old(self).sent().dom().contains(packet_index),
            old(self).sent()[packet_index].len() > 0,
            old(self).sent()[packet_index].last() == action@,
            match action@ {
                ActionView::SpawnEntity { .. } => old(self).last_popped_diff_mask_list matches Some(
                    l,
                ) && (forall|a: int|
                    0 <= a < l.deep_view().len() ==> old(self).masks().dom().contains(
                        (#[trigger] l.deep_view()[a]).0,
                    ) && l.deep_view()[a].1.len() <= 255) && (forall|a: int, b: int|
                    0 <= a < b < l.deep_view().len() ==> (#[trigger] l.deep_view()[a]).0 != (
                    #[trigger] l.deep_view()[b]).0),
                ActionView::InsertComponent { component, .. } => old(self).last_popped_diff_mask matches Some(m) && m@.len() <= 255 && old(self).masks().dom().contains(component),
                ActionView::UpdateComponent { component, .. } => old(self).last_popped_diff_mask matches Some(m) && m@.len() <= 255 && old(self).masks().dom().contains(component),
                _ => true,
            },
        ensures
            final(self).wf(),
            final(self).sent() == (if old(self).sent()[packet_index].len() <= 1 {
                old(self).sent().remove(packet_index)
            } else {
                old(self).sent().insert(
                    packet_index,
                    old(self).sent()[packet_index].drop_last(),
                )
            }),
            final(self).entity_records@ == old(self).entity_records@,
            final(self).component_records@ == old(self).component_records@,
            match action@ {
                ActionView::SpawnEntity { .. } => {
                    let l = old(self).last_popped_diff_mask_list.unwrap();
                    &&& final(self).queued() == seq![action@] + old(self).queued()
                    &&& final(self).updates() == old(self).updates()
                    &&& final(self).masks().dom() == old(self).masks().dom()
                    &&& forall|a: int|
                        0 <= a < l.deep_view().len() ==> final(self).masks()[(
                        #[trigger] l.deep_view()[a]).0] == l.deep_view()[a].1
                    &&& forall|ck: u16|
                        final(self).masks().dom().contains(ck) && (forall|a: int|
                            0 <= a < l.deep_view().len() ==> (#[trigger] l.deep_view()[a]).0
                                != ck) ==> final(self).masks()[ck] == old(self).masks()[ck]
                },
                ActionView::InsertComponent { component, .. } => {
                    let m = old(self).last_popped_diff_mask.unwrap();
                    &&& final(self).queued() == seq![action@] + old(self).queued()
                    &&& final(self).updates() == old(self).updates()
                    &&& final(self).masks() == old(self).masks().insert(component, m@)
                },
                ActionView::UpdateComponent { entity, component, kind, .. } => {
                    let m = old(self).last_popped_diff_mask.unwrap();
                    &&& final(self).queued() == seq![
                        ActionView::UpdateComponent { entity, component, mask: m@, kind },
                    ] + old(self).queued()
                    &&& final(self).masks() == old(self).masks().insert(component, m@)
                    &&& final(self).updates() == (
                    if old(self).updates().dom().contains(packet_index) {
                        if old(self).updates()[packet_index].remove(component)
                            == Map::<u16, Seq<u8>>::empty() {
                            old(self).updates().remove(packet_index)
                        } else {
                            old(self).updates().insert(
                                packet_index,
                                old(self).updates()[packet_index].remove(component),
                            )
                        }
                    } else {
                        old(self).updates()
                    })
                    &&& final(self).last_update_packet_index == old(self).last_last_update_packet_index
                },
                _ => {
                    &&& final(self).queued() == seq![action@] + old(self).queued()
                    &&& final(self).updates() == old(self).updates()
                    &&& final(self).masks() == old(self).masks()
                },
            },
    {
        let ghost sent_pre = self.sent();
        let mut list = match self.sent_actions.remove(packet_index) {
            Some(l) => l,
            None => vstd::pervasive::unreached(),
        };
        let ghost list0 = list.deep_view();
        let _ = list.pop();
        if list.len() == 0 {
            proof {
                assert(self.sent() =~~= old(self).sent().remove(packet_index));
            }
        } else {
            proof {
                assert(list.deep_view() =~= list0.drop_last());
            }
            self.sent_actions.insert(packet_index, list);
            proof {
                assert(self.sent() =~~= old(self).sent().insert(
                    packet_index,
                    old(self).sent()[packet_index].drop_last(),
                ));
            }
        }
        match action {
            EntityAction::SpawnEntity { entity, components } => {
                let ghost mid = *self;
                let restore = match &self.last_popped_diff_mask_list {
                    Some(l) => l,
                    None => vstd::pervasive::unreached(),
                };
                let mut restored: Vec<(u16, DiffMask)> = Vec::new();
                let mut i: usize = 0;
                let n = restore.len();
                proof {
                    assert(restore.deep_view().len() == n);
                }
                while i < n
                    invariant
                        i <= n,
                        restored@.len() == i,
                        forall|a: int|
                            0 <= a < i ==> (#[trigger] restored@[a]).0
                                == self.last_popped_diff_mask_list.unwrap().deep_view()[a].0
                                && restored@[a].1@
                                == self.last_popped_diff_mask_list.unwrap().deep_view()[a].1,
                        *self == mid,
                        mid.last_popped_diff_mask_list matches Some(l2) && l2.deep_view().len()
                            == n,
                    decreases n - i,
                {
                    let pair = match &self.last_popped_diff_mask_list {
                        Some(l) => (l[i].0, l[i].1.clone_mask()),
                        None => vstd::pervasive::unreached(),
                    };
                    restored.push(pair);
                    i = i + 1;
                }
                let ghost l = mid.last_popped_diff_mask_list.unwrap();
                let mut j: usize = 0;
                while j < restored.len()
                    invariant
                        j <= restored@.len(),
                        restored@.len() == l.deep_view().len(),
                        forall|a: int|
                            0 <= a < restored@.len() ==> (#[trigger] restored@[a]).0
                                == l.deep_view()[a].0 && restored@[a].1@ == l.deep_view()[a].1,
                        forall|a: int|
                            0 <= a < l.deep_view().len() ==> mid.masks().dom().contains(
                                (#[trigger] l.deep_view()[a]).0,
                            ) && l.deep_view()[a].1.len() <= 255,
                        forall|a: int, b: int|
                            0 <= a < b < l.deep_view().len() ==> (#[trigger] l.deep_view()[a]).0
                                != (#[trigger] l.deep_view()[b]).0,
                        self.wf(),
                        mid.wf(),
                        self.masks().dom() == mid.masks().dom(),
                        forall|a: int|
                            0 <= a < j ==> self.masks()[(#[trigger] l.deep_view()[a]).0]
                                == l.deep_view()[a].1,
                        forall|ck: u16|
                            self.masks().dom().contains(ck) && (forall|a: int|
                                0 <= a < j ==> (#[trigger] l.deep_view()[a]).0 != ck)
                                ==> self.masks()[ck] == mid.masks()[ck],
                        self.queued_actions == mid.queued_actions,
                        self.sent_actions == mid.sent_actions,
                        self.sent_updates == mid.sent_updates,
                        self.entity_records == mid.entity_records,
                        self.component_records == mid.component_records,
                        self.local_to_global_entity == mid.local_to_global_entity,
                        self.local_to_global_component == mid.local_to_global_component,
                        self.entity_generator == mid.entity_generator,
                        self.component_key_generator == mid.component_key_generator,
                        self.delayed_entity_deletions == mid.delayed_entity_deletions,
                        self.delayed_component_deletions == mid.delayed_component_deletions,
                        self.delivered_packets == mid.delivered_packets,
                        self.last_popped_diff_mask == mid.last_popped_diff_mask,
                        self.last_popped_diff_mask_list == mid.last_popped_diff_mask_list,
                        self.last_update_packet_index == mid.last_update_packet_index,
                        self.last_last_update_packet_index == mid.last_last_update_packet_index,
                    decreases restored@.len() - j,
                {
                    let (ck, mask) = &restored[j];
                    proof {
                        assert(restored@[j as int].0 == l.deep_view()[j as int].0);
                        assert(self.masks().dom().contains(*ck));
                        assert(mask@.len() <= 255);
                    }
                    let ghost pre = *self;
                    self.diff_handler.set_diff_mask(*ck, mask);
                    j = j + 1;
                    proof {
                        assert(self.masks() =~~= pre.masks().insert(*ck, mask@));
                        assert(self.component_records@.dom() =~= self.diff_handler@.dom()) by {
                            assert(self.masks().dom() =~= pre.masks().dom());
                        }
                        assert forall|a: int|
                            0 <= a < j implies self.masks()[(#[trigger] l.deep_view()[a]).0]
                            == l.deep_view()[a].1 by {
                            if a < j - 1 {
                                assert(l.deep_view()[a].0 != l.deep_view()[j - 1].0);
                                assert(self.masks()[l.deep_view()[a].0] == pre.masks()[l.deep_view()[a].0]);
                            } else {
                                assert(restored@[j - 1].1@ == l.deep_view()[j - 1].1);
                            }
                        }
                        assert forall|ck2: u16|
                            self.masks().dom().contains(ck2) && (forall|a: int|
                                0 <= a < j ==> (#[trigger] l.deep_view()[a]).0
                                    != ck2) implies self.masks()[ck2] == mid.masks()[ck2] by {
                            assert(l.deep_view()[j - 1].0 != ck2);
                            assert(self.masks()[ck2] == pre.masks()[ck2]);
                        }
                    }
                }
                self.queued_actions.push_front(EntityAction::SpawnEntity { entity, components });
                proof {
                    assert(self.queued() =~= seq![action@] + old(self).queued());
                    assert(self.updates() =~~= old(self).updates());
                }
            },
            EntityAction::InsertComponent { entity, component, kind } => {
                let ghost mid = *self;
                let mask = match &self.last_popped_diff_mask {
                    Some(m) => m.clone_mask(),
                    None => vstd::pervasive::unreached(),
                };
                self.diff_handler.set_diff_mask(component, &mask);
                proof {
                    assert(self.masks().dom() =~= mid.masks().dom());
                    assert(self.component_records@.dom() =~= self.diff_handler@.dom());
                }
                self.queued_actions.push_front(
                    EntityAction::InsertComponent { entity, component, kind },
                );
                proof {
                    assert(self.queued() =~= seq![action@] + old(self).queued());
                    assert(self.updates() =~~= old(self).updates());
                    assert(self.masks() =~~= old(self).masks().insert(
                        component,
                        old(self).last_popped_diff_mask.unwrap()@,
                    ));
                }
            },
            EntityAction::UpdateComponent { entity, component, mask: _, kind } => {
                let ghost mid = *self;
                proof {
                    assert(self.updates().dom() =~= self.sent_updates@.dom());
                }
                match self.sent_updates.remove(packet_index) {
                    Some(mut inner) => {
                        let ghost inner0 = inner@.map_values(|m: DiffMask| m@);
                        let _ = inner.remove(component);
                        proof {
                            assert(inner@.map_values(|m: DiffMask| m@) =~~= inner0.remove(
                                component,
                            ));
                        }
                        if inner.len() == 0 {
                            proof {
                                assert(inner@.map_values(|m: DiffMask| m@) =~~= Map::<
                                    u16,
                                    Seq<u8>,
                                >::empty()) by {
                                    assert(inner@.dom() =~= Set::<u16>::empty());
                                }
                                assert(self.updates() =~~= mid.updates().remove(packet_index));
                            }
                        } else {
                            proof {
                                crate::keyed_vec::lemma_entries_map_at(inner.entries@, 0);
                                assert(inner@.dom().contains(inner.entries@[0].0));
                                assert(inner0.remove(component) != Map::<u16, Seq<u8>>::empty())
                                    by {
                                    assert(inner0.remove(component).dom().contains(
                                        inner.entries@[0].0,
                                    ));
                                }
                            }
                            self.sent_updates.insert(packet_index, inner);
                            proof {
                                assert(self.updates() =~~= mid.updates().insert(
                                    packet_index,
                                    mid.updates()[packet_index].remove(component),
                                ));
                            }
                        }
                    },
                    None => {
                        proof {
                            assert(self.updates() =~~= mid.updates());
                        }
                    },
                }
                self.last_update_packet_index = self.last_last_update_packet_index;
                let mask = match &self.last_popped_diff_mask {
                    Some(m) => m.clone_mask(),
                    None => vstd::pervasive::unreached(),
                };
                let ghost mid3 = *self;
                self.diff_handler.set_diff_mask(component, &mask);
                proof {
                    assert(self.masks().dom() =~= mid3.masks().dom());
                    assert(self.component_records@.dom() =~= self.diff_handler@.dom());
                }
                self.queued_actions.push_front(
                    EntityAction::UpdateComponent { entity, component, mask, kind },
                );
                proof {
                    assert(self.queued() =~= seq![
                        ActionView::UpdateComponent {
                            entity,
                            component,
                            mask: old(self).last_popped_diff_mask.unwrap()@,
                            kind,
                        },
                    ] + old(self).queued());
                    assert(self.masks() =~~= old(self).masks().insert(
                        component,
                        old(self).last_popped_diff_mask.unwrap()@,
                    ));
                }
            },
            other => {
                self.queued_actions.push_front(other);
                proof {
                    assert(self.queued() =~= seq![action@] + old(self).queued());
                    assert(self.updates() =~~= old(self).updates());
                    assert(self.masks() =~~= old(self).masks());
                }
            },
        }
    }

    /// The next packet index on the 16-bit circle.
    pub open spec fn wrap_inc(q: u16) -> u16 {
        if q == 0xffff {
            0
        } else {
            (q + 1) as u16
        }
    }

    /// Steps from `q` forward to `last` on the circle.
    pub open spec fn wrap_dist(q: u16, last: u16) -> int {
        (last - q) % 65536
    }

    /// Visit `steps` packets starting at `q`; clear from `acc` every bit
    /// that a visited in-flight update of this component already carries.
    pub open spec fn walk_from(
        updates: Map<u16, Map<u16, Seq<u8>>>,
        ck: u16,
        q: u16,
        steps: nat,
        acc: Seq<u8>,
    ) -> Seq<u8>
        decreases steps,
    {
        if steps == 0 {
            acc
        } else {
            let acc2 = if updates.dom().contains(q) && updates[q].dom().contains(ck)
                && updates[q][ck].len() == acc.len() {
                crate::diff_mask::bytes_nand(acc, updates[q][ck])
            } else {
                acc
            };
            Self::walk_from(updates, ck, Self::wrap_inc(q), (steps - 1) as nat, acc2)
        }
    }

    /// How many packets the drop walk visits: from the dropped index
    /// (exclusive) up to and including the most recent update packet.
    pub open spec fn walk_steps(p: u16, last: u16) -> nat {
        if p == last {
            0
        } else {
            ((last - p) % 65536) as nat
        }
    }

    /// What a dropped update's mask folds back as: its snapshot, minus the
    /// bits later in-flight updates carry.
    pub open spec fn fold_back_mask(
        updates: Map<u16, Map<u16, Seq<u8>>>,
        ck: u16,
        p: u16,
        last: u16,
    ) -> Seq<u8> {
        Self::walk_from(
            updates,
            ck,
            Self::wrap_inc(p),
            Self::walk_steps(p, last),
            updates[p][ck],
        )
    }

    /// The guaranteed actions of a dropped packet, in their original order.
    pub open spec fn requeue_of(actions: Seq<ActionView>) -> Seq<ActionView>
        decreases actions.len(),
    {
        if actions.len() == 0 {
            seq![]
        } else {
            Self::requeue_of(actions.drop_last()) + (if is_guaranteed(actions.last()) {
                seq![actions.last()]
            } else {
                seq![]
            })
        }
    }

    /// The live masks after a dropped packet's update actions fold back.
    pub open spec fn drop_fold(
        masks: Map<u16, Seq<u8>>,
        actions: Seq<ActionView>,
        updates: Map<u16, Map<u16, Seq<u8>>>,
        p: u16,
        last: u16,
    ) -> Map<u16, Seq<u8>>
        decreases actions.len(),
    {
        if actions.len() == 0 {
            masks
        } else {
            let masks1 = Self::drop_fold(masks, actions.drop_last(), updates, p, last);
            match actions.last() {
                ActionView::UpdateComponent { component, .. } => {
                    if updates.dom().contains(p) && updates[p].dom().contains(component)
                        && masks1.dom().contains(component) && masks1[component].len()
                        == updates[p][component].len() {
                        masks1.insert(
                            component,
                            crate::diff_mask::bytes_or(
                                masks1[component],
                                Self::fold_back_mask(updates, component, p, last),
                            ),
                        )
                    } else {
                        masks1
                    }
                },
                _ => masks1,
            }
        }
    }

    /// Queue a delivered packet index for the next reconciliation pass;
    /// nothing else moves until the queue is drained.
    pub fn notify_packet_delivered(&mut self, packet_index: u16)
        ensures
            final(self).delivered_packets@ == old(self).delivered_packets@.push(packet_index),
            final(self).wf() == old(self).wf(),
            final(self).queued_actions == old(self).queued_actions,
            final(self).sent_actions == old(self).sent_actions,
            final(self).sent_updates == old(self).sent_updates,
            final(self).diff_handler == old(self).diff_handler,
            final(self).entity_records == old(self).entity_records,
            final(self).local_to_global_entity == old(self).local_to_global_entity,
            final(self).component_records == old(self).component_records,
            final(self).local_to_global_component == old(self).local_to_global_component,
            final(self).entity_generator == old(self).entity_generator,
            final(self).component_key_generator == old(self).component_key_generator,
            final(self).delayed_entity_deletions == old(self).delayed_entity_deletions,
            final(self).delayed_component_deletions == old(self).delayed_component_deletions,
            final(self).last_popped_diff_mask == old(self).last_popped_diff_mask,
            final(self).last_popped_diff_mask_list == old(self).last_popped_diff_mask_list,
            final(self).last_update_packet_index == old(self).last_update_packet_index,
            final(self).last_last_update_packet_index == old(self).last_last_update_packet_index,
    {
        self.delivered_packets.push_back(packet_index);
    }

    /// A packet was dropped. Guaranteed actions it carried re-enqueue
    /// verbatim in their original order. Each update's recorded mask,
    /// stripped of the bits later in-flight updates still carry, ORs back
    /// into the live mask: no dirty bit is lost and none is doubled. A
    /// packet with no ledger entry changes nothing.
    #[verifier::rlimit(60)]
    pub fn notify_packet_dropped(&mut self, packet_index: u16)
        requires
            old(self).wf(),
        ensures
            final(self).wf(),
            !old(self).sent().dom().contains(packet_index) ==> final(self).sent() == old(self).sent() && final(self).updates() == old(self).updates() && final(self).queued() == old(self).queued() && final(self).masks() == old(self).masks(),
            old(self).sent().dom().contains(packet_index) ==> final(self).sent() == old(self).sent().remove(packet_index) && final(self).updates() == old(self).updates().remove(
                packet_index,
            ) && final(self).queued() == old(self).queued() + Self::requeue_of(
                old(self).sent()[packet_index],
            ) && final(self).masks() == Self::drop_fold(
                old(self).masks(),
                old(self).sent()[packet_index],
                old(self).updates(),
                packet_index,
                old(self).last_update_packet_index,
            ),
            final(self).entity_records@ == old(self).entity_records@,
            final(self).component_records@ == old(self).component_records@,
            final(self).delivered_packets == old(self).delivered_packets,
            final(self).last_update_packet_index == old(self).last_update_packet_index,
            final(self).delayed_entity_deletions == old(self).delayed_entity_deletions,
            final(self).delayed_component_deletions == old(self).delayed_component_deletions,
    {
        proof {
            assert(self.sent().dom() =~= self.sent_actions@.dom());
        }
        let dropped_actions = match self.sent_actions.remove(packet_index) {
            Some(l) => l,
            None => {
                proof {
                    assert(self.sent() =~~= old(self).sent());
                    assert(self.updates() =~~= old(self).updates());
                }
                return ;
            },
        };
        proof {
            assert(self.sent() =~~= old(self).sent().remove(packet_index));
            assert(dropped_actions.deep_view() == old(self).sent()[packet_index]);
        }
        let ghost actions = dropped_actions.deep_view();
        let ghost updates0 = old(self).updates();
        let ghost masks0 = old(self).masks();
        let last = self.last_update_packet_index;
        let n = dropped_actions.len();
        let mut i: usize = 0;
        let ghost mid = *self;
        proof {
            assert(actions.take(0).len() == 0);
            assert(self.queued() =~= old(self).queued() + Self::requeue_of(actions.take(0)));
        }
        while i < n
            invariant
                i <= n,
                n == actions.len(),
                dropped_actions.deep_view() == actions,
                self.wf(),
                mid.wf(),
                old(self).wf(),
                last == old(self).last_update_packet_index,
                updates0 == old(self).updates(),
                masks0 == old(self).masks(),
                self.sent_updates == mid.sent_updates,
                self.updates() == updates0,
                self.masks().dom() == masks0.dom(),
                self.queued() == old(self).queued() + Self::requeue_of(actions.take(i as int)),
                self.masks() == Self::drop_fold(
                    masks0,
                    actions.take(i as int),
                    updates0,
                    packet_index,
                    last,
                ),
                self.sent_actions == mid.sent_actions,
                self.entity_records == mid.entity_records,
                self.component_records == mid.component_records,
                self.local_to_global_entity == mid.local_to_global_entity,
                self.local_to_global_component == mid.local_to_global_component,
                self.entity_generator == mid.entity_generator,
                self.component_key_generator == mid.component_key_generator,
                self.delayed_entity_deletions == mid.delayed_entity_deletions,
                self.delayed_component_deletions == mid.delayed_component_deletions,
                self.delivered_packets == mid.delivered_packets,
                self.last_update_packet_index == mid.last_update_packet_index,
                self.last_last_update_packet_index == mid.last_last_update_packet_index,
            decreases n - i,
        {
            let action = &dropped_actions[i];
            let ghost av = actions[i as int];
            proof {
                assert(action@ == av);
            }
            let is_update_of = match action {
                EntityAction::UpdateComponent { component, .. } => Some(*component),
                _ => None,
            };
            match is_update_of {
                None => {
                    let ghost q0 = self.queued_actions.deep_view();
                    self.queued_actions.push_back(action.clone_action());
                    i = i + 1;
                    proof {
                        assert(self.queued_actions.deep_view() =~= q0.push(av));
                        assert(actions.take(i as int).drop_last() =~= actions.take(i - 1));
                        assert(actions.take(i as int).last() == av);
                        assert(is_guaranteed(av));
                        assert(Self::requeue_of(actions.take(i as int)) =~= Self::requeue_of(
                            actions.take(i - 1),
                        ).push(av));
                        assert(self.queued() =~= old(self).queued() + Self::requeue_of(
                            actions.take(i as int),
                        ));
                        assert(Self::drop_fold(
                            masks0,
                            actions.take(i as int),
                            updates0,
                            packet_index,
                            last,
                        ) == Self::drop_fold(
                            masks0,
                            actions.take(i - 1),
                            updates0,
                            packet_index,
                            last,
                        ));
                    }
                },
                Some(ck) => {
                    let snapshot = match self.sent_updates.get(packet_index) {
                        Some(inner) => {
                            match inner.get(ck) {
                                Some(m) => Some(m.clone_mask()),
                                None => None,
                            }
                        },
                        None => None,
                    };
                    let ghost has_snapshot = updates0.dom().contains(packet_index)
                        && updates0[packet_index].dom().contains(ck);
                    match snapshot {
                        Some(mut new_mask) => {
                            proof {
                                assert(has_snapshot);
                                assert(new_mask@ == updates0[packet_index][ck]);
                            }
                            let ghost snap0 = new_mask@;
                            let ghost total_steps = Self::walk_steps(packet_index, last);
                            let ghost walk_start = Self::wrap_inc(packet_index);
                            if packet_index != last {
                                let mut q: u16 = packet_index.wrapping_add(1);
                                proof {
                                    assert(q == walk_start);
                                    lemma_wrap_first_step(packet_index, last);
                                    assert(Self::wrap_dist(q, last) + 1 == total_steps);
                                }
                                let ghost in_walk = *self;
                                while q != last
                                    invariant
                                        *self == in_walk,
                                        self.wf(),
                                        updates0 == in_walk.updates(),
                                        new_mask@.len() == snap0.len(),
                                        0 <= Self::wrap_dist(q, last) < total_steps,
                                        Self::walk_from(
                                            updates0,
                                            ck,
                                            walk_start,
                                            total_steps,
                                            snap0,
                                        ) == Self::walk_from(
                                            updates0,
                                            ck,
                                            q,
                                            (Self::wrap_dist(q, last) + 1) as nat,
                                            new_mask@,
                                        ),
                                    decreases Self::wrap_dist(q, last),
                                {
                                    proof {
                                        lemma_wrap_dist_dec(q, last);
                                    }
                                    let ghost acc_pre = new_mask@;
                                    let ghost dist_pre = Self::wrap_dist(q, last);
                                    let hit = match self.sent_updates.get(q) {
                                        Some(inner) => {
                                            match inner.get(ck) {
                                                Some(m) => {
                                                    if m.byte_len() == new_mask.byte_len() {
                                                        new_mask.nand(m);
                                                        proof {
                                                            assert(new_mask@
                                                                =~= crate::diff_mask::bytes_nand(
                                                                acc_pre,
                                                                updates0[q][ck],
                                                            ));
                                                        }
                                                        true
                                                    } else {
                                                        proof {
                                                            assert(updates0[q][ck].len()
                                                                != acc_pre.len());
                                                        }
                                                        false
                                                    }
                                                },
                                                None => false,
                                            }
                                        },
                                        None => false,
                                    };
                                    proof {
                                        if !hit {
                                            assert(new_mask@ == acc_pre);
                                        }
                                        assert(Self::walk_from(
                                            updates0,
                                            ck,
                                            q,
                                            (dist_pre + 1) as nat,
                                            acc_pre,
                                        ) == Self::walk_from(
                                            updates0,
                                            ck,
                                            Self::wrap_inc(q),
                                            dist_pre as nat,
                                            new_mask@,
                                        ));
                                    }
                                    let ghost q_old = q;
                                    q = q.wrapping_add(1);
                                    proof {
                                        assert(q == Self::wrap_inc(q_old));
                                    }
                                }
                                // the newest in-flight update is visited too
                                proof {
                                    lemma_wrap_dist_zero(q, last);
                                    assert(Self::wrap_dist(q, last) == 0);
                                }
                                let ghost acc_last = new_mask@;
                                let hit_last = match self.sent_updates.get(last) {
                                    Some(inner) => {
                                        match inner.get(ck) {
                                            Some(m) => {
                                                if m.byte_len() == new_mask.byte_len() {
                                                    new_mask.nand(m);
                                                    proof {
                                                        assert(new_mask@
                                                            =~= crate::diff_mask::bytes_nand(
                                                            acc_last,
                                                            updates0[last][ck],
                                                        ));
                                                    }
                                                    true
                                                } else {
                                                    proof {
                                                        assert(updates0[last][ck].len()
                                                            != acc_last.len());
                                                    }
                                                    false
                                                }
                                            },
                                            None => false,
                                        }
                                    },
                                    None => false,
                                };
                                proof {
                                    if !hit_last {
                                        assert(new_mask@ == acc_last);
                                    }
                                    assert(Self::walk_from(
                                        updates0,
                                        ck,
                                        last,
                                        1nat,
                                        acc_last,
                                    ) == Self::walk_from(
                                        updates0,
                                        ck,
                                        Self::wrap_inc(last),
                                        0nat,
                                        new_mask@,
                                    ));
                                    assert(Self::walk_from(
                                        updates0,
                                        ck,
                                        Self::wrap_inc(last),
                                        0nat,
                                        new_mask@,
                                    ) == new_mask@);
                                    assert(new_mask@ == Self::walk_from(
                                        updates0,
                                        ck,
                                        walk_start,
                                        total_steps,
                                        snap0,
                                    ));
                                    assert(new_mask@ == Self::fold_back_mask(
                                        updates0,
                                        ck,
                                        packet_index,
                                        last,
                                    ));
                                }
                            } else {
                                proof {
                                    assert(total_steps == 0);
                                    assert(new_mask@ == Self::fold_back_mask(
                                        updates0,
                                        ck,
                                        packet_index,
                                        last,
                                    ));
                                }
                            }
                            // OR the surviving bits back into the live mask
                            let ghost masks_pre = self.masks();
                            let live = self.diff_handler.get_diff_mask(ck);
                            match live {
                                Some(live_mask) => {
                                    if live_mask.byte_len() == new_mask.byte_len() {
                                        self.diff_handler.or_diff_mask(ck, &new_mask);
                                        proof {
                                            assert(self.masks() =~~= masks_pre.insert(
                                                ck,
                                                crate::diff_mask::bytes_or(
                                                    masks_pre[ck],
                                                    new_mask@,
                                                ),
                                            ));
                                        }
                                    } else {
                                        proof {
                                            assert(masks_pre[ck].len() != new_mask@.len());
                                        }
                                    }
                                },
                                None => {},
                            }
                            i = i + 1;
                            proof {
                                assert(actions.take(i as int).drop_last() =~= actions.take(i - 1));
                                assert(actions.take(i as int).last() == av);
                                assert(!is_guaranteed(av));
                                assert(Self::requeue_of(actions.take(i as int)) =~= Self::requeue_of(
                                    actions.take(i - 1),
                                ));
                                assert(self.queued() =~= old(self).queued() + Self::requeue_of(
                                    actions.take(i as int),
                                ));
                                assert(self.masks() =~~= Self::drop_fold(
                                    masks0,
                                    actions.take(i as int),
                                    updates0,
                                    packet_index,
                                    last,
                                ));
                                assert(self.masks().dom() =~= masks0.dom());
                                assert(self.component_records@.dom() =~= self.diff_handler@.dom());
                            }
                        },
                        None => {
                            i = i + 1;
                            proof {
                                assert(!has_snapshot);
                                assert(actions.take(i as int).drop_last() =~= actions.take(i - 1));
                                assert(actions.take(i as int).last() == av);
                                assert(Self::requeue_of(actions.take(i as int)) =~= Self::requeue_of(
                                    actions.take(i - 1),
                                ));
                                assert(self.queued() =~= old(self).queued() + Self::requeue_of(
                                    actions.take(i as int),
                                ));
                                assert(Self::drop_fold(
                                    masks0,
                                    actions.take(i as int),
                                    updates0,
                                    packet_index,
                                    last,
                                ) == Self::drop_fold(
                                    masks0,
                                    actions.take(i - 1),
                                    updates0,
                                    packet_index,
                                    last,
                                ));
                            }
                        },
                    }
                },
            }
        }
        proof {
            assert(actions.take(n as int) =~= actions);
        }
        let _ = self.sent_updates.remove(packet_index);
        proof {
            assert(self.updates() =~~= old(self).updates().remove(packet_index));
        }
    }
}

impl EntityManager {
    /// Insert actions owed for components registered between a spawn's pop
    /// and its ack: one per key still `Creating`, in world-record order.
    pub open spec fn straggler_inserts(
        keys: Seq<u16>,
        records: Map<u16, LocalComponentRecord>,
        comps: Map<u16, (u16, u16)>,
        entity: u16,
    ) -> Seq<ActionView>
        decreases keys.len(),
    {
        if keys.len() == 0 {
            seq![]
        } else {
            Self::straggler_inserts(keys.drop_last(), records, comps, entity) + (
            if records.dom().contains(keys.last()) && records[keys.last()].status
                == LocalityStatus::Creating && comps.dom().contains(keys.last()) {
                seq![
                    ActionView::InsertComponent {
                        entity,
                        component: keys.last(),
                        kind: comps[keys.last()].1,
                    },
                ]
            } else {
                seq![]
            })
        }
    }

    /// Mark the components that rode along with an acked spawn `Created`.
    fn mark_components_created(&mut self, components: &Vec<(u16, u16)>)
        requires
            old(self).wf(),
        ensures
            final(self).wf(),
            final(self).component_records@.dom() == old(self).component_records@.dom(),
            forall|ck: u16| #[trigger]
                final(self).component_records@.dom().contains(ck) ==> final(self).component_records@[ck] == (if components@.map_values(|p: (u16, u16)| p.0).contains(ck) {
                    LocalComponentRecord {
                        local_key: old(self).component_records@[ck].local_key,
                        status: LocalityStatus::Created,
                    }
                } else {
                    old(self).component_records@[ck]
                }),
            final(self).entity_records@ == old(self).entity_records@,
            final(self).local_to_global_entity@ == old(self).local_to_global_entity@,
            final(self).local_to_global_component@ == old(self).local_to_global_component@,
            final(self).entity_generator == old(self).entity_generator,
            final(self).component_key_generator == old(self).component_key_generator,
            final(self).diff_handler == old(self).diff_handler,
            final(self).queued_actions == old(self).queued_actions,
            final(self).sent_actions == old(self).sent_actions,
            final(self).sent_updates == old(self).sent_updates,
            final(self).delayed_entity_deletions == old(self).delayed_entity_deletions,
            final(self).delayed_component_deletions == old(self).delayed_component_deletions,
            final(self).delivered_packets == old(self).delivered_packets,
            final(self).last_update_packet_index == old(self).last_update_packet_index,
            final(self).last_last_update_packet_index == old(self).last_last_update_packet_index,
            final(self).last_popped_diff_mask == old(self).last_popped_diff_mask,
            final(self).last_popped_diff_mask_list == old(self).last_popped_diff_mask_list,
    {
        let ghost comp_keys = components@.map_values(|p: (u16, u16)| p.0);
        let n = components.len();
        let mut i: usize = 0;
        while i < n
            invariant
                i <= n,
                n == components@.len(),
                comp_keys == components@.map_values(|p: (u16, u16)| p.0),
                self.wf(),
                old(self).wf(),
                self.component_records@.dom() == old(self).component_records@.dom(),
                forall|ck: u16| #[trigger]
                    self.component_records@.dom().contains(ck) ==> self.component_records@[ck] == (
                    if comp_keys.take(i as int).contains(ck) {
                        LocalComponentRecord {
                            local_key: old(self).component_records@[ck].local_key,
                            status: LocalityStatus::Created,
                        }
                    } else {
                        old(self).component_records@[ck]
                    }),
                self.entity_records@ == old(self).entity_records@,
                self.local_to_global_entity@ == old(self).local_to_global_entity@,
                self.local_to_global_component@ == old(self).local_to_global_component@,
                self.entity_generator == old(self).entity_generator,
                self.component_key_generator == old(self).component_key_generator,
                self.diff_handler == old(self).diff_handler,
                self.queued_actions == old(self).queued_actions,
                self.sent_actions == old(self).sent_actions,
                self.sent_updates == old(self).sent_updates,
                self.delayed_entity_deletions == old(self).delayed_entity_deletions,
                self.delayed_component_deletions == old(self).delayed_component_deletions,
                self.delivered_packets == old(self).delivered_packets,
                self.last_update_packet_index == old(self).last_update_packet_index,
                self.last_last_update_packet_index == old(self).last_last_update_packet_index,
                self.last_popped_diff_mask == old(self).last_popped_diff_mask,
                self.last_popped_diff_mask_list == old(self).last_popped_diff_mask_list,
            decreases n - i,
        {
            let ck = components[i].0;
            let found = match self.component_records.get(ck) {
                Some(r) => Some(*r),
                None => None,
            };
            match found {
                Some(r) => {
                    self.update_component_record(
                        ck,
                        LocalComponentRecord {
                            local_key: r.local_key,
                            status: LocalityStatus::Created,
                        },
                    );
                },
                None => {},
            }
            i = i + 1;
            proof {
                assert(comp_keys.take(i as int) =~= comp_keys.take(i - 1).push(ck));
                assert forall|ck2: u16| #[trigger]
                    self.component_records@.dom().contains(
                        ck2,
                    ) implies self.component_records@[ck2] == (if comp_keys.take(i as int).contains(
                    ck2,
                ) {
                    LocalComponentRecord {
                        local_key: old(self).component_records@[ck2].local_key,
                        status: LocalityStatus::Created,
                    }
                } else {
                    old(self).component_records@[ck2]
                }) by {
                    if comp_keys.take(i as int).contains(ck2) {
                        let a = choose|a: int|
                            0 <= a < i && #[trigger] comp_keys.take(i as int)[a] == ck2;
                        if a < i - 1 {
                            assert(comp_keys.take(i - 1)[a] == ck2);
                            assert(comp_keys.take(i - 1).contains(ck2));
                        }
                    } else {
                        assert(!comp_keys.take(i - 1).contains(ck2)) by {
                            if comp_keys.take(i - 1).contains(ck2) {
                                let a = choose|a: int|
                                    0 <= a < i - 1 && #[trigger] comp_keys.take(i - 1)[a] == ck2;
                                assert(comp_keys.take(i as int)[a] == ck2);
                            }
                        }
                        assert(ck2 != ck) by {
                            if ck2 == ck {
                                assert(comp_keys.take(i as int)[i - 1] == ck2);
                            }
                        }
                    }
                }
            }
        }
        proof {
            assert(comp_keys.take(n as int) =~= comp_keys);
        }
    }

    /// Queue the insert actions owed for an acked entity's components that
    /// are still `Creating` in the live world record.
    fn queue_straggler_inserts(&mut self, world_record: &WorldRecord, entity: u16)
        requires
            old(self).wf(),
            world_record.wf(),
            world_record.entities_view().dom().contains(entity),
        ensures
            final(self).wf(),
            final(self).queued() == old(self).queued() + Self::straggler_inserts(
                world_record.entities@[entity].items@,
                old(self).component_records@,
                world_record.components_view(),
                entity,
            ),
            final(self).entity_records@ == old(self).entity_records@,
            final(self).component_records@ == old(self).component_records@,
            final(self).diff_handler == old(self).diff_handler,
            final(self).sent_actions == old(self).sent_actions,
            final(self).sent_updates == old(self).sent_updates,
            final(self).delayed_entity_deletions == old(self).delayed_entity_deletions,
            final(self).delayed_component_deletions == old(self).delayed_component_deletions,
            final(self).delivered_packets == old(self).delivered_packets,
            final(self).entity_generator == old(self).entity_generator,
            final(self).component_key_generator == old(self).component_key_generator,
            final(self).local_to_global_entity@ == old(self).local_to_global_entity@,
            final(self).local_to_global_component@ == old(self).local_to_global_component@,
            final(self).last_update_packet_index == old(self).last_update_packet_index,
            final(self).last_last_update_packet_index == old(self).last_last_update_packet_index,
            final(self).last_popped_diff_mask == old(self).last_popped_diff_mask,
            final(self).last_popped_diff_mask_list == old(self).last_popped_diff_mask_list,
    {
        let component_keys = world_record.get_component_keys(entity);
        let ghost keys = component_keys@;
        let n = component_keys.len();
        let mut i: usize = 0;
        while i < n
            invariant
                i <= n,
                n == keys.len(),
                component_keys@ == keys,
                keys == world_record.entities@[entity].items@,
                world_record.wf(),
                forall|a: int|
                    0 <= a < keys.len() ==> world_record.components_view().dom().contains(keys[a])
                        && world_record.components_view()[keys[a]].0 == entity,
                self.wf(),
                old(self).wf(),
                self.queued() == old(self).queued() + Self::straggler_inserts(
                    keys.take(i as int),
                    old(self).component_records@,
                    world_record.components_view(),
                    entity,
                ),
                self.entity_records == old(self).entity_records,
                self.component_records == old(self).component_records,
                self.diff_handler == old(self).diff_handler,
                self.sent_actions == old(self).sent_actions,
                self.sent_updates == old(self).sent_updates,
                self.delayed_entity_deletions == old(self).delayed_entity_deletions,
                self.delayed_component_deletions == old(self).delayed_component_deletions,
                self.delivered_packets == old(self).delivered_packets,
                self.entity_generator == old(self).entity_generator,
                self.component_key_generator == old(self).component_key_generator,
                self.local_to_global_entity == old(self).local_to_global_entity,
                self.local_to_global_component == old(self).local_to_global_component,
                self.last_update_packet_index == old(self).last_update_packet_index,
                self.last_last_update_packet_index == old(self).last_last_update_packet_index,
                self.last_popped_diff_mask == old(self).last_popped_diff_mask,
                self.last_popped_diff_mask_list == old(self).last_popped_diff_mask_list,
            decreases n - i,
        {
            let ck = component_keys[i];
            let ghost q_before = self.queued_actions.deep_view();
            let still_creating = match self.component_records.get(ck) {
                Some(r) => match r.status {
                    LocalityStatus::Creating => true,
                    _ => false,
                },
                None => false,
            };
            if still_creating {
                let (_, kind) = match world_record.get_component_record(ck) {
                    Some(p) => p,
                    None => vstd::pervasive::unreached(),
                };
                self.queued_actions.push_back(
                    EntityAction::InsertComponent { entity, component: ck, kind },
                );
                proof {
                    assert(self.queued_actions.deep_view() =~= q_before.push(
                        ActionView::InsertComponent {
                            entity,
                            component: ck,
                            kind: world_record.components_view()[ck].1,
                        },
                    ));
                }
            }
            i = i + 1;
            proof {
                assert(keys.take(i as int).drop_last() =~= keys.take(i - 1));
                assert(keys.take(i as int).last() == ck);
                let grown = Self::straggler_inserts(
                    keys.take(i as int),
                    old(self).component_records@,
                    world_record.components_view(),
                    entity,
                );
                let prev = Self::straggler_inserts(
                    keys.take(i - 1),
                    old(self).component_records@,
                    world_record.components_view(),
                    entity,
                );
                if still_creating {
                    assert(grown =~= prev.push(
                        ActionView::InsertComponent {
                            entity,
                            component: ck,
                            kind: world_record.components_view()[ck].1,
                        },
                    ));
                } else {
                    assert(grown =~= prev);
                }
                assert(self.queued() =~= old(self).queued() + grown);
            }
        }
        proof {
            assert(keys.take(n as int) =~= keys);
        }
    }

    /// Destroy an entity's local record and recycle its wire key.
    fn entity_cleanup(&mut self, entity: u16)
        requires
            old(self).wf(),
            old(self).entity_records@.dom().contains(entity),
        ensures
            final(self).wf(),
            final(self).entity_records@ == old(self).entity_records@.remove(entity),
            final(self).local_to_global_entity@ == old(self).local_to_global_entity@.remove(
                old(self).entity_records@[entity].local_key,
            ),
            final(self).entity_generator.is_free(old(self).entity_records@[entity].local_key),
            final(self).component_records@ == old(self).component_records@,
            final(self).diff_handler == old(self).diff_handler,
            final(self).queued_actions == old(self).queued_actions,
            final(self).sent_actions == old(self).sent_actions,
            final(self).sent_updates == old(self).sent_updates,
            final(self).delayed_entity_deletions == old(self).delayed_entity_deletions,
            final(self).delayed_component_deletions == old(self).delayed_component_deletions,
            final(self).delivered_packets == old(self).delivered_packets,
            final(self).component_key_generator == old(self).component_key_generator,
            final(self).local_to_global_component@ == old(self).local_to_global_component@,
            final(self).last_update_packet_index == old(self).last_update_packet_index,
            final(self).last_last_update_packet_index == old(self).last_last_update_packet_index,
            final(self).last_popped_diff_mask == old(self).last_popped_diff_mask,
            final(self).last_popped_diff_mask_list == old(self).last_popped_diff_mask_list,
    {
        let record = match self.entity_records.remove(entity) {
            Some(r) => r,
            None => vstd::pervasive::unreached(),
        };
        let _ = self.local_to_global_entity.remove(record.local_key);
        proof {
            assert(old(self).local_to_global_entity@.dom().contains(record.local_key));
            assert(!old(self).entity_generator.is_free(record.local_key));
        }
        self.entity_generator.recycle_key(record.local_key);
        proof {
            assert forall|e: u16| #[trigger]
                self.entity_records@.dom().contains(
                    e,
                ) implies self.local_to_global_entity@.dom().contains(
                self.entity_records@[e].local_key,
            ) && self.local_to_global_entity@[self.entity_records@[e].local_key] == e by {
                assert(old(self).entity_records@.dom().contains(e));
                assert(e != entity);
                assert(old(self).entity_records@[e].local_key != record.local_key);
            }
            assert forall|lk: u16| #[trigger]
                self.local_to_global_entity@.dom().contains(
                    lk,
                ) implies self.entity_records@.dom().contains(self.local_to_global_entity@[lk])
                && self.entity_records@[self.local_to_global_entity@[lk]].local_key == lk by {
                assert(old(self).local_to_global_entity@.dom().contains(lk));
                assert(lk != record.local_key);
                assert(old(self).local_to_global_entity@[lk] != entity);
            }
            assert forall|lk: u16| #[trigger]
                self.local_to_global_entity@.dom().contains(
                    lk,
                ) implies !self.entity_generator.is_free(lk) by {
                assert(lk != record.local_key);
                assert(!old(self).entity_generator.is_free(lk));
            }
        }
    }
}

impl EntityManager {
    /// Field-wise equality of two managers, the delivered-notification
    /// queue aside; the drain consumes that queue while the per-packet
    /// effects leave it alone.
    pub open spec fn em_eq_mod_delivered(a: EntityManager, b: EntityManager) -> bool {
        &&& b.entity_generator == a.entity_generator
        &&& b.entity_records == a.entity_records
        &&& b.local_to_global_entity == a.local_to_global_entity
        &&& b.delayed_entity_deletions == a.delayed_entity_deletions
        &&& b.diff_handler == a.diff_handler
        &&& b.component_key_generator == a.component_key_generator
        &&& b.local_to_global_component == a.local_to_global_component
        &&& b.component_records == a.component_records
        &&& b.delayed_component_deletions == a.delayed_component_deletions
        &&& b.queued_actions == a.queued_actions
        &&& b.sent_actions == a.sent_actions
        &&& b.sent_updates == a.sent_updates
        &&& b.last_update_packet_index == a.last_update_packet_index
        &&& b.last_last_update_packet_index == a.last_last_update_packet_index
        &&& b.last_popped_diff_mask == a.last_popped_diff_mask
        &&& b.last_popped_diff_mask_list == a.last_popped_diff_mask_list
    }

    /// The exact effect of one delivered action on the ledger, as
    /// delivery reconciliation prescribes: spawns and inserts turn their
    /// records `Created` (or convert a delayed deletion into the delete
    /// action), an acked spawn marks its piggybacked components and queues
    /// inserts for stragglers, despawns destroy the entity record and
    /// list its components for cleanup, removes list their component, and
    /// updates clear the packet's mask record. `d0`/`d1` are the cleanup
    /// list before and after.
    pub open spec fn deliver_action_rel(
        pre: EntityManager,
        post: EntityManager,
        wr: WorldRecord,
        p: u16,
        av: ActionView,
        d0: Seq<u16>,
        d1: Seq<u16>,
    ) -> bool {
        &&& post.wf()
        &&& post.masks() == pre.masks()
        &&& post.sent_actions == pre.sent_actions
        &&& post.component_records@.dom() == pre.component_records@.dom()
        &&& match av {
            ActionView::RemoveComponent { component } => d1 == d0.push(component)
                && post.entity_records@ == pre.entity_records@ && post.component_records@
                == pre.component_records@ && post.queued() == pre.queued() && post.updates()
                == pre.updates(),
            ActionView::UpdateComponent { .. } => post.updates() == pre.updates().remove(p) && d1
                == d0 && post.entity_records@ == pre.entity_records@ && post.component_records@
                == pre.component_records@ && post.queued() == pre.queued(),
            ActionView::OwnEntity { .. } | ActionView::DisownEntity { .. } => post.entity_records@
                == pre.entity_records@ && post.component_records@ == pre.component_records@
                && post.queued() == pre.queued() && d1 == d0 && post.updates() == pre.updates(),
            ActionView::InsertComponent { component, .. } => d1 == d0 && post.entity_records@
                == pre.entity_records@ && post.updates() == pre.updates() && (
            if pre.component_records@.dom().contains(component) {
                if pre.delayed_component_deletions@.contains(component) {
                    post.component_records@ == pre.component_records@.insert(
                        component,
                        LocalComponentRecord {
                            local_key: pre.component_records@[component].local_key,
                            status: LocalityStatus::Deleting,
                        },
                    ) && post.queued() == pre.queued().push(
                        ActionView::RemoveComponent { component },
                    ) && post.delayed_component_deletions@
                        == pre.delayed_component_deletions@.remove(component)
                } else {
                    post.component_records@ == pre.component_records@.insert(
                        component,
                        LocalComponentRecord {
                            local_key: pre.component_records@[component].local_key,
                            status: LocalityStatus::Created,
                        },
                    ) && post.queued() == pre.queued() && post.delayed_component_deletions@
                        == pre.delayed_component_deletions@
                }
            } else {
                post.component_records@ == pre.component_records@ && post.queued() == pre.queued()
            }),
            ActionView::DespawnEntity { entity } => post.updates() == pre.updates() && (
            if pre.entity_records@.dom().contains(entity) && wr.entities_view().dom().contains(
                entity,
            ) {
                post.entity_records@ == pre.entity_records@.remove(entity) && d1 == d0
                    + wr.entities@[entity].items@ && post.queued() == pre.queued()
                    && post.component_records@ == pre.component_records@
                    && post.local_to_global_entity@ == pre.local_to_global_entity@.remove(
                    pre.entity_records@[entity].local_key,
                ) && post.entity_generator.is_free(pre.entity_records@[entity].local_key)
            } else {
                post.entity_records@ == pre.entity_records@ && d1 == d0 && post.queued()
                    == pre.queued() && post.component_records@ == pre.component_records@
            }),
            ActionView::SpawnEntity { entity, components } => d1 == d0 && post.updates()
                == pre.updates() && (
            if pre.entity_records@.dom().contains(entity) && wr.entities_view().dom().contains(
                entity,
            ) {
                if pre.delayed_entity_deletions@.contains(entity) {
                    post.entity_records@ == pre.entity_records@.insert(
                        entity,
                        LocalEntityRecord {
                            local_key: pre.entity_records@[entity].local_key,
                            status: LocalityStatus::Deleting,
                            is_prediction: pre.entity_records@[entity].is_prediction,
                        },
                    ) && post.queued() == pre.queued().push(ActionView::DespawnEntity { entity })
                        && post.delayed_entity_deletions@
                        == pre.delayed_entity_deletions@.remove(entity) && post.component_records@
                        == pre.component_records@
                } else {
                    post.entity_records@ == pre.entity_records@.insert(
                        entity,
                        LocalEntityRecord {
                            local_key: pre.entity_records@[entity].local_key,
                            status: LocalityStatus::Created,
                            is_prediction: pre.entity_records@[entity].is_prediction,
                        },
                    ) && post.delayed_entity_deletions@ == pre.delayed_entity_deletions@ && (
                    forall|ck: u16| #[trigger]
                        post.component_records@.dom().contains(ck) ==> post.component_records@[ck]
                            == (if components.map_values(|p: (u16, u16)| p.0).contains(ck) {
                            LocalComponentRecord {
                                local_key: pre.component_records@[ck].local_key,
                                status: LocalityStatus::Created,
                            }
                        } else {
                            pre.component_records@[ck]
                        })) && post.queued() == pre.queued() + Self::straggler_inserts(
                        wr.entities@[entity].items@,
                        post.component_records@,
                        wr.components_view(),
                        entity,
                    )
                }
            } else {
                post.entity_records@ == pre.entity_records@ && post.component_records@
                    == pre.component_records@ && post.queued() == pre.queued()
            }),
        }
    }

    /// A chain of delivered-action effects, in packet order, accumulating
    /// the cleanup list.
    pub open spec fn deliver_actions_rel(
        pre: EntityManager,
        post: EntityManager,
        wr: WorldRecord,
        p: u16,
        actions: Seq<ActionView>,
        d0: Seq<u16>,
        d1: Seq<u16>,
    ) -> bool
        decreases actions.len(),
    {
        if actions.len() == 0 {
            Self::em_eq_mod_delivered(pre, post) && d1 == d0
        } else {
            exists|mid: EntityManager, dm: Seq<u16>|
                #[trigger] Self::deliver_action_rel(pre, mid, wr, p, actions[0], d0, dm)
                    && Self::deliver_actions_rel(mid, post, wr, p, actions.drop_first(), dm, d1)
        }
    }

    /// One component cleanup, as `deliver_packet_rel` chains them.
    pub open spec fn cleanup_rel(pre: EntityManager, post: EntityManager, ck: u16) -> bool {
        &&& post.wf()
        &&& post.component_records@ == pre.component_records@.remove(ck)
        &&& post.masks() == pre.masks().remove(ck)
        &&& post.entity_records@ == pre.entity_records@
        &&& post.queued_actions == pre.queued_actions
        &&& post.sent_actions == pre.sent_actions
        &&& post.sent_updates == pre.sent_updates
        &&& pre.component_records@.dom().contains(ck)
            ==> post.component_key_generator.is_free(pre.component_records@[ck].local_key)
                && post.local_to_global_component@ == pre.local_to_global_component@.remove(
                pre.component_records@[ck].local_key,
            )
    }

    /// The cleanup chain for a delivered packet's deletion list.
    pub open spec fn cleanup_all_rel(
        pre: EntityManager,
        post: EntityManager,
        deleted: Seq<u16>,
    ) -> bool
        decreases deleted.len(),
    {
        if deleted.len() == 0 {
            Self::em_eq_mod_delivered(pre, post)
        } else {
            exists|mid: EntityManager|
                #[trigger] Self::cleanup_rel(pre, mid, deleted[0]) && Self::cleanup_all_rel(
                    mid,
                    post,
                    deleted.drop_first(),
                )
        }
    }

    /// Everything a drained delivered packet does: its ledger entry is
    /// removed (so a duplicate or late notification finds nothing), each
    /// recorded action's effect applies once, and the records whose
    /// deletes were acked are destroyed with their keys recycled. A packet
    /// with no ledger entry changes nothing. The delivered-notification
    /// queue is not constrained here; the drain empties it.
    pub open spec fn deliver_packet_rel(
        pre: EntityManager,
        post: EntityManager,
        wr: WorldRecord,
        p: u16,
    ) -> bool {
        if pre.sent_actions@.dom().contains(p) {
            exists|mid0: EntityManager, mid1: EntityManager, deleted: Seq<u16>|
                {
                    &&& mid0.sent_actions@ == pre.sent_actions@.remove(p)
                    &&& mid0.sent_updates == pre.sent_updates
                    &&& mid0.queued_actions == pre.queued_actions
                    &&& mid0.entity_records == pre.entity_records
                    &&& mid0.local_to_global_entity == pre.local_to_global_entity
                    &&& mid0.component_records == pre.component_records
                    &&& mid0.local_to_global_component == pre.local_to_global_component
                    &&& mid0.diff_handler == pre.diff_handler
                    &&& mid0.entity_generator == pre.entity_generator
                    &&& mid0.component_key_generator == pre.component_key_generator
                    &&& mid0.delayed_entity_deletions == pre.delayed_entity_deletions
                    &&& mid0.delayed_component_deletions == pre.delayed_component_deletions
                    &&& #[trigger] Self::deliver_actions_rel(
                        mid0,
                        mid1,
                        wr,
                        p,
                        pre.sent()[p],
                        Seq::<u16>::empty(),
                        deleted,
                    )
                    &&& Self::cleanup_all_rel(mid1, post, deleted)
                }
        } else {
            &&& post.sent_actions@ == pre.sent_actions@
            &&& post.sent_updates == pre.sent_updates
            &&& post.queued_actions == pre.queued_actions
            &&& post.entity_records == pre.entity_records
            &&& post.local_to_global_entity == pre.local_to_global_entity
            &&& post.component_records == pre.component_records
            &&& post.local_to_global_component == pre.local_to_global_component
            &&& post.diff_handler == pre.diff_handler
            &&& post.entity_generator == pre.entity_generator
            &&& post.component_key_generator == pre.component_key_generator
            &&& post.delayed_entity_deletions == pre.delayed_entity_deletions
            &&& post.delayed_component_deletions == pre.delayed_component_deletions
        }
    }

    /// The delivered packets' effects, chained in drain order.
    pub open spec fn deliver_packets_rel(
        pre: EntityManager,
        post: EntityManager,
        wr: WorldRecord,
        packets: Seq<u16>,
    ) -> bool
        decreases packets.len(),
    {
        if packets.len() == 0 {
            &&& post.sent_actions == pre.sent_actions
            &&& post.sent_updates == pre.sent_updates
            &&& post.queued_actions == pre.queued_actions
            &&& post.entity_records == pre.entity_records
            &&& post.local_to_global_entity == pre.local_to_global_entity
            &&& post.component_records == pre.component_records
            &&& post.local_to_global_component == pre.local_to_global_component
            &&& post.diff_handler == pre.diff_handler
            &&& post.entity_generator == pre.entity_generator
            &&& post.component_key_generator == pre.component_key_generator
            &&& post.delayed_entity_deletions == pre.delayed_entity_deletions
            &&& post.delayed_component_deletions == pre.delayed_component_deletions
        } else {
            exists|mid: EntityManager|
                #[trigger] Self::deliver_packet_rel(pre, mid, wr, packets[0])
                    && Self::deliver_packets_rel(mid, post, wr, packets.drop_first())
        }
    }

    /// Apply the effect of one delivered action to the ledger, exactly as
    /// delivery reconciliation prescribes. Component keys whose records
    /// must be destroyed are pushed onto `deleted` for cleanup after the
    /// packet's actions are folded. A record the action expects that is
    /// already gone leaves everything unchanged.
    #[verifier::rlimit(60)]
    fn process_delivered_action(
        &mut self,
        world_record: &WorldRecord,
        packet_index: u16,
        action: &EntityAction,
        deleted: &mut Vec<u16>,
    )
        requires
            old(self).wf(),
            world_record.wf(),
        ensures
            Self::deliver_action_rel(
                *old(self),
                *final(self),
                *world_record,
                packet_index,
                action@,
                old(deleted)@,
                final(deleted)@,
            ),
            final(self).delivered_packets == old(self).delivered_packets,
    {
        match action {
            EntityAction::RemoveComponent { component } => {
                deleted.push(*component);

            proof {
                assert(Self::deliver_action_rel(
                    *old(self),
                    *self,
                    *world_record,
                    packet_index,
                    action@,
                    old(deleted)@,
                    deleted@,
                ));
            }
            },
            EntityAction::UpdateComponent { .. } => {
                let _ = self.sent_updates.remove(packet_index);
                proof {
                    assert(self.updates() =~~= old(self).updates().remove(packet_index));
                }

            proof {
                assert(Self::deliver_action_rel(
                    *old(self),
                    *self,
                    *world_record,
                    packet_index,
                    action@,
                    old(deleted)@,
                    deleted@,
                ));
            }
            },
            EntityAction::OwnEntity { .. } => {
            proof {
                assert(Self::deliver_action_rel(
                    *old(self),
                    *self,
                    *world_record,
                    packet_index,
                    action@,
                    old(deleted)@,
                    deleted@,
                ));
            }
},
            EntityAction::DisownEntity { .. } => {
            proof {
                assert(Self::deliver_action_rel(
                    *old(self),
                    *self,
                    *world_record,
                    packet_index,
                    action@,
                    old(deleted)@,
                    deleted@,
                ));
            }
},
            EntityAction::InsertComponent { component, .. } => {
                let found = match self.component_records.get(*component) {
                    Some(r) => Some(*r),
                    None => None,
                };
                match found {
                    Some(record) => {
                        if self.delayed_component_deletions.take(*component) {
                            self.update_component_record(
                                *component,
                                LocalComponentRecord {
                                    local_key: record.local_key,
                                    status: LocalityStatus::Deleting,
                                },
                            );
                            self.queued_actions.push_back(
                                EntityAction::RemoveComponent { component: *component },
                            );
                            proof {
                                assert(self.queued() =~= old(self).queued().push(
                                    ActionView::RemoveComponent { component: *component },
                                ));
                            }
                        } else {
                            self.update_component_record(
                                *component,
                                LocalComponentRecord {
                                    local_key: record.local_key,
                                    status: LocalityStatus::Created,
                                },
                            );
                            proof {
                                assert(self.delayed_component_deletions@
                                    =~= old(self).delayed_component_deletions@);
                            }
                        }
                    },
                    None => {},
                }
            },
            EntityAction::DespawnEntity { entity } => {
                let known = self.entity_records.contains_key(*entity)
                    && world_record.has_entity(*entity);
                if known {
                    self.entity_cleanup(*entity);
                    let component_keys = world_record.get_component_keys(*entity);
                    let ghost keys = component_keys@;
                    let ghost d0 = deleted@;
                    let n = component_keys.len();
                    let mut i: usize = 0;
                    while i < n
                        invariant
                            i <= n,
                            n == keys.len(),
                            component_keys@ == keys,
                            deleted@ == d0 + keys.take(i as int),
                        decreases n - i,
                    {
                        deleted.push(component_keys[i]);
                        i = i + 1;
                        proof {
                            assert(deleted@ =~= d0 + keys.take(i as int));
                        }
                    }
                    proof {
                        assert(keys.take(n as int) =~= keys);
                        assert(deleted@ =~= d0 + keys);
                    }
                }

            proof {
                assert(Self::deliver_action_rel(
                    *old(self),
                    *self,
                    *world_record,
                    packet_index,
                    action@,
                    old(deleted)@,
                    deleted@,
                ));
            }
            },
            EntityAction::SpawnEntity { entity, components } => {
                let known = self.entity_records.contains_key(*entity)
                    && world_record.has_entity(*entity);
                if known {
                    let record = match self.entity_records.get(*entity) {
                        Some(r) => *r,
                        None => vstd::pervasive::unreached(),
                    };
                    if self.delayed_entity_deletions.take(*entity) {
                        self.update_entity_record(
                            *entity,
                            LocalEntityRecord {
                                local_key: record.local_key,
                                status: LocalityStatus::Deleting,
                                is_prediction: record.is_prediction,
                            },
                        );
                        self.queued_actions.push_back(
                            EntityAction::DespawnEntity { entity: *entity },
                        );
                        proof {
                            assert(self.queued() =~= old(self).queued().push(
                                ActionView::DespawnEntity { entity: *entity },
                            ));
                        }
                    } else {
                        self.update_entity_record(
                            *entity,
                            LocalEntityRecord {
                                local_key: record.local_key,
                                status: LocalityStatus::Created,
                                is_prediction: record.is_prediction,
                            },
                        );
                        let ghost after_mark = *self;
                        self.mark_components_created(components);
                        proof {
                            assert(self.delayed_entity_deletions@ =~= old(self).delayed_entity_deletions@);
                        }
                        self.queue_straggler_inserts(world_record, *entity);
                        proof {
                            assert(self.queued() == old(self).queued() + Self::straggler_inserts(
                                world_record.entities@[*entity].items@,
                                self.component_records@,
                                world_record.components_view(),
                                *entity,
                            ));
                            assert(self.entity_records@ =~= old(self).entity_records@.insert(
                                *entity,
                                LocalEntityRecord {
                                    local_key: old(self).entity_records@[*entity].local_key,
                                    status: LocalityStatus::Created,
                                    is_prediction: old(self).entity_records@[*entity].is_prediction,
                                },
                            ));
                        }
                    }
                }

            proof {
                assert(Self::deliver_action_rel(
                    *old(self),
                    *self,
                    *world_record,
                    packet_index,
                    action@,
                    old(deleted)@,
                    deleted@,
                ));
            }
            },
        }
    }

    /// An action chain extends by one applied action at its end.
    pub proof fn lemma_deliver_actions_snoc(
        pre: EntityManager,
        cur: EntityManager,
        next: EntityManager,
        wr: WorldRecord,
        p: u16,
        actions: Seq<ActionView>,
        av: ActionView,
        d0: Seq<u16>,
        dc: Seq<u16>,
        dn: Seq<u16>,
    )
        requires
            Self::deliver_actions_rel(pre, cur, wr, p, actions, d0, dc),
            Self::deliver_action_rel(cur, next, wr, p, av, dc, dn),
        ensures
            Self::deliver_actions_rel(pre, next, wr, p, actions.push(av), d0, dn),
        decreases actions.len(),
    {
        if actions.len() == 0 {
            assert(Self::em_eq_mod_delivered(pre, cur) && dc == d0);
            assert(actions.push(av)[0] == av);
            assert(actions.push(av).drop_first() =~= Seq::<ActionView>::empty());
            assert(Self::deliver_action_rel(pre, next, wr, p, actions.push(av)[0], d0, dn)) by {
                assert(pre.masks() == cur.masks());
                assert(pre.queued() == cur.queued());
                assert(pre.updates() == cur.updates());
            }
            assert(Self::deliver_actions_rel(
                next,
                next,
                wr,
                p,
                actions.push(av).drop_first(),
                dn,
                dn,
            ));
        } else {
            let (mid, dm) = choose|mid: EntityManager, dm: Seq<u16>|
                #[trigger] Self::deliver_action_rel(pre, mid, wr, p, actions[0], d0, dm)
                    && Self::deliver_actions_rel(mid, cur, wr, p, actions.drop_first(), dm, dc);
            Self::lemma_deliver_actions_snoc(
                mid,
                cur,
                next,
                wr,
                p,
                actions.drop_first(),
                av,
                dm,
                dc,
                dn,
            );
            assert(actions.push(av)[0] == actions[0]);
            assert(actions.push(av).drop_first() =~= actions.drop_first().push(av));
            assert(Self::deliver_action_rel(pre, mid, wr, p, actions.push(av)[0], d0, dm));
        }
    }

    /// A cleanup chain extends by one cleanup at its end.
    pub proof fn lemma_cleanup_all_snoc(
        pre: EntityManager,
        cur: EntityManager,
        next: EntityManager,
        deleted: Seq<u16>,
        ck: u16,
    )
        requires
            Self::cleanup_all_rel(pre, cur, deleted),
            Self::cleanup_rel(cur, next, ck),
        ensures
            Self::cleanup_all_rel(pre, next, deleted.push(ck)),
        decreases deleted.len(),
    {
        if deleted.len() == 0 {
            assert(Self::em_eq_mod_delivered(pre, cur));
            assert(deleted.push(ck)[0] == ck);
            assert(deleted.push(ck).drop_first() =~= Seq::<u16>::empty());
            assert(Self::cleanup_rel(pre, next, deleted.push(ck)[0])) by {
                assert(pre.masks() == cur.masks());
            }
            assert(Self::cleanup_all_rel(next, next, deleted.push(ck).drop_first()));
        } else {
            let mid = choose|mid: EntityManager|
                #[trigger] Self::cleanup_rel(pre, mid, deleted[0]) && Self::cleanup_all_rel(
                    mid,
                    cur,
                    deleted.drop_first(),
                );
            Self::lemma_cleanup_all_snoc(mid, cur, next, deleted.drop_first(), ck);
            assert(deleted.push(ck)[0] == deleted[0]);
            assert(deleted.push(ck).drop_first() =~= deleted.drop_first().push(ck));
            assert(Self::cleanup_rel(pre, mid, deleted.push(ck)[0]));
        }
    }

    /// A packet chain extends by one drained packet at its end.
    pub proof fn lemma_deliver_packets_snoc(
        pre: EntityManager,
        cur: EntityManager,
        next: EntityManager,
        wr: WorldRecord,
        packets: Seq<u16>,
        p: u16,
    )
        requires
            Self::deliver_packets_rel(pre, cur, wr, packets),
            Self::deliver_packet_rel(cur, next, wr, p),
        ensures
            Self::deliver_packets_rel(pre, next, wr, packets.push(p)),
        decreases packets.len(),
    {
        if packets.len() == 0 {
            assert(packets.push(p)[0] == p);
            assert(packets.push(p).drop_first() =~= Seq::<u16>::empty());
            assert(Self::deliver_packet_rel(pre, next, wr, packets.push(p)[0])) by {
                assert(cur.sent_actions@ =~= pre.sent_actions@);
                assert(cur.sent() =~~= pre.sent());
                if pre.sent_actions@.dom().contains(p) {
                    let (mid0, mid1, deleted) = choose|
                        mid0: EntityManager,
                        mid1: EntityManager,
                        deleted: Seq<u16>,
                    |
                        {
                            &&& mid0.sent_actions@ == cur.sent_actions@.remove(p)
                            &&& mid0.sent_updates == cur.sent_updates
                            &&& mid0.queued_actions == cur.queued_actions
                            &&& mid0.entity_records == cur.entity_records
                            &&& mid0.local_to_global_entity == cur.local_to_global_entity
                            &&& mid0.component_records == cur.component_records
                            &&& mid0.local_to_global_component == cur.local_to_global_component
                            &&& mid0.diff_handler == cur.diff_handler
                            &&& mid0.entity_generator == cur.entity_generator
                            &&& mid0.component_key_generator == cur.component_key_generator
                            &&& mid0.delayed_entity_deletions == cur.delayed_entity_deletions
                            &&& mid0.delayed_component_deletions == cur.delayed_component_deletions
                            &&& #[trigger] Self::deliver_actions_rel(
                                mid0,
                                mid1,
                                wr,
                                p,
                                cur.sent()[p],
                                Seq::<u16>::empty(),
                                deleted,
                            )
                            &&& Self::cleanup_all_rel(mid1, next, deleted)
                        };
                    assert(mid0.sent_actions@ =~= pre.sent_actions@.remove(p));
                    assert(cur.sent()[p] == pre.sent()[p]);
                    assert(Self::deliver_actions_rel(
                        mid0,
                        mid1,
                        wr,
                        p,
                        pre.sent()[p],
                        Seq::<u16>::empty(),
                        deleted,
                    ));
                    assert(mid0.sent_updates == pre.sent_updates);
                    assert(mid0.queued_actions == pre.queued_actions);
                    assert(mid0.entity_records == pre.entity_records);
                    assert(mid0.local_to_global_entity == pre.local_to_global_entity);
                    assert(mid0.component_records == pre.component_records);
                    assert(mid0.local_to_global_component == pre.local_to_global_component);
                    assert(mid0.diff_handler == pre.diff_handler);
                    assert(mid0.entity_generator == pre.entity_generator);
                    assert(mid0.component_key_generator == pre.component_key_generator);
                    assert(mid0.delayed_entity_deletions == pre.delayed_entity_deletions);
                    assert(mid0.delayed_component_deletions == pre.delayed_component_deletions);
                }
            }
            assert(Self::deliver_packets_rel(next, next, wr, packets.push(p).drop_first()));
        } else {
            let mid = choose|mid: EntityManager|
                #[trigger] Self::deliver_packet_rel(pre, mid, wr, packets[0])
                    && Self::deliver_packets_rel(mid, cur, wr, packets.drop_first());
            Self::lemma_deliver_packets_snoc(mid, cur, next, wr, packets.drop_first(), p);
            assert(packets.push(p)[0] == packets[0]);
            assert(packets.push(p).drop_first() =~= packets.drop_first().push(p));
            assert(Self::deliver_packet_rel(pre, mid, wr, packets.push(p)[0]));
        }
    }

    /// The packet chain ignores the delivered-notification queue: a
    /// chain endpoint may change that queue freely.
    pub proof fn lemma_packets_rel_mod_delivered(
        pre: EntityManager,
        cur: EntityManager,
        cur2: EntityManager,
        wr: WorldRecord,
        packets: Seq<u16>,
    )
        requires
            Self::deliver_packets_rel(pre, cur, wr, packets),
            Self::em_eq_mod_delivered(cur, cur2),
        ensures
            Self::deliver_packets_rel(pre, cur2, wr, packets),
        decreases packets.len(),
    {
        if packets.len() == 0 {
        } else {
            let mid = choose|mid: EntityManager|
                #[trigger] Self::deliver_packet_rel(pre, mid, wr, packets[0])
                    && Self::deliver_packets_rel(mid, cur, wr, packets.drop_first());
            Self::lemma_packets_rel_mod_delivered(mid, cur, cur2, wr, packets.drop_first());
        }
    }

    /// Fold every delivered packet into the ledger: drain the queued
    /// delivery notifications and apply each recorded action's effect in
    /// order, per `deliver_packets_rel`: record transitions, delayed
    /// deletions converted into delete actions, straggler inserts, mask
    /// records cleared, and acked deletes destroyed with their keys
    /// recycled. Each packet's ledger entry is removed, so a duplicate
    /// notification, or a drop notification arriving after the delivery,
    /// finds nothing.
    #[verifier::rlimit(100)]
    pub fn process_delivered_packets(&mut self, world_record: &WorldRecord)
        requires
            old(self).wf(),
            world_record.wf(),
        ensures
            final(self).wf(),
            final(self).delivered_packets@ == Seq::<u16>::empty(),
            Self::deliver_packets_rel(
                *old(self),
                *final(self),
                *world_record,
                old(self).delivered_packets@,
            ),
            forall|p: u16|
                old(self).delivered_packets@.contains(p) ==> !final(self).sent().dom().contains(p),
            forall|p: u16| #[trigger]
                final(self).sent().dom().contains(p) ==> old(self).sent().dom().contains(p)
                    && final(self).sent()[p] == old(self).sent()[p],
    {
        let ghost total = old(self).delivered_packets@.len() as int;
        let ghost mut k: int = 0;
        proof {
            assert(old(self).delivered_packets@.take(0) =~= Seq::<u16>::empty());
            assert(Self::deliver_packets_rel(
                *old(self),
                *self,
                *world_record,
                old(self).delivered_packets@.take(0),
            ));
        }
        loop
            invariant
                0 <= k <= total,
                total == old(self).delivered_packets@.len(),
                self.delivered_packets@ == old(self).delivered_packets@.skip(k),
                self.wf(),
                world_record.wf(),
                Self::deliver_packets_rel(
                    *old(self),
                    *self,
                    *world_record,
                    old(self).delivered_packets@.take(k),
                ),
                forall|p: u16| #[trigger]
                    self.sent_actions@.dom().contains(p) ==> old(self).sent_actions@.dom().contains(p) && self.sent_actions@[p] == old(self).sent_actions@[p],
                forall|idx: int|
                    0 <= idx < k ==> !self.sent_actions@.dom().contains(
                        old(self).delivered_packets@[idx],
                    ),
            ensures
                self.delivered_packets@.len() == 0,
                k == total,
                Self::deliver_packets_rel(
                    *old(self),
                    *self,
                    *world_record,
                    old(self).delivered_packets@.take(k),
                ),
            decreases total - k,
        {
            let ghost dq_pre = self.delivered_packets@;
            let ghost chain_pre = *self;
            let packet_index = match self.delivered_packets.pop_front() {
                Some(p) => p,
                None => {
                    proof {
                        assert(old(self).delivered_packets@.skip(k).len() == 0);
                        assert(k == total);
                        Self::lemma_packets_rel_mod_delivered(
                            *old(self),
                            chain_pre,
                            *self,
                            *world_record,
                            old(self).delivered_packets@.take(k),
                        );
                    }
                    break ;
                },
            };
            let ghost after_pop = *self;
            proof {
                assert(dq_pre[0] == packet_index);
                assert(old(self).delivered_packets@.skip(k)[0] == packet_index);
                assert(old(self).delivered_packets@[k] == packet_index);
                assert(self.delivered_packets@ =~= old(self).delivered_packets@.skip(k + 1));
                Self::lemma_packets_rel_mod_delivered(
                    *old(self),
                    chain_pre,
                    after_pop,
                    *world_record,
                    old(self).delivered_packets@.take(k),
                );
                k = k + 1;
            }
            let mut deleted: Vec<u16> = Vec::new();
            let ghost sa_top = self.sent_actions@;
            let delivered_actions = match self.sent_actions.remove(packet_index) {
                Some(l) => l,
                None => {
                    proof {
                        assert(self.sent_actions@ =~= sa_top);
                        assert(!self.sent_actions@.dom().contains(packet_index));
                        assert(Self::deliver_packet_rel(
                            after_pop,
                            *self,
                            *world_record,
                            packet_index,
                        ));
                        Self::lemma_deliver_packets_snoc(
                            *old(self),
                            after_pop,
                            *self,
                            *world_record,
                            old(self).delivered_packets@.take(k - 1),
                            packet_index,
                        );
                        assert(old(self).delivered_packets@.take(k)
                            =~= old(self).delivered_packets@.take(k - 1).push(packet_index));
                    }
                    continue ;
                },
            };
            proof {
                assert(self.sent_actions@ == sa_top.remove(packet_index));
            }
            let ghost mid0 = *self;
            let ghost actions = delivered_actions.deep_view();
            proof {
                assert(after_pop.sent()[packet_index] == actions) by {
                    assert(after_pop.sent_actions@[packet_index] == delivered_actions);
                }
                assert(Self::deliver_actions_rel(
                    mid0,
                    *self,
                    *world_record,
                    packet_index,
                    actions.take(0),
                    Seq::<u16>::empty(),
                    deleted@,
                )) by {
                    assert(actions.take(0) =~= Seq::<ActionView>::empty());
                    assert(deleted@ =~= Seq::<u16>::empty());
                }
            }
            let ghost sa_mid = self.sent_actions;
            let n = delivered_actions.len();
            let mut i: usize = 0;
            while i < n
                invariant
                    i <= n,
                    n == actions.len(),
                    delivered_actions.deep_view() == actions,
                    self.wf(),
                    world_record.wf(),
                    self.sent_actions == sa_mid,
                    sa_mid@ == sa_top.remove(packet_index),
                    self.delivered_packets@ == old(self).delivered_packets@.skip(k),
                    Self::deliver_actions_rel(
                        mid0,
                        *self,
                        *world_record,
                        packet_index,
                        actions.take(i as int),
                        Seq::<u16>::empty(),
                        deleted@,
                    ),
                decreases n - i,
            {
                let ghost pre_a = *self;
                let ghost d_pre = deleted@;
                let action = delivered_actions[i].clone_action();
                self.process_delivered_action(world_record, packet_index, &action, &mut deleted);
                i = i + 1;
                proof {
                    assert(action@ == actions[i - 1]);
                    Self::lemma_deliver_actions_snoc(
                        mid0,
                        pre_a,
                        *self,
                        *world_record,
                        packet_index,
                        actions.take(i - 1),
                        actions[i - 1],
                        Seq::<u16>::empty(),
                        d_pre,
                        deleted@,
                    );
                    assert(actions.take(i as int) =~= actions.take(i - 1).push(actions[i - 1]));
                }
            }
            proof {
                assert(actions.take(n as int) =~= actions);
            }
            let ghost mid1 = *self;
            let ghost deleted_all = deleted@;
            proof {
                assert(Self::cleanup_all_rel(mid1, *self, deleted_all.take(0))) by {
                    assert(deleted_all.take(0) =~= Seq::<u16>::empty());
                }
            }
            let mut j: usize = 0;
            let dn = deleted.len();
            while j < dn
                invariant
                    j <= dn,
                    dn == deleted_all.len(),
                    deleted@ == deleted_all,
                    self.wf(),
                    self.sent_actions == sa_mid,
                    sa_mid@ == sa_top.remove(packet_index),
                    self.delivered_packets@ == old(self).delivered_packets@.skip(k),
                    Self::cleanup_all_rel(mid1, *self, deleted_all.take(j as int)),
                decreases dn - j,
            {
                let ghost pre_c = *self;
                self.component_cleanup(deleted[j]);
                j = j + 1;
                proof {
                    assert(Self::cleanup_rel(pre_c, *self, deleted_all[j - 1]));
                    Self::lemma_cleanup_all_snoc(
                        mid1,
                        pre_c,
                        *self,
                        deleted_all.take(j - 1),
                        deleted_all[j - 1],
                    );
                    assert(deleted_all.take(j as int) =~= deleted_all.take(j - 1).push(
                        deleted_all[j - 1],
                    ));
                }
            }
            proof {
                assert(deleted_all.take(dn as int) =~= deleted_all);
                assert(Self::deliver_packet_rel(after_pop, *self, *world_record, packet_index))
                    by {
                    assert(after_pop.sent_actions@.dom().contains(packet_index));
                    assert(mid0.sent_actions@ == after_pop.sent_actions@.remove(packet_index));
                    assert(Self::deliver_actions_rel(
                        mid0,
                        mid1,
                        *world_record,
                        packet_index,
                        after_pop.sent()[packet_index],
                        Seq::<u16>::empty(),
                        deleted_all,
                    ));
                    assert(Self::cleanup_all_rel(mid1, *self, deleted_all));
                }
                Self::lemma_deliver_packets_snoc(
                    *old(self),
                    after_pop,
                    *self,
                    *world_record,
                    old(self).delivered_packets@.take(k - 1),
                    packet_index,
                );
                assert(old(self).delivered_packets@.take(k)
                    =~= old(self).delivered_packets@.take(k - 1).push(packet_index));
                assert forall|idx: int| 0 <= idx < k implies !self.sent_actions@.dom().contains(
                    old(self).delivered_packets@[idx],
                ) by {
                    if idx < k - 1 {
                        assert(!sa_top.dom().contains(old(self).delivered_packets@[idx]));
                    }
                }
            }
        }
        proof {
            assert(self.delivered_packets@ =~= Seq::<u16>::empty());
            assert(old(self).delivered_packets@.take(total) =~= old(self).delivered_packets@);
            assert(self.sent().dom() =~= self.sent_actions@.dom());
            assert(old(self).sent().dom() =~= old(self).sent_actions@.dom());
            assert forall|p: u16|
                old(self).delivered_packets@.contains(p) implies !self.sent().dom().contains(
                p,
            ) by {
                let idx = choose|idx: int|
                    0 <= idx < old(self).delivered_packets@.len() && old(self).delivered_packets@[idx] == p;
            }
            assert forall|p: u16| #[trigger]
                self.sent().dom().contains(p) implies old(self).sent().dom().contains(p) && self.sent()[p]
                == old(self).sent()[p] by {
                assert(self.sent_actions@.dom().contains(p));
                assert(self.sent_actions@[p] == old(self).sent_actions@[p]);
                assert(self.sent()[p] == self.sent_actions@[p].deep_view());
                assert(old(self).sent()[p] == old(self).sent_actions@[p].deep_view());
            }
        }
    }
}

impl EntityManager {
    /// Wire bytes of a spawn's component list: kind id, wire-local
    /// component key, then the kind's whole payload, per component.
    pub open spec fn spawn_components_bytes(
        components: Seq<(u16, u16)>,
        records: Map<u16, LocalComponentRecord>,
        world: Map<u16, ReplicaView>,
    ) -> Seq<u8>
        decreases components.len(),
    {
        if components.len() == 0 {
            seq![]
        } else {
            Self::spawn_components_bytes(components.drop_last(), records, world) + u16_be_bytes(
                components.last().1,
            ) + u16_be_bytes(records[components.last().0].local_key)
                + world[components.last().0].properties
        }
    }

    /// The exact wire form of one entity action, under this connection's
    /// local keys and the world's current payloads.
    pub open spec fn action_wire_bytes(self, world: Map<u16, ReplicaView>, a: ActionView) -> Seq<
        u8,
    > {
        match a {
            ActionView::SpawnEntity { entity, components } => seq![0u8] + u16_be_bytes(
                self.entity_records@[entity].local_key,
            ) + seq![components.len() as u8] + Self::spawn_components_bytes(
                components,
                self.component_records@,
                world,
            ),
            ActionView::DespawnEntity { entity } => seq![1u8] + u16_be_bytes(
                self.entity_records@[entity].local_key,
            ),
            ActionView::UpdateComponent { entity, component, mask, kind } => seq![2u8]
                + u16_be_bytes(self.component_records@[component].local_key) + seq![
                mask.len() as u8,
            ] + mask + seq![masked_bytes(world[component].properties, mask, 0).len() as u8]
                + masked_bytes(world[component].properties, mask, 0),
            ActionView::OwnEntity { entity } => seq![3u8] + u16_be_bytes(
                self.entity_records@[entity].local_key,
            ),
            ActionView::DisownEntity { entity } => seq![4u8] + u16_be_bytes(
                self.entity_records@[entity].local_key,
            ),
            ActionView::InsertComponent { entity, component, kind } => seq![5u8] + u16_be_bytes(
                self.entity_records@[entity].local_key,
            ) + u16_be_bytes(kind) + u16_be_bytes(
                self.component_records@[component].local_key,
            ) + world[component].properties,
            ActionView::RemoveComponent { component } => seq![6u8] + u16_be_bytes(
                self.component_records@[component].local_key,
            ),
        }
    }

    /// Serialize one action into the packet writer. The action goes in
    /// whole or not at all: when its bytes would pass the MTU, or the
    /// packet already holds 255 actions, nothing changes and the caller
    /// unpops the action.
    #[verifier::rlimit(60)]
    pub fn write_entity_action<W: WorldRefType>(
        &self,
        world: &W,
        packet_writer: &mut PacketWriter,
        action: &EntityAction,
    ) -> (r: bool)
        requires
            self.wf(),
            world.inv(),
            old(packet_writer).used() <= MTU_SIZE as int,
            match action@ {
                ActionView::SpawnEntity { entity, components } => {
                    &&& self.entity_records@.dom().contains(entity)
                    &&& components.len() <= 255
                    &&& forall|a: int|
                        0 <= a < components.len() ==> self.component_records@.dom().contains(
                            (#[trigger] components[a]).0,
                        ) && world.components().dom().contains(components[a].0)
                },
                ActionView::DespawnEntity { entity } => self.entity_records@.dom().contains(entity),
                ActionView::OwnEntity { entity } => self.entity_records@.dom().contains(entity),
                ActionView::DisownEntity { entity } => self.entity_records@.dom().contains(entity),
                ActionView::InsertComponent { entity, component, .. } => {
                    &&& self.entity_records@.dom().contains(entity)
                    &&& self.component_records@.dom().contains(component)
                    &&& world.components().dom().contains(component)
                },
                ActionView::UpdateComponent { component, mask, .. } => {
                    &&& self.component_records@.dom().contains(component)
                    &&& world.components().dom().contains(component)
                    &&& mask.len() <= 255
                    &&& masked_bytes(world.components()[component].properties, mask, 0).len()
                        <= 255
                },
                ActionView::RemoveComponent { component } => self.component_records@.dom().contains(
                    component,
                ),
            },
        ensures
            r == (old(packet_writer).used() + self.action_wire_bytes(world.components(), action@).len()
                + (if old(packet_writer).entity_action_count == 0 {
                2int
            } else {
                0int
            }) <= MTU_SIZE as int && old(packet_writer).entity_action_count < 255),
            r ==> final(packet_writer).entity_working_bytes@ == old(packet_writer).entity_working_bytes@ + self.action_wire_bytes(world.components(), action@) && final(packet_writer).entity_action_count == old(packet_writer).entity_action_count + 1 && final(packet_writer).message_working_bytes == old(packet_writer).message_working_bytes && final(packet_writer).message_count == old(packet_writer).message_count,
            !r ==> *final(packet_writer) == *old(packet_writer),
            final(packet_writer).used() <= MTU_SIZE as int,
    {
        let mut action_total_bytes: Vec<u8> = Vec::new();
        match action {
            EntityAction::SpawnEntity { entity, components } => {
                write_u8(&mut action_total_bytes, 0);
                let local_entity = match self.entity_records.get(*entity) {
                    Some(rec) => rec.local_key,
                    None => vstd::pervasive::unreached(),
                };
                write_u16_be(&mut action_total_bytes, local_entity);
                write_u8(&mut action_total_bytes, components.len() as u8);
                let ghost comps = components@;
                let ghost prefix = action_total_bytes@;
                let n = components.len();
                let mut i: usize = 0;
                while i < n
                    invariant
                        i <= n,
                        n == comps.len(),
                        components@ == comps,
                        self.wf(),
                        world.inv(),
                        forall|a: int|
                            0 <= a < comps.len() ==> self.component_records@.dom().contains(
                                (#[trigger] comps[a]).0,
                            ) && world.components().dom().contains(comps[a].0),
                        action_total_bytes@ == prefix + Self::spawn_components_bytes(
                            comps.take(i as int),
                            self.component_records@,
                            world.components(),
                        ),
                    decreases n - i,
                {
                    let (ck, kind) = components[i];
                    write_u16_be(&mut action_total_bytes, kind);
                    let local_ck = match self.component_records.get(ck) {
                        Some(rec) => rec.local_key,
                        None => vstd::pervasive::unreached(),
                    };
                    write_u16_be(&mut action_total_bytes, local_ck);
                    let rep = match world.get_component(ck) {
                        Some(rep) => rep,
                        None => vstd::pervasive::unreached(),
                    };
                    rep.write(&mut action_total_bytes);
                    i = i + 1;
                    proof {
                        assert(comps.take(i as int).drop_last() =~= comps.take(i - 1));
                        assert(comps.take(i as int).last() == comps[i - 1]);
                        assert(action_total_bytes@ =~= prefix + Self::spawn_components_bytes(
                            comps.take(i as int),
                            self.component_records@,
                            world.components(),
                        ));
                    }
                }
                proof {
                    assert(comps.take(n as int) =~= comps);
                    assert(action_total_bytes@ =~= self.action_wire_bytes(
                        world.components(),
                        action@,
                    ));
                }
            },
            EntityAction::DespawnEntity { entity } => {
                write_u8(&mut action_total_bytes, 1);
                let local_entity = match self.entity_records.get(*entity) {
                    Some(rec) => rec.local_key,
                    None => vstd::pervasive::unreached(),
                };
                write_u16_be(&mut action_total_bytes, local_entity);
                proof {
                    assert(action_total_bytes@ =~= self.action_wire_bytes(
                        world.components(),
                        action@,
                    ));
                }
            },
            EntityAction::OwnEntity { entity } => {
                write_u8(&mut action_total_bytes, 3);
                let local_entity = match self.entity_records.get(*entity) {
                    Some(rec) => rec.local_key,
                    None => vstd::pervasive::unreached(),
                };
                write_u16_be(&mut action_total_bytes, local_entity);
                proof {
                    assert(action_total_bytes@ =~= self.action_wire_bytes(
                        world.components(),
                        action@,
                    ));
                }
            },
            EntityAction::DisownEntity { entity } => {
                write_u8(&mut action_total_bytes, 4);
                let local_entity = match self.entity_records.get(*entity) {
                    Some(rec) => rec.local_key,
                    None => vstd::pervasive::unreached(),
                };
                write_u16_be(&mut action_total_bytes, local_entity);
                proof {
                    assert(action_total_bytes@ =~= self.action_wire_bytes(
                        world.components(),
                        action@,
                    ));
                }
            },
            EntityAction::InsertComponent { entity, component, kind } => {
                write_u8(&mut action_total_bytes, 5);
                let local_entity = match self.entity_records.get(*entity) {
                    Some(rec) => rec.local_key,
                    None => vstd::pervasive::unreached(),
                };
                write_u16_be(&mut action_total_bytes, local_entity);
                write_u16_be(&mut action_total_bytes, *kind);
                let local_ck = match self.component_records.get(*component) {
                    Some(rec) => rec.local_key,
                    None => vstd::pervasive::unreached(),
                };
                write_u16_be(&mut action_total_bytes, local_ck);
                let rep = match world.get_component(*component) {
                    Some(rep) => rep,
                    None => vstd::pervasive::unreached(),
                };
                rep.write(&mut action_total_bytes);
                proof {
                    assert(action_total_bytes@ =~= self.action_wire_bytes(
                        world.components(),
                        action@,
                    ));
                }
            },
            EntityAction::UpdateComponent { entity: _, component, mask, kind: _ } => {
                write_u8(&mut action_total_bytes, 2);
                let local_ck = match self.component_records.get(*component) {
                    Some(rec) => rec.local_key,
                    None => vstd::pervasive::unreached(),
                };
                write_u16_be(&mut action_total_bytes, local_ck);
                mask.write(&mut action_total_bytes);
                let rep = match world.get_component(*component) {
                    Some(rep) => rep,
                    None => vstd::pervasive::unreached(),
                };
                let mut payload: Vec<u8> = Vec::new();
                rep.write_partial(mask, &mut payload);
                write_u8(&mut action_total_bytes, payload.len() as u8);
                let mut j: usize = 0;
                let ghost before_payload = action_total_bytes@;
                while j < payload.len()
                    invariant
                        j <= payload@.len(),
                        action_total_bytes@ == before_payload + payload@.take(j as int),
                    decreases payload@.len() - j,
                {
                    action_total_bytes.push(payload[j]);
                    j = j + 1;
                    assert(action_total_bytes@ =~= before_payload + payload@.take(j as int));
                }
                proof {
                    assert(payload@.take(payload@.len() as int) =~= payload@);
                    assert(action_total_bytes@ =~= self.action_wire_bytes(
                        world.components(),
                        action@,
                    ));
                }
            },
            EntityAction::RemoveComponent { component } => {
                write_u8(&mut action_total_bytes, 6);
                let local_ck = match self.component_records.get(*component) {
                    Some(rec) => rec.local_key,
                    None => vstd::pervasive::unreached(),
                };
                write_u16_be(&mut action_total_bytes, local_ck);
                proof {
                    assert(action_total_bytes@ =~= self.action_wire_bytes(
                        world.components(),
                        action@,
                    ));
                }
            },
        }
        if action_total_bytes.len() > MTU_SIZE {
            return false;
        }
        let mut hypothetical_next_payload_size = packet_writer.bytes_number()
            + action_total_bytes.len();
        if packet_writer.entity_action_count == 0 {
            hypothetical_next_payload_size = hypothetical_next_payload_size + 2;
        }
        if hypothetical_next_payload_size <= MTU_SIZE {
            if packet_writer.entity_action_count == 255 {
                return false;
            }
            packet_writer.entity_action_count = packet_writer.entity_action_count + 1;
            let ghost ewb0 = packet_writer.entity_working_bytes@;
            packet_writer.entity_working_bytes.append(&mut action_total_bytes);
            proof {
                assert(packet_writer.entity_working_bytes@ =~= ewb0 + self.action_wire_bytes(
                    world.components(),
                    action@,
                ));
            }
            true
        } else {
            false
        }
    }
}

/// The first walked packet stands one past the dropped one.
proof fn lemma_wrap_first_step(p: u16, last: u16)
    requires
        p != last,
    ensures
        EntityManager::walk_steps(p, last) >= 1,
        EntityManager::wrap_dist(EntityManager::wrap_inc(p), last) == EntityManager::walk_steps(
            p,
            last,
        ) - 1,
{
    lemma_wrap_dist_dec(p, last);
}

/// Stepping once shortens the remaining walk by one.
proof fn lemma_wrap_dist_dec(q: u16, last: u16)
    requires
        q != last,
    ensures
        EntityManager::wrap_dist(q, last) >= 1,
        EntityManager::wrap_dist(EntityManager::wrap_inc(q), last) == EntityManager::wrap_dist(
            q,
            last,
        ) - 1,
{
    let d = (last - q) % 65536;
    assert(0 <= d < 65536);
    assert(d != 0) by {
        if d == 0 {
            assert((last - q) % 65536 == 0);
            assert(-65535 <= last - q <= 65535);
            assert(last - q == 0) by (nonlinear_arith)
                requires
                    (last - q) % 65536 == 0,
                    -65535 <= last - q <= 65535,
            ;
        }
    }
    if q == 0xffff {
        assert((last - 0) % 65536 == (last - 0xffff) % 65536 - 1) by (nonlinear_arith)
            requires
                (last - 0xffff) % 65536 != 0,
        ;
    } else {
        assert((last - (q + 1)) % 65536 == (last - q) % 65536 - 1) by (nonlinear_arith)
            requires
                (last - q) % 65536 != 0,
        ;
    }
}

/// The walk ends exactly at the most recent update packet.
proof fn lemma_wrap_dist_zero(q: u16, last: u16)
    requires
        q == last,
    ensures
        EntityManager::wrap_dist(q, last) == 0,
{
}

} // verus!
